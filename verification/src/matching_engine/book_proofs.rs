//! Why the operations of the model keep a book well formed.

use vstd::prelude::*;
use crate::common::{OrderId, Side, Price, Quantity, INVALID_ORDER_ID};
use crate::matching_engine::order::OrderInfo;
use crate::matching_engine::arena::{key_in_bounds, spec_price_to_index};
use crate::matching_engine::book_model::{BookModel, Level, Resting, Taker, is_book_side, better, crosses, chain_wf, queue_wf, ids_below, can_match, run_match, fill_head, remove_at, trade_qty, has_price, level_index, is_insert_pos, insert_pos, next_priority_in, spot_before_removal, spot_before_rest};

verus! {

/// Removing an order keeps a chain well formed and its ids bounded.
pub proof fn lemma_remove_at_chain(side: Side, chain: Seq<Level>, i: int, j: int, bound: OrderId)
    requires
        chain_wf(side, chain),
        ids_below(chain, bound),
        0 <= i < chain.len(),
        0 <= j < chain[i].queue.len(),
    ensures
        chain_wf(side, remove_at(chain, i, j)),
        ids_below(remove_at(chain, i, j), bound),
{
    let after = remove_at(chain, i, j);
    if chain[i].queue.len() == 1 {
        assert forall|a: int, b: int| 0 <= a < b < after.len() implies better(
            side,
            (#[trigger] after[a]).price,
            (#[trigger] after[b]).price,
        ) by {
            let a0 = if a < i { a } else { a + 1 };
            let b0 = if b < i { b } else { b + 1 };
            assert(after[a] == chain[a0]);
            assert(after[b] == chain[b0]);
        }
        assert forall|a: int| 0 <= a < after.len() implies queue_wf((#[trigger] after[a]).queue) by {
            let a0 = if a < i { a } else { a + 1 };
            assert(after[a] == chain[a0]);
        }
        assert forall|a: int, b: int| 0 <= a < after.len() && 0 <= b < after[a].queue.len() implies (
        #[trigger] after[a].queue[b]).internal_order_id < bound by {
            let a0 = if a < i { a } else { a + 1 };
            assert(after[a] == chain[a0]);
            assert(chain[a0].queue[b].internal_order_id < bound);
        }
    } else {
        let q = chain[i].queue;
        let q2 = q.remove(j);
        assert(queue_wf(q));
        assert forall|a: int| 0 <= a < q2.len() implies {
            &&& (#[trigger] q2[a]).qty > 0
            &&& 1 <= q2[a].priority <= q2[a].internal_order_id
            &&& key_in_bounds(q2[a].key)
        } by {
            let a0 = if a < j { a } else { a + 1 };
            assert(q2[a] == q[a0]);
        }
        assert forall|a: int, b: int| 0 <= a < b < q2.len() implies (#[trigger] q2[a]).priority < (
        #[trigger] q2[b]).priority by {
            let a0 = if a < j { a } else { a + 1 };
            let b0 = if b < j { b } else { b + 1 };
            assert(q2[a] == q[a0]);
            assert(q2[b] == q[b0]);
        }
        assert(queue_wf(q2));
        assert forall|a: int, b: int| 0 <= a < b < after.len() implies better(
            side,
            (#[trigger] after[a]).price,
            (#[trigger] after[b]).price,
        ) by {
            assert(after[a].price == chain[a].price);
            assert(after[b].price == chain[b].price);
        }
        assert forall|a: int| 0 <= a < after.len() implies queue_wf((#[trigger] after[a]).queue) by {
            if a != i {
                assert(after[a] == chain[a]);
            }
        }
        assert forall|a: int, b: int| 0 <= a < after.len() && 0 <= b < after[a].queue.len() implies (
        #[trigger] after[a].queue[b]).internal_order_id < bound by {
            if a == i {
                let b0 = if b < j { b } else { b + 1 };
                assert(after[a].queue[b] == chain[i].queue[b0]);
            } else {
                assert(after[a] == chain[a]);
                assert(chain[a].queue[b].internal_order_id < bound);
            }
        }
    }
}

/// In a well-formed chain the level at a price is found at one place only.
pub proof fn lemma_level_index(side: Side, chain: Seq<Level>, price: Price, i: int)
    requires
        chain_wf(side, chain),
        0 <= i < chain.len(),
        chain[i].price == price,
    ensures
        has_price(chain, price),
        level_index(chain, price) == i,
{
    let k = level_index(chain, price);
    if k < i {
        assert(better(side, chain[k].price, chain[i].price));
    } else if i < k {
        assert(better(side, chain[i].price, chain[k].price));
    }
}

/// A new level belongs at one place only.
pub proof fn lemma_insert_pos(side: Side, chain: Seq<Level>, price: Price, k: int)
    requires
        is_insert_pos(side, chain, price, k),
    ensures
        insert_pos(side, chain, price) == k,
{
    let c = insert_pos(side, chain, price);
    if c < k {
        assert(better(side, chain[c].price, price));
    } else if k < c {
        assert(better(side, chain[k].price, price));
    }
}

/// In a well-formed chain without a level at `price` a new level at
/// `price` has a place.
pub proof fn lemma_insert_pos_exists(side: Side, chain: Seq<Level>, price: Price)
    requires
        chain_wf(side, chain),
    ensures
        is_insert_pos(side, chain, price, insert_pos(side, chain, price)),
    decreases chain.len(),
{
    if chain.len() == 0 {
        assert(is_insert_pos(side, chain, price, 0));
    } else {
        let front = chain.drop_last();
        assert(chain_wf(side, front)) by {
            assert forall|a: int, b: int| 0 <= a < b < front.len() implies better(
                side,
                (#[trigger] front[a]).price,
                (#[trigger] front[b]).price,
            ) by {
                assert(front[a] == chain[a]);
                assert(front[b] == chain[b]);
            }
            assert forall|a: int| 0 <= a < front.len() implies queue_wf((#[trigger] front[a]).queue) by {
                assert(front[a] == chain[a]);
            }
        }
        lemma_insert_pos_exists(side, front, price);
        let k = insert_pos(side, front, price);
        if better(side, chain.last().price, price) {
            assert forall|a: int| 0 <= a < chain.len() implies better(side, (#[trigger] chain[a]).price, price) by {
                if a < chain.len() - 1 {
                    assert(better(side, chain[a].price, chain[chain.len() - 1].price));
                }
            }
            assert(is_insert_pos(side, chain, price, chain.len() as int));
        } else {
            assert forall|a: int| 0 <= a < k implies better(side, (#[trigger] chain[a]).price, price) by {
                assert(front[a] == chain[a]);
            }
            assert forall|a: int| k <= a < chain.len() implies !better(side, (#[trigger] chain[a]).price, price) by {
                if a < chain.len() - 1 {
                    assert(front[a] == chain[a]);
                }
            }
            assert(is_insert_pos(side, chain, price, k));
        }
    }
}

impl BookModel {
    /// Every order of the book without the one at `(side, i, j)` is an
    /// order that the book had, at the place `spot_before_removal` gives.
    pub proof fn lemma_without_spots(self, side: Side, i: int, j: int)
        requires
            self.has(side, i, j),
        ensures
            forall|s: Side, i2: int, j2: int| #[trigger]
                self.without(side, i, j).has(s, i2, j2) ==> {
                    let sole = self.chain(side)[i].queue.len() == 1;
                    let (i0, j0) = spot_before_removal(sole, side, i, j, s, i2, j2);
                    &&& self.has(s, i0, j0)
                    &&& (i0, j0) != (i, j) || s != side
                    &&& self.resting(s, i0, j0) == self.without(side, i, j).resting(s, i2, j2)
                    &&& self.chain(s)[i0].price == self.without(side, i, j).chain(s)[i2].price
                },
            forall|s: Side, i2: int| #[trigger]
                self.without(side, i, j).has_level(s, i2) ==> {
                    let sole = self.chain(side)[i].queue.len() == 1;
                    let (i0, j0) = spot_before_removal(sole, side, i, j, s, i2, 0);
                    &&& self.has_level(s, i0)
                    &&& self.chain(s)[i0].price == self.without(side, i, j).chain(s)[i2].price
                },
    {
    }

    /// Every order of the book but the one at `(side, i, j)` is still
    /// there once that one has left.
    pub proof fn lemma_without_keeps(self, side: Side, i: int, j: int, s: Side, i0: int, j0: int)
        requires
            self.has(side, i, j),
            self.has(s, i0, j0),
            s != side || i0 != i || j0 != j,
        ensures
            ({
                let sole = self.chain(side)[i].queue.len() == 1;
                let i2 = if s == side && sole && i0 > i { i0 - 1 } else { i0 };
                let j2 = if s == side && !sole && i0 == i && j0 > j { j0 - 1 } else { j0 };
                &&& self.without(side, i, j).has(s, i2, j2)
                &&& self.without(side, i, j).resting(s, i2, j2) == self.resting(s, i0, j0)
                &&& self.without(side, i, j).chain(s)[i2].price == self.chain(s)[i0].price
            }),
    {
    }

    /// Removing a resting order keeps the book well formed; the order's
    /// key is free afterwards, every other key is live as before, and no
    /// slot becomes contested.
    pub proof fn lemma_without_wf(self, side: Side, i: int, j: int)
        requires
            self.wf(),
            self.has(side, i, j),
        ensures
            self.without(side, i, j).wf(),
            !self.without(side, i, j).is_live(self.resting(side, i, j).key),
            forall|key: OrderInfo|
                key != self.resting(side, i, j).key ==> self.without(side, i, j).is_live(key) == self.is_live(key),
            forall|price: Price| self.without(side, i, j).slot_conflict(price) ==> self.slot_conflict(price),
    {
        let after = self.without(side, i, j);
        let gone = self.resting(side, i, j).key;
        let sole = self.chain(side)[i].queue.len() == 1;
        self.lemma_without_spots(side, i, j);
        lemma_remove_at_chain(side, self.chain(side), i, j, self.next_internal_order_id);
        assert(after.keys_unique()) by {
            assert forall|s1: Side, i1: int, j1: int, s2: Side, i2: int, j2: int|
                #[trigger] after.has(s1, i1, j1) && #[trigger] after.has(s2, i2, j2) && after.resting(s1, i1, j1).key
                    == after.resting(s2, i2, j2).key implies s1 == s2 && i1 == i2 && j1 == j2 by {
                let (a1, b1) = spot_before_removal(sole, side, i, j, s1, i1, j1);
                let (a2, b2) = spot_before_removal(sole, side, i, j, s2, i2, j2);
                assert(self.has(s1, a1, b1));
                assert(self.has(s2, a2, b2));
            }
        }
        assert(after.slots_unique()) by {
            assert forall|s1: Side, i1: int, s2: Side, i2: int|
                #[trigger] after.has_level(s1, i1) && #[trigger] after.has_level(s2, i2) && spec_price_to_index(
                    after.chain(s1)[i1].price,
                ) == spec_price_to_index(after.chain(s2)[i2].price) implies s1 == s2 && i1 == i2 by {
                let (a1, b1) = spot_before_removal(sole, side, i, j, s1, i1, 0);
                let (a2, b2) = spot_before_removal(sole, side, i, j, s2, i2, 0);
                assert(self.has_level(s1, a1));
                assert(self.has_level(s2, a2));
            }
        }
        assert(after.no_cross()) by {
            if after.bids.len() > 0 && after.asks.len() > 0 {
                assert(after.has_level(Side::Buy, 0));
                assert(after.has_level(Side::Sell, 0));
                let (a1, b1) = spot_before_removal(sole, side, i, j, Side::Buy, 0, 0);
                let (a2, b2) = spot_before_removal(sole, side, i, j, Side::Sell, 0, 0);
                assert(self.has_level(Side::Buy, a1));
                assert(self.has_level(Side::Sell, a2));
                assert(self.bids[a1].price <= self.bids[0].price);
                assert(self.asks[a2].price >= self.asks[0].price);
            }
        }
        assert(!after.is_live(gone)) by {
            if after.is_live(gone) {
                let (s, i2, j2) = choose|s: Side, i2: int, j2: int| #[trigger]
                    after.has(s, i2, j2) && after.resting(s, i2, j2).key == gone;
                let (a, b) = spot_before_removal(sole, side, i, j, s, i2, j2);
                assert(self.has(s, a, b));
            }
        }
        assert forall|key: OrderInfo| key != gone implies after.is_live(key) == self.is_live(key) by {
            if after.is_live(key) {
                let (s, i2, j2) = choose|s: Side, i2: int, j2: int| #[trigger]
                    after.has(s, i2, j2) && after.resting(s, i2, j2).key == key;
                let (a, b) = spot_before_removal(sole, side, i, j, s, i2, j2);
                assert(self.has(s, a, b));
            }
            if self.is_live(key) {
                let (s, i0, j0) = choose|s: Side, i0: int, j0: int| #[trigger]
                    self.has(s, i0, j0) && self.resting(s, i0, j0).key == key;
                self.lemma_without_keeps(side, i, j, s, i0, j0);
                let i2 = if s == side && sole && i0 > i { i0 - 1 } else { i0 };
                let j2 = if s == side && !sole && i0 == i && j0 > j { j0 - 1 } else { j0 };
                assert(after.has(s, i2, j2));
            }
        }
        assert forall|price: Price| after.slot_conflict(price) implies self.slot_conflict(price) by {
            let (s, i2) = choose|s: Side, i2: int| #[trigger]
                after.has_level(s, i2) && after.chain(s)[i2].price != price && spec_price_to_index(
                    after.chain(s)[i2].price,
                ) == spec_price_to_index(price);
            let (a, b) = spot_before_removal(sole, side, i, j, s, i2, 0);
            assert(self.has_level(s, a));
        }
    }

    /// A trade against the oldest best-priced order keeps the book well
    /// formed, brings no key to life and contests no slot; a partial fill
    /// keeps every key live.
    pub proof fn lemma_filled_wf(self, side: Side, traded: Quantity)
        requires
            self.wf(),
            self.has(side, 0, 0),
            0 < traded <= self.resting(side, 0, 0).qty,
        ensures
            self.filled(side, traded).wf(),
            self.filled(side, traded).chain(side.spec_opposite()) == self.chain(side.spec_opposite()),
            forall|key: OrderInfo| self.filled(side, traded).is_live(key) ==> self.is_live(key),
            forall|key: OrderInfo|
                self.is_live(key) && (traded < self.resting(side, 0, 0).qty || key != self.resting(side, 0, 0).key)
                    ==> self.filled(side, traded).is_live(key),
            forall|price: Price| self.filled(side, traded).slot_conflict(price) ==> self.slot_conflict(price),
    {
        let after = self.filled(side, traded);
        let head = self.resting(side, 0, 0);
        if traded == head.qty {
            assert(after == self.without(side, 0, 0));
            self.lemma_without_wf(side, 0, 0);
        } else {
            let chain = self.chain(side);
            let q = chain[0].queue;
            let left = Resting { qty: (head.qty - traded) as u32, ..head };
            let q2 = q.update(0, left);
            let chain2 = after.chain(side);
            assert(chain2 == chain.update(0, Level { price: chain[0].price, queue: q2 }));
            assert(queue_wf(q));
            assert(queue_wf(q2)) by {
                assert forall|a: int| 0 <= a < q2.len() implies {
                    &&& (#[trigger] q2[a]).qty > 0
                    &&& 1 <= q2[a].priority <= q2[a].internal_order_id
                    &&& key_in_bounds(q2[a].key)
                } by {
                    assert(q[a].qty > 0);
                }
                assert forall|a: int, b: int| 0 <= a < b < q2.len() implies (#[trigger] q2[a]).priority < (
                #[trigger] q2[b]).priority by {
                    assert(q[a].priority < q[b].priority);
                }
            }
            assert forall|s: Side, a: int, b: int|
                after.has(s, a, b) == self.has(s, a, b) && (self.has(s, a, b) ==> {
                    &&& after.resting(s, a, b).key == self.resting(s, a, b).key
                    &&& after.resting(s, a, b).internal_order_id == self.resting(s, a, b).internal_order_id
                    &&& after.chain(s)[a].price == self.chain(s)[a].price
                }) by {}
            assert forall|s: Side, a: int|
                after.has_level(s, a) == self.has_level(s, a) && (self.has_level(s, a) ==> after.chain(s)[a].price
                    == self.chain(s)[a].price) by {}
            assert(chain_wf(side, chain2)) by {
                assert forall|a: int, b: int| 0 <= a < b < chain2.len() implies better(
                    side,
                    (#[trigger] chain2[a]).price,
                    (#[trigger] chain2[b]).price,
                ) by {
                    assert(chain2[a].price == chain[a].price);
                    assert(chain2[b].price == chain[b].price);
                }
                assert forall|a: int| 0 <= a < chain2.len() implies queue_wf((#[trigger] chain2[a]).queue) by {
                    if a != 0 {
                        assert(chain2[a] == chain[a]);
                    }
                }
            }
            assert(ids_below(chain2, self.next_internal_order_id)) by {
                assert forall|a: int, b: int| 0 <= a < chain2.len() && 0 <= b < chain2[a].queue.len() implies (
                #[trigger] chain2[a].queue[b]).internal_order_id < self.next_internal_order_id by {
                    assert(self.has(side, a, b));
                    assert(chain[a].queue[b].internal_order_id < self.next_internal_order_id);
                }
            }
            assert(after.keys_unique()) by {
                assert forall|s1: Side, i1: int, j1: int, s2: Side, i2: int, j2: int|
                    #[trigger] after.has(s1, i1, j1) && #[trigger] after.has(s2, i2, j2) && after.resting(
                        s1,
                        i1,
                        j1,
                    ).key == after.resting(s2, i2, j2).key implies s1 == s2 && i1 == i2 && j1 == j2 by {
                    assert(self.has(s1, i1, j1));
                    assert(self.has(s2, i2, j2));
                }
            }
            assert(after.slots_unique()) by {
                assert forall|s1: Side, i1: int, s2: Side, i2: int|
                    #[trigger] after.has_level(s1, i1) && #[trigger] after.has_level(s2, i2)
                        && spec_price_to_index(after.chain(s1)[i1].price) == spec_price_to_index(
                        after.chain(s2)[i2].price,
                    ) implies s1 == s2 && i1 == i2 by {
                    assert(self.has_level(s1, i1));
                    assert(self.has_level(s2, i2));
                }
            }
            assert(after.no_cross()) by {
                if after.bids.len() > 0 && after.asks.len() > 0 {
                    assert(after.has_level(Side::Buy, 0));
                    assert(after.has_level(Side::Sell, 0));
                }
            }
            assert forall|key: OrderInfo| after.is_live(key) == self.is_live(key) by {
                if after.is_live(key) {
                    let (s, a, b) = choose|s: Side, a: int, b: int| #[trigger]
                        after.has(s, a, b) && after.resting(s, a, b).key == key;
                    assert(self.has(s, a, b));
                }
                if self.is_live(key) {
                    let (s, a, b) = choose|s: Side, a: int, b: int| #[trigger]
                        self.has(s, a, b) && self.resting(s, a, b).key == key;
                    assert(after.has(s, a, b));
                }
            }
            assert forall|price: Price| after.slot_conflict(price) implies self.slot_conflict(price) by {
                let (s, a) = choose|s: Side, a: int| #[trigger]
                    after.has_level(s, a) && after.chain(s)[a].price != price && spec_price_to_index(
                        after.chain(s)[a].price,
                    ) == spec_price_to_index(price);
                assert(self.has_level(s, a));
            }
        }
    }

    /// Matching keeps the book well formed and leaves the taker's own side
    /// alone. It brings no key to life and contests no slot. What is left
    /// of the taker is no more than it came with, and is left only when
    /// the opposite side is empty or its best price is beyond the limit.
    pub proof fn lemma_matched_wf(self, taker: Taker, remaining: Quantity)
        requires
            self.wf(),
            is_book_side(taker.side),
        ensures
            self.matched(taker, remaining).wf(),
            self.matched(taker, remaining).chain(taker.side) == self.chain(taker.side),
            self.matched(taker, remaining).next_internal_order_id == self.next_internal_order_id,
            self.matched(taker, remaining).symbol_id == self.symbol_id,
            forall|key: OrderInfo| self.matched(taker, remaining).is_live(key) ==> self.is_live(key),
            forall|price: Price| self.matched(taker, remaining).slot_conflict(price) ==> self.slot_conflict(price),
            run_match(self.chain(taker.side.spec_opposite()), taker, remaining).remaining <= remaining,
            run_match(self.chain(taker.side.spec_opposite()), taker, remaining).remaining > 0 ==> {
                let left = self.matched(taker, remaining).chain(taker.side.spec_opposite());
                left.len() == 0 || !crosses(taker.side, taker.price, left[0].price)
            },
        decreases remaining,
    {
        let opposite = taker.side.spec_opposite();
        let chain = self.chain(opposite);
        if !can_match(chain, taker.side, taker.price, remaining) {
            assert(self.matched(taker, remaining) == self);
            if remaining > 0 && chain.len() > 0 {
                assert(queue_wf(chain[0].queue));
            }
        } else {
            let traded = trade_qty(remaining, chain[0].queue[0].qty);
            let left = (remaining - traded) as u32;
            let next = self.filled(opposite, traded);
            assert(self.has(opposite, 0, 0));
            self.lemma_filled_wf(opposite, traded);
            next.lemma_matched_wf(taker, left);
            assert(next.chain(opposite) == fill_head(chain, traded));
            assert(next.matched(taker, left) == self.matched(taker, remaining));
        }
    }

    /// After a new order came to rest, it is found at `rest_spot` with the
    /// terms it was given, and every other order is one the book had.
    pub proof fn lemma_rested_spots(
        self,
        side: Side,
        price: Price,
        key: OrderInfo,
        internal_order_id: OrderId,
        qty: Quantity,
    )
        requires
            is_book_side(side),
            chain_wf(side, self.chain(side)),
        ensures
            ({
                let after = self.rested(side, price, key, internal_order_id, qty);
                let (i, j) = self.rest_spot(side, price);
                let fresh = !has_price(self.chain(side), price);
                &&& after.has(side, i, j)
                &&& after.chain(side)[i].price == price
                &&& after.resting(side, i, j) == (Resting {
                    key,
                    internal_order_id,
                    qty,
                    priority: next_priority_in(self.chain(side), price),
                })
                &&& after.chain(side)[i].queue.len() == j + 1
                &&& fresh ==> is_insert_pos(side, self.chain(side), price, i)
                &&& !fresh ==> 0 <= i < self.chain(side).len() && self.chain(side)[i].price == price
                &&& after.chain(side).len() == self.chain(side).len() + if fresh { 1int } else { 0int }
                &&& forall|s: Side, i2: int, j2: int| #[trigger]
                    after.has(s, i2, j2) && (s, i2, j2) != (side, i, j) ==> {
                        let (i0, j0) = spot_before_rest(fresh, side, i, s, i2, j2);
                        &&& self.has(s, i0, j0)
                        &&& self.resting(s, i0, j0) == after.resting(s, i2, j2)
                        &&& self.chain(s)[i0].price == after.chain(s)[i2].price
                        &&& self.chain(s)[i0].queue.len() == after.chain(s)[i2].queue.len() - if s == side && i2 == i {
                            1int
                        } else {
                            0int
                        }
                    }
                &&& forall|s: Side, i0: int, j0: int| #[trigger]
                    self.has(s, i0, j0) ==> {
                        let i2 = if fresh && s == side && i0 >= i { i0 + 1 } else { i0 };
                        &&& after.has(s, i2, j0)
                        &&& (s, i2, j0) != (side, i, j)
                        &&& after.resting(s, i2, j0) == self.resting(s, i0, j0)
                        &&& after.chain(s)[i2].price == self.chain(s)[i0].price
                    }
                &&& forall|s: Side, i2: int| #[trigger]
                    after.has_level(s, i2) && (!fresh || (s, i2) != (side, i)) ==> {
                        let (i0, j0) = spot_before_rest(fresh, side, i, s, i2, 0);
                        &&& self.has_level(s, i0)
                        &&& self.chain(s)[i0].price == after.chain(s)[i2].price
                    }
            }),
    {
        let chain = self.chain(side);
        if has_price(chain, price) {
            let i = level_index(chain, price);
            assert(queue_wf(chain[i].queue));
        } else {
            lemma_insert_pos_exists(side, chain, price);
        }
    }

    /// In a well-formed book every bid is below every ask.
    pub proof fn lemma_sides_apart(self, i: int, j: int)
        requires
            self.wf(),
            0 <= i < self.bids.len(),
            0 <= j < self.asks.len(),
        ensures
            self.bids[i].price < self.asks[j].price,
    {
        if i > 0 {
            assert(better(Side::Buy, self.bids[0].price, self.bids[i].price));
        }
        if j > 0 {
            assert(better(Side::Sell, self.asks[0].price, self.asks[j].price));
        }
    }

    /// An order that may come to rest keeps the book well formed when it
    /// does. Its key is live afterwards and every other key is live as
    /// before; the other side is left alone.
    pub proof fn lemma_rested_wf(
        self,
        side: Side,
        price: Price,
        key: OrderInfo,
        internal_order_id: OrderId,
        qty: Quantity,
    )
        requires
            self.wf(),
            self.can_rest(side, price, key, internal_order_id, qty),
        ensures
            self.rested(side, price, key, internal_order_id, qty).wf(),
            self.rested(side, price, key, internal_order_id, qty).is_live(key),
            self.rested(side, price, key, internal_order_id, qty).chain(side.spec_opposite()) == self.chain(
                side.spec_opposite(),
            ),
            forall|other: OrderInfo|
                other != key ==> self.rested(side, price, key, internal_order_id, qty).is_live(other)
                    == self.is_live(other),
    {
        let after = self.rested(side, price, key, internal_order_id, qty);
        let chain = self.chain(side);
        let chain2 = after.chain(side);
        let opposite = side.spec_opposite();
        let (i, j) = self.rest_spot(side, price);
        let fresh = !has_price(chain, price);
        let priority = next_priority_in(chain, price);
        self.lemma_rested_spots(side, price, key, internal_order_id, qty);
        assert(after.has(side, i, j));
        // the new order's priority is above its level's and within its id
        assert(1 <= priority <= internal_order_id && (forall|b: int|
            0 <= b < j ==> (#[trigger] chain2[i].queue[b]).priority < priority)) by {
            if !fresh {
                let q = chain[i].queue;
                assert(queue_wf(q));
                assert(self.has(side, i, q.len() - 1));
                assert(q.last().internal_order_id < internal_order_id);
                assert forall|b: int| 0 <= b < j implies (#[trigger] chain2[i].queue[b]).priority < priority by {
                    assert(chain2[i].queue[b] == q[b]);
                    if b < q.len() - 1 {
                        assert(q[b].priority < q[q.len() - 1].priority);
                    }
                }
            }
        }
        assert(chain_wf(side, chain2)) by {
            assert forall|a: int, b: int| 0 <= a < b < chain2.len() implies better(
                side,
                (#[trigger] chain2[a]).price,
                (#[trigger] chain2[b]).price,
            ) by {
                assert(after.has_level(side, a));
                assert(after.has_level(side, b));
                let (a0, x) = spot_before_rest(fresh, side, i, side, a, 0);
                let (b0, y) = spot_before_rest(fresh, side, i, side, b, 0);
                if fresh && a == i {
                    assert(self.has_level(side, b0));
                    assert(!better(side, chain[b0].price, price));
                    if chain[b0].price == price {
                        assert(has_price(chain, price));
                    }
                } else if fresh && b == i {
                    assert(self.has_level(side, a0));
                    assert(better(side, chain[a0].price, price));
                } else {
                    assert(self.has_level(side, a0));
                    assert(self.has_level(side, b0));
                    assert(better(side, chain[a0].price, chain[b0].price));
                }
            }
            assert forall|a: int| 0 <= a < chain2.len() implies queue_wf((#[trigger] chain2[a]).queue) by {
                assert(after.has_level(side, a));
                let q2 = chain2[a].queue;
                if a == i {
                    assert forall|b: int| 0 <= b < q2.len() implies {
                        &&& (#[trigger] q2[b]).qty > 0
                        &&& 1 <= q2[b].priority <= q2[b].internal_order_id
                        &&& key_in_bounds(q2[b].key)
                    } by {
                        assert(after.has(side, a, b));
                        if b != j {
                            assert(queue_wf(chain[i].queue));
                            assert(q2[b] == chain[i].queue[b]);
                        }
                    }
                    assert forall|b: int, c: int| 0 <= b < c < q2.len() implies (#[trigger] q2[b]).priority < (
                    #[trigger] q2[c]).priority by {
                        if c != j {
                            assert(queue_wf(chain[i].queue));
                            assert(q2[b] == chain[i].queue[b]);
                            assert(q2[c] == chain[i].queue[c]);
                        }
                    }
                } else {
                    let (a0, x) = spot_before_rest(fresh, side, i, side, a, 0);
                    assert(self.has_level(side, a0));
                    assert(chain2[a] == chain[a0]);
                    assert(queue_wf(chain[a0].queue));
                }
            }
        }
        assert(ids_below(chain2, after.next_internal_order_id)) by {
            assert forall|a: int, b: int| 0 <= a < chain2.len() && 0 <= b < chain2[a].queue.len() implies (
            #[trigger] chain2[a].queue[b]).internal_order_id < after.next_internal_order_id by {
                assert(after.has(side, a, b));
                if (a, b) != (i, j) {
                    let (a0, b0) = spot_before_rest(fresh, side, i, side, a, b);
                    assert(self.has(side, a0, b0));
                    assert(chain[a0].queue[b0].internal_order_id < self.next_internal_order_id);
                }
            }
        }
        assert(after.keys_unique()) by {
            assert forall|s1: Side, i1: int, j1: int, s2: Side, i2: int, j2: int|
                #[trigger] after.has(s1, i1, j1) && #[trigger] after.has(s2, i2, j2) && after.resting(s1, i1, j1).key
                    == after.resting(s2, i2, j2).key implies s1 == s2 && i1 == i2 && j1 == j2 by {
                let (a1, b1) = spot_before_rest(fresh, side, i, s1, i1, j1);
                let (a2, b2) = spot_before_rest(fresh, side, i, s2, i2, j2);
                if (s1, i1, j1) == (side, i, j) {
                    if (s2, i2, j2) != (side, i, j) {
                        assert(self.has(s2, a2, b2));
                        assert(self.is_live(key));
                    }
                } else if (s2, i2, j2) == (side, i, j) {
                    assert(self.has(s1, a1, b1));
                    assert(self.is_live(key));
                } else {
                    assert(self.has(s1, a1, b1));
                    assert(self.has(s2, a2, b2));
                }
            }
        }
        // no level of the other side is at the new order's price
        assert forall|b: int| 0 <= b < self.chain(opposite).len() implies !crosses(
            side,
            price,
            (#[trigger] self.chain(opposite)[b]).price,
        ) by {
            if b > 0 {
                assert(better(opposite, self.chain(opposite)[0].price, self.chain(opposite)[b].price));
            }
        }
        assert(after.slots_unique()) by {
            assert forall|s1: Side, i1: int, s2: Side, i2: int|
                #[trigger] after.has_level(s1, i1) && #[trigger] after.has_level(s2, i2) && spec_price_to_index(
                    after.chain(s1)[i1].price,
                ) == spec_price_to_index(after.chain(s2)[i2].price) implies s1 == s2 && i1 == i2 by {
                let (a1, b1) = spot_before_rest(fresh, side, i, s1, i1, 0);
                let (a2, b2) = spot_before_rest(fresh, side, i, s2, i2, 0);
                if fresh && (s1, i1) == (side, i) {
                    if (s2, i2) != (side, i) {
                        assert(self.has_level(s2, a2));
                        if self.chain(s2)[a2].price == price {
                            if s2 == side {
                                assert(has_price(chain, price));
                            } else {
                                assert(crosses(side, price, self.chain(opposite)[a2].price));
                            }
                        } else {
                            assert(self.slot_conflict(price));
                        }
                    }
                } else if fresh && (s2, i2) == (side, i) {
                    assert(self.has_level(s1, a1));
                    if self.chain(s1)[a1].price == price {
                        if s1 == side {
                            assert(has_price(chain, price));
                        } else {
                            assert(crosses(side, price, self.chain(opposite)[a1].price));
                        }
                    } else {
                        assert(self.slot_conflict(price));
                    }
                } else {
                    assert(self.has_level(s1, a1));
                    assert(self.has_level(s2, a2));
                }
            }
        }
        assert(after.no_cross()) by {
            if after.bids.len() > 0 && after.asks.len() > 0 {
                assert(after.has_level(Side::Buy, 0));
                assert(after.has_level(Side::Sell, 0));
                let own0 = spot_before_rest(fresh, side, i, side, 0, 0).0;
                if fresh && i == 0 {
                    assert(!crosses(side, price, self.chain(opposite)[0].price));
                } else {
                    assert(self.has_level(side, own0));
                    assert(own0 == 0);
                }
            }
        }
        assert forall|other: OrderInfo| other != key implies after.is_live(other) == self.is_live(other) by {
            if after.is_live(other) {
                let (s, a, b) = choose|s: Side, a: int, b: int| #[trigger]
                    after.has(s, a, b) && after.resting(s, a, b).key == other;
                let (a0, b0) = spot_before_rest(fresh, side, i, s, a, b);
                assert(self.has(s, a0, b0));
            }
            if self.is_live(other) {
                let (s, a0, b0) = choose|s: Side, a0: int, b0: int| #[trigger]
                    self.has(s, a0, b0) && self.resting(s, a0, b0).key == other;
                let a = if fresh && s == side && a0 >= i { a0 + 1 } else { a0 };
                assert(after.has(s, a, b0));
            }
        }
    }

    /// Once a new order was taken in and matched, the book is well formed
    /// and what is left of the order, if anything, may come to rest.
    pub proof fn lemma_traded_wf(self, key: OrderInfo, side: Side, price: Price, qty: Quantity)
        requires
            self.wf(),
            is_book_side(side),
            !self.refuses(key, price),
        ensures
            self.traded(key, side, price, qty).wf(),
            ({
                let left = run_match(self.chain(side.spec_opposite()), self.taker(key, side, price), qty).remaining;
                left > 0 ==> self.traded(key, side, price, qty).can_rest(
                    side,
                    price,
                    key,
                    self.next_internal_order_id,
                    left,
                )
            }),
            forall|other: OrderInfo| self.traded(key, side, price, qty).is_live(other) ==> self.is_live(other),
    {
        let taker = self.taker(key, side, price);
        let matched = self.matched(taker, qty);
        let traded = self.traded(key, side, price, qty);
        self.lemma_matched_wf(taker, qty);
        assert forall|s: Side, a: int, b: int| traded.has(s, a, b) == matched.has(s, a, b) by {}
        assert forall|s: Side, a: int| traded.has_level(s, a) == matched.has_level(s, a) by {}
        assert(traded.keys_unique()) by {
            assert forall|s1: Side, i1: int, j1: int, s2: Side, i2: int, j2: int|
                #[trigger] traded.has(s1, i1, j1) && #[trigger] traded.has(s2, i2, j2) && traded.resting(
                    s1,
                    i1,
                    j1,
                ).key == traded.resting(s2, i2, j2).key implies s1 == s2 && i1 == i2 && j1 == j2 by {
                assert(matched.has(s1, i1, j1));
                assert(matched.has(s2, i2, j2));
            }
        }
        assert(traded.slots_unique()) by {
            assert forall|s1: Side, i1: int, s2: Side, i2: int|
                #[trigger] traded.has_level(s1, i1) && #[trigger] traded.has_level(s2, i2) && spec_price_to_index(
                    traded.chain(s1)[i1].price,
                ) == spec_price_to_index(traded.chain(s2)[i2].price) implies s1 == s2 && i1 == i2 by {
                assert(matched.has_level(s1, i1));
                assert(matched.has_level(s2, i2));
            }
        }
        assert forall|other: OrderInfo| traded.is_live(other) implies self.is_live(other) by {
            let (s, a, b) = choose|s: Side, a: int, b: int| #[trigger]
                traded.has(s, a, b) && traded.resting(s, a, b).key == other;
            assert(matched.has(s, a, b));
            assert(matched.is_live(other));
        }
        if traded.slot_conflict(price) {
            let (s, a) = choose|s: Side, a: int| #[trigger]
                traded.has_level(s, a) && traded.chain(s)[a].price != price && spec_price_to_index(
                    traded.chain(s)[a].price,
                ) == spec_price_to_index(price);
            assert(matched.has_level(s, a));
            assert(matched.slot_conflict(price));
        }
    }

    /// `add` keeps the book well formed: prices stay ordered along both
    /// chains, priorities stay ordered along every queue, and the best bid
    /// stays below the best ask.
    pub proof fn lemma_add_wf(self, key: OrderInfo, side: Side, price: Price, qty: Quantity)
        requires
            self.wf(),
            is_book_side(side),
        ensures
            self.add(key, side, price, qty).book.wf(),
    {
        if !self.refuses(key, price) {
            let traded = self.traded(key, side, price, qty);
            let left = run_match(self.chain(side.spec_opposite()), self.taker(key, side, price), qty).remaining;
            self.lemma_traded_wf(key, side, price, qty);
            if left > 0 {
                traded.lemma_rested_wf(side, price, key, self.next_internal_order_id, left);
                assert(self.add(key, side, price, qty).book == traded.rested(
                    side,
                    price,
                    key,
                    self.next_internal_order_id,
                    left,
                ));
            } else {
                assert(self.add(key, side, price, qty).book == traded);
            }
        }
    }

    /// `cancel` keeps the book well formed.
    pub proof fn lemma_cancel_wf(self, key: OrderInfo)
        requires
            self.wf(),
        ensures
            self.cancel(key).book.wf(),
    {
        if self.is_live(key) {
            let (side, i, j) = self.locate(key);
            self.lemma_without_wf(side, i, j);
        }
    }

    /// Using up an id keeps the book well formed.
    pub proof fn lemma_with_next_id_wf(self)
        requires
            self.wf(),
            self.next_internal_order_id < INVALID_ORDER_ID,
        ensures
            self.with_next_id().wf(),
    {
        let after = self.with_next_id();
        assert forall|s: Side, a: int, b: int| after.has(s, a, b) == self.has(s, a, b) by {}
        assert forall|s: Side, a: int| after.has_level(s, a) == self.has_level(s, a) by {}
        assert(after.keys_unique()) by {
            assert forall|s1: Side, i1: int, j1: int, s2: Side, i2: int, j2: int|
                #[trigger] after.has(s1, i1, j1) && #[trigger] after.has(s2, i2, j2) && after.resting(s1, i1, j1).key
                    == after.resting(s2, i2, j2).key implies s1 == s2 && i1 == i2 && j1 == j2 by {
                assert(self.has(s1, i1, j1));
                assert(self.has(s2, i2, j2));
            }
        }
        assert(after.slots_unique()) by {
            assert forall|s1: Side, i1: int, s2: Side, i2: int|
                #[trigger] after.has_level(s1, i1) && #[trigger] after.has_level(s2, i2) && spec_price_to_index(
                    after.chain(s1)[i1].price,
                ) == spec_price_to_index(after.chain(s2)[i2].price) implies s1 == s2 && i1 == i2 by {
                assert(self.has_level(s1, i1));
                assert(self.has_level(s2, i2));
            }
        }
    }

    /// When the other side is empty or its best price is beyond `price`,
    /// the next priority at `price` is that of the level of `side` there.
    pub proof fn lemma_next_priority(self, side: Side, price: Price)
        requires
            self.wf(),
            is_book_side(side),
            self.chain(side.spec_opposite()).len() == 0 || !crosses(
                side,
                price,
                self.chain(side.spec_opposite())[0].price,
            ),
        ensures
            self.next_priority(price) == next_priority_in(self.chain(side), price),
            !has_price(self.chain(side.spec_opposite()), price),
    {
        let opposite = self.chain(side.spec_opposite());
        if has_price(opposite, price) {
            let b = level_index(opposite, price);
            if b > 0 {
                assert(better(side.spec_opposite(), opposite[0].price, opposite[b].price));
            }
        }
    }

    /// `add` leaves the book's symbol alone.
    pub proof fn lemma_add_symbol(self, key: OrderInfo, side: Side, price: Price, qty: Quantity)
        ensures
            self.add(key, side, price, qty).book.symbol_id == self.symbol_id,
    {
    }
}

} // verus!
