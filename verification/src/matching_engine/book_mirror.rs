//! How the records of a book spell out its model.
//!
//! The level table and the order table hold linked records; this file
//! says which tables mirror which model, and proves for each way the
//! links are rewired that the tables then mirror the model as changed.

use vstd::prelude::*;
use crate::common::{SymbolId, Side, Price, Quantity, MAX_PRICE_LEVELS};
use crate::matching_engine::order::{Order, OrderAtPrice, OrderInfo};
use crate::matching_engine::arena::{spec_price_to_index, lemma_slot_in_range};
use crate::matching_engine::book_model::{BookModel, Level, Resting, is_book_side, has_price, level_index};

verus! {

/// The place before `i` in a ring of `n` places.
pub open spec fn ring_prev(i: int, n: int) -> int {
    if i == 0 {
        n - 1
    } else {
        i - 1
    }
}

/// The place behind `i` in a ring of `n` places.
pub open spec fn ring_next(i: int, n: int) -> int {
    if i + 1 == n {
        0
    } else {
        i + 1
    }
}

/// The record that stands for level `i` of `chain` in the level table.
pub open spec fn level_record(chain: Seq<Level>, side: Side, i: int) -> OrderAtPrice {
    OrderAtPrice {
        side,
        price: chain[i].price,
        head_order_info: chain[i].queue[0].key,
        prev_idx: spec_price_to_index(chain[ring_prev(i, chain.len() as int)].price),
        next_idx: spec_price_to_index(chain[ring_next(i, chain.len() as int)].price),
    }
}

/// The record that stands for the order at place `j` of `level` in the
/// order table.
pub open spec fn order_record(symbol_id: SymbolId, side: Side, level: Level, j: int) -> Order {
    Order {
        symbol_id,
        order_info: level.queue[j].key,
        internal_order_id: level.queue[j].internal_order_id,
        side,
        price: level.price,
        qty: level.queue[j].qty,
        priority: level.queue[j].priority,
        prev_order_info: level.queue[ring_prev(j, level.queue.len() as int)].key,
        next_order_info: level.queue[ring_next(j, level.queue.len() as int)].key,
    }
}

/// The slot of the best level of `chain`, or `MAX_PRICE_LEVELS` when the
/// chain is empty.
pub open spec fn best_slot(chain: Seq<Level>) -> usize {
    if chain.len() == 0 {
        MAX_PRICE_LEVELS
    } else {
        spec_price_to_index(chain[0].price)
    }
}

/// The record of the order that `key` names in `book`, if it is live.
pub open spec fn order_of_key(book: BookModel, key: OrderInfo) -> Option<Order> {
    if book.is_live(key) {
        let (side, i, j) = book.locate(key);
        Some(order_record(book.symbol_id, side, book.chain(side)[i], j))
    } else {
        None
    }
}

/// The record of the level at `price` in `book`, if there is one.
pub open spec fn level_of_price(book: BookModel, price: Price) -> Option<OrderAtPrice> {
    if has_price(book.bids, price) {
        Some(level_record(book.bids, Side::Buy, level_index(book.bids, price)))
    } else if has_price(book.asks, price) {
        Some(level_record(book.asks, Side::Sell, level_index(book.asks, price)))
    } else {
        None
    }
}

/// The records of the orders resting at `price` in `book`, oldest first.
pub open spec fn queue_records(book: BookModel, price: Price) -> Seq<Order> {
    if has_price(book.bids, price) {
        let level = book.bids[level_index(book.bids, price)];
        Seq::new(level.queue.len(), |j: int| order_record(book.symbol_id, Side::Buy, level, j))
    } else if has_price(book.asks, price) {
        let level = book.asks[level_index(book.asks, price)];
        Seq::new(level.queue.len(), |j: int| order_record(book.symbol_id, Side::Sell, level, j))
    } else {
        Seq::empty()
    }
}

/// Whether the level table `levels` spells out the chains of `book`.
pub open spec fn levels_mirror(levels: Seq<Option<OrderAtPrice>>, book: BookModel) -> bool {
    &&& levels.len() == MAX_PRICE_LEVELS
    &&& forall|s: Side, i: int| #[trigger]
        book.has_level(s, i) ==> spec_price_to_index(book.chain(s)[i].price) < MAX_PRICE_LEVELS && levels[spec_price_to_index(
            book.chain(s)[i].price,
        ) as int] == Some(level_record(book.chain(s), s, i))
    &&& forall|x: int|
        0 <= x < levels.len() && (#[trigger] levels[x]).is_some() ==> exists|s: Side, i: int| #[trigger]
            book.has_level(s, i) && spec_price_to_index(book.chain(s)[i].price) == x
}

/// Whether the order table `orders` spells out the queues of `book`.
pub open spec fn orders_mirror(orders: Map<OrderInfo, Order>, book: BookModel) -> bool {
    &&& forall|s: Side, i: int, j: int| #[trigger]
        book.has(s, i, j) ==> orders.contains_key(book.resting(s, i, j).key) && orders[book.resting(s, i, j).key]
            == order_record(book.symbol_id, s, book.chain(s)[i], j)
    &&& forall|key: OrderInfo| #[trigger] orders.contains_key(key) ==> book.is_live(key)
}

/// The level table `levels` once `new_level` is linked in before the
/// level in slot `next_slot`.
pub open spec fn spliced_in(levels: Seq<Option<OrderAtPrice>>, next_slot: usize, new_level: OrderAtPrice) -> Seq<
    Option<OrderAtPrice>,
> {
    let slot = spec_price_to_index(new_level.price);
    let next = levels[next_slot as int].unwrap();
    let prev_slot = next.prev_idx;
    let with_new = levels.update(
        slot as int,
        Some(OrderAtPrice { prev_idx: prev_slot, next_idx: next_slot, ..new_level }),
    );
    let with_next = with_new.update(next_slot as int, Some(OrderAtPrice { prev_idx: slot, ..next }));
    let prev = with_next[prev_slot as int].unwrap();
    with_next.update(prev_slot as int, Some(OrderAtPrice { next_idx: slot, ..prev }))
}

/// A level table that mirrors a book whose `side` is empty mirrors the
/// book with a first level on that side once the level's record, linked
/// to itself, is in its slot.
pub proof fn lemma_ring_open(levels: Seq<Option<OrderAtPrice>>, m: BookModel, side: Side, new_level: OrderAtPrice, first: Resting)
    requires
        levels_mirror(levels, m),
        is_book_side(side),
        side == new_level.side,
        new_level.head_order_info == first.key,
        m.chain(side).len() == 0,
        levels[spec_price_to_index(new_level.price) as int].is_none(),
    ensures
        levels_mirror(
            levels.update(
                spec_price_to_index(new_level.price) as int,
                Some(
                    OrderAtPrice {
                        prev_idx: spec_price_to_index(new_level.price),
                        next_idx: spec_price_to_index(new_level.price),
                        ..new_level
                    },
                ),
            ),
            m.with_chain(side, m.chain(side).insert(0, Level { price: new_level.price, queue: seq![first] })),
        ),
{
    let slot = spec_price_to_index(new_level.price);
    let after = m.with_chain(side, m.chain(side).insert(0, Level { price: new_level.price, queue: seq![first] }));
    let levels2 = levels.update(slot as int, Some(OrderAtPrice { prev_idx: slot, next_idx: slot, ..new_level }));
    lemma_slot_in_range(new_level.price);
    assert forall|s: Side, i: int| #[trigger] after.has_level(s, i) implies spec_price_to_index(
        after.chain(s)[i].price,
    ) < MAX_PRICE_LEVELS && levels2[spec_price_to_index(after.chain(s)[i].price) as int] == Some(
        level_record(after.chain(s), s, i),
    ) by {
        if s != side {
            assert(m.has_level(s, i));
        }
    }
    assert forall|x: int| 0 <= x < levels2.len() && (#[trigger] levels2[x]).is_some() implies exists|s: Side, i: int| #[trigger]
        after.has_level(s, i) && spec_price_to_index(after.chain(s)[i].price) == x by {
        if x == slot {
            assert(after.has_level(side, 0));
        } else {
            assert(levels[x].is_some());
            let (s, i) = choose|s: Side, i: int| #[trigger]
                m.has_level(s, i) && spec_price_to_index(m.chain(s)[i].price) == x;
            assert(after.has_level(s, i));
        }
    }
}

/// A level table that mirrors a book mirrors the book with a new level at
/// place `k` of `side` once the level's record is linked in before the
/// record of the level that was at place `k` (of the best level, when the
/// new level is the worst).
pub proof fn lemma_ring_insert(
    levels: Seq<Option<OrderAtPrice>>,
    m: BookModel,
    side: Side,
    new_level: OrderAtPrice,
    first: Resting,
    k: int,
)
    requires
        m.slots_unique(),
        levels_mirror(levels, m),
        is_book_side(side),
        side == new_level.side,
        new_level.head_order_info == first.key,
        m.chain(side).len() > 0,
        0 <= k <= m.chain(side).len(),
        levels[spec_price_to_index(new_level.price) as int].is_none(),
    ensures
        levels_mirror(
            spliced_in(
                levels,
                spec_price_to_index(m.chain(side)[if k == m.chain(side).len() { 0int } else { k }].price),
                new_level,
            ),
            m.with_chain(side, m.chain(side).insert(k, Level { price: new_level.price, queue: seq![first] })),
        ),
{
    let chain = m.chain(side);
    let n = chain.len() as int;
    let fresh = Level { price: new_level.price, queue: seq![first] };
    let after = m.with_chain(side, chain.insert(k, fresh));
    let chain2 = after.chain(side);
    let slot = spec_price_to_index(new_level.price);
    let k0 = if k == n { 0 } else { k };
    let kp = ring_prev(k0, n);
    let next_slot = spec_price_to_index(chain[k0].price);
    let prev_slot = spec_price_to_index(chain[kp].price);
    let levels2 = spliced_in(levels, next_slot, new_level);
    lemma_slot_in_range(new_level.price);
    assert(m.has_level(side, k0));
    assert(m.has_level(side, kp));
    assert(levels[next_slot as int] == Some(level_record(chain, side, k0)));
    assert(levels[prev_slot as int] == Some(level_record(chain, side, kp)));
    assert(chain2 == chain.insert(k, fresh));
    assert(chain2.len() == n + 1);
    assert forall|x: int| 0 <= x < levels2.len() implies #[trigger] levels2[x] == (if x == slot {
        Some(OrderAtPrice { prev_idx: prev_slot, next_idx: next_slot, ..new_level })
    } else if x == next_slot && x == prev_slot {
        Some(OrderAtPrice { prev_idx: slot, next_idx: slot, ..levels[x].unwrap() })
    } else if x == next_slot {
        Some(OrderAtPrice { prev_idx: slot, ..levels[x].unwrap() })
    } else if x == prev_slot {
        Some(OrderAtPrice { next_idx: slot, ..levels[x].unwrap() })
    } else {
        levels[x]
    }) by {}
    assert forall|s: Side, i: int| #[trigger] after.has_level(s, i) implies spec_price_to_index(
        after.chain(s)[i].price,
    ) < MAX_PRICE_LEVELS && levels2[spec_price_to_index(after.chain(s)[i].price) as int] == Some(
        level_record(after.chain(s), s, i),
    ) by {
        if s != side {
            assert(m.has_level(s, i));
            assert(after.chain(s) == m.chain(s));
        } else if i == k {
            assert(chain2[i] == fresh);
            let a = ring_prev(i, n + 1);
            let b = ring_next(i, n + 1);
            assert(chain2[a] == chain[kp]);
            assert(chain2[b] == chain[k0]);
        } else {
            let i0 = if i < k { i } else { i - 1 };
            assert(m.has_level(side, i0));
            assert(chain2[i] == chain[i0]);
            assert(levels[spec_price_to_index(chain[i0].price) as int] == Some(level_record(chain, side, i0)));
            let a = ring_prev(i, n + 1);
            let b = ring_next(i, n + 1);
            let a0 = ring_prev(i0, n);
            let b0 = ring_next(i0, n);
            assert(m.has_level(side, a0));
            assert(m.has_level(side, b0));
            if a != k {
                assert(chain2[a] == chain[a0]);
            }
            if b != k {
                assert(chain2[b] == chain[b0]);
            }
            assert(a == k <==> i0 == k0);
            assert(b == k <==> i0 == kp);
            assert(i0 != k0 ==> spec_price_to_index(chain[i0].price) != next_slot);
            assert(i0 != kp ==> spec_price_to_index(chain[i0].price) != prev_slot);
        }
    }
    assert forall|x: int| 0 <= x < levels2.len() && (#[trigger] levels2[x]).is_some() implies exists|s: Side, i: int| #[trigger]
        after.has_level(s, i) && spec_price_to_index(after.chain(s)[i].price) == x by {
        if x == slot {
            assert(after.has_level(side, k));
            assert(chain2[k] == fresh);
        } else {
            assert(levels[x].is_some());
            let (s, i) = choose|s: Side, i: int| #[trigger]
                m.has_level(s, i) && spec_price_to_index(m.chain(s)[i].price) == x;
            let i2 = if s == side && i >= k { i + 1 } else { i };
            assert(after.has_level(s, i2));
            if s == side {
                assert(chain2[i2] == chain[i]);
            }
        }
    }
}

/// The unlinked record of the order `r` resting on `side` at `price`.
pub open spec fn loose_order(symbol_id: SymbolId, side: Side, price: Price, r: Resting) -> Order {
    Order {
        symbol_id,
        order_info: r.key,
        internal_order_id: r.internal_order_id,
        side,
        price,
        qty: r.qty,
        priority: r.priority,
        prev_order_info: OrderInfo::spec_default(),
        next_order_info: OrderInfo::spec_default(),
    }
}

/// The order table `orders` once `order` is linked in behind the last
/// order of the queue whose head `head_key` names.
pub open spec fn pushed(orders: Map<OrderInfo, Order>, head_key: OrderInfo, order: Order) -> Map<OrderInfo, Order> {
    let last_key = orders[head_key].prev_order_info;
    let with_new = orders.insert(
        order.order_info,
        Order { prev_order_info: last_key, next_order_info: head_key, ..order },
    );
    let with_last = with_new.insert(last_key, Order { next_order_info: order.order_info, ..with_new[last_key] });
    with_last.insert(head_key, Order { prev_order_info: order.order_info, ..with_last[head_key] })
}

/// An order table that mirrors a book mirrors the book with a new level
/// of one order once that order's record, linked to itself, is stored.
pub proof fn lemma_orders_open(orders: Map<OrderInfo, Order>, m: BookModel, side: Side, k: int, price: Price, r: Resting)
    requires
        orders_mirror(orders, m),
        is_book_side(side),
        0 <= k <= m.chain(side).len(),
        !m.is_live(r.key),
    ensures
        orders_mirror(
            orders.insert(
                r.key,
                Order { prev_order_info: r.key, next_order_info: r.key, ..loose_order(m.symbol_id, side, price, r) },
            ),
            m.with_chain(side, m.chain(side).insert(k, Level { price, queue: seq![r] })),
        ),
{
    let chain = m.chain(side);
    let after = m.with_chain(side, chain.insert(k, Level { price, queue: seq![r] }));
    let record = Order { prev_order_info: r.key, next_order_info: r.key, ..loose_order(m.symbol_id, side, price, r) };
    let orders2 = orders.insert(r.key, record);
    assert forall|s: Side, i: int, j: int| #[trigger] after.has(s, i, j) implies orders2.contains_key(
        after.resting(s, i, j).key,
    ) && orders2[after.resting(s, i, j).key] == order_record(after.symbol_id, s, after.chain(s)[i], j) by {
        if s == side && i == k {
        } else {
            let i0 = if s == side && i > k { i - 1 } else { i };
            assert(m.has(s, i0, j));
            assert(after.chain(s)[i] == m.chain(s)[i0]);
            assert(m.is_live(m.resting(s, i0, j).key));
        }
    }
    assert forall|key: OrderInfo| #[trigger] orders2.contains_key(key) implies after.is_live(key) by {
        if key == r.key {
            assert(after.has(side, k, 0));
        } else {
            assert(m.is_live(key));
            let (s, i0, j) = choose|s: Side, i0: int, j: int| #[trigger] m.has(s, i0, j) && m.resting(s, i0, j).key == key;
            let i = if s == side && i0 >= k { i0 + 1 } else { i0 };
            assert(after.has(s, i, j));
            assert(after.chain(s)[i] == m.chain(s)[i0]);
        }
    }
}

/// The order that the record `order` stands for.
pub open spec fn resting_of(order: Order) -> Resting {
    Resting {
        key: order.order_info,
        internal_order_id: order.internal_order_id,
        qty: order.qty,
        priority: order.priority,
    }
}

/// An order table that mirrors a book mirrors the book with a new order
/// at the tail of level `i` of `side` once that order's record is linked
/// in behind the level's last order.
pub proof fn lemma_orders_push(orders: Map<OrderInfo, Order>, m: BookModel, side: Side, i: int, order: Order)
    requires
        orders_mirror(orders, m),
        m.keys_unique(),
        m.has_level(side, i),
        m.chain(side)[i].queue.len() > 0,
        !m.is_live(order.order_info),
        order.symbol_id == m.symbol_id,
        order.side == side,
        order.price == m.chain(side)[i].price,
    ensures
        orders_mirror(
            pushed(orders, m.chain(side)[i].queue[0].key, order),
            m.with_chain(
                side,
                m.chain(side).update(
                    i,
                    Level { price: m.chain(side)[i].price, queue: m.chain(side)[i].queue.push(resting_of(order)) },
                ),
            ),
        ),
{
    let chain = m.chain(side);
    let r = resting_of(order);
    let q = chain[i].queue;
    let n = q.len() as int;
    let q2 = q.push(r);
    let level2 = Level { price: chain[i].price, queue: q2 };
    let after = m.with_chain(side, chain.update(i, level2));
    let head_key = q[0].key;
    let last_key = q[n - 1].key;
    let orders2 = pushed(orders, head_key, order);
    assert(m.has(side, i, 0));
    assert(m.has(side, i, n - 1));
    assert(m.is_live(head_key));
    assert(m.is_live(last_key));
    assert(orders[head_key] == order_record(m.symbol_id, side, chain[i], 0));
    assert(orders[last_key] == order_record(m.symbol_id, side, chain[i], n - 1));
    assert(orders[head_key].prev_order_info == last_key);
    assert(n > 1 ==> head_key != last_key) by {
        if n > 1 && head_key == last_key {
            assert(m.resting(side, i, 0).key == m.resting(side, i, n - 1).key);
        }
    }
    assert forall|key: OrderInfo|
        orders2.contains_key(key) == (orders.contains_key(key) || key == r.key) && #[trigger] orders2[key] == (if key
            == r.key {
            Order { prev_order_info: last_key, next_order_info: head_key, ..order }
        } else if key == head_key && key == last_key {
            Order { prev_order_info: r.key, next_order_info: r.key, ..orders[key] }
        } else if key == last_key {
            Order { next_order_info: r.key, ..orders[key] }
        } else if key == head_key {
            Order { prev_order_info: r.key, ..orders[key] }
        } else {
            orders[key]
        }) by {}
    assert forall|s: Side, a: int, b: int| #[trigger] after.has(s, a, b) implies orders2.contains_key(
        after.resting(s, a, b).key,
    ) && orders2[after.resting(s, a, b).key] == order_record(after.symbol_id, s, after.chain(s)[a], b) by {
        if s == side && a == i {
            if b == n {
                assert(q2[b] == r);
                assert(q2[ring_prev(b, n + 1)] == q[n - 1]);
                assert(q2[ring_next(b, n + 1)] == q[0]);
            } else {
                assert(m.has(side, i, b));
                assert(q2[b] == q[b]);
                let key = q[b].key;
                assert(m.is_live(key));
                assert(orders[key] == order_record(m.symbol_id, side, chain[i], b));
                assert(key == head_key <==> b == 0) by {
                    if key == head_key {
                        assert(m.resting(side, i, b).key == m.resting(side, i, 0).key);
                    }
                }
                assert(key == last_key <==> b == n - 1) by {
                    if key == last_key {
                        assert(m.resting(side, i, b).key == m.resting(side, i, n - 1).key);
                    }
                }
                if b > 0 {
                    assert(q2[ring_prev(b, n + 1)] == q[ring_prev(b, n)]);
                }
                if b < n - 1 {
                    assert(q2[ring_next(b, n + 1)] == q[ring_next(b, n)]);
                }
            }
        } else {
            assert(m.has(s, a, b));
            assert(after.chain(s)[a] == m.chain(s)[a]);
            let key = m.resting(s, a, b).key;
            assert(m.is_live(key));
            assert(key != head_key) by {
                if key == head_key {
                    assert(m.resting(s, a, b).key == m.resting(side, i, 0).key);
                }
            }
            assert(key != last_key) by {
                if key == last_key {
                    assert(m.resting(s, a, b).key == m.resting(side, i, n - 1).key);
                }
            }
        }
    }
    assert forall|key: OrderInfo| #[trigger] orders2.contains_key(key) implies after.is_live(key) by {
        if key == r.key {
            assert(after.has(side, i, n));
            assert(q2[n] == r);
        } else {
            assert(m.is_live(key));
            let (s, a, b) = choose|s: Side, a: int, b: int| #[trigger] m.has(s, a, b) && m.resting(s, a, b).key == key;
            assert(after.has(s, a, b));
            if s == side && a == i {
                assert(q2[b] == q[b]);
            } else {
                assert(after.chain(s)[a] == m.chain(s)[a]);
            }
        }
    }
}

/// A level table that mirrors a book mirrors the book with a new order
/// at the tail of a queue.
pub proof fn lemma_levels_push(levels: Seq<Option<OrderAtPrice>>, m: BookModel, side: Side, i: int, r: Resting)
    requires
        levels_mirror(levels, m),
        m.has_level(side, i),
        m.chain(side)[i].queue.len() > 0,
    ensures
        levels_mirror(
            levels,
            m.with_chain(
                side,
                m.chain(side).update(i, Level { price: m.chain(side)[i].price, queue: m.chain(side)[i].queue.push(r) }),
            ),
        ),
{
    let chain = m.chain(side);
    let after = m.with_chain(side, chain.update(i, Level { price: chain[i].price, queue: chain[i].queue.push(r) }));
    assert forall|s: Side, a: int| #[trigger] after.has_level(s, a) implies spec_price_to_index(
        after.chain(s)[a].price,
    ) < MAX_PRICE_LEVELS && levels[spec_price_to_index(after.chain(s)[a].price) as int] == Some(
        level_record(after.chain(s), s, a),
    ) by {
        assert(m.has_level(s, a));
        let n = m.chain(s).len() as int;
        assert(after.chain(s)[a].price == m.chain(s)[a].price);
        assert(after.chain(s)[ring_prev(a, n)].price == m.chain(s)[ring_prev(a, n)].price);
        assert(after.chain(s)[ring_next(a, n)].price == m.chain(s)[ring_next(a, n)].price);
        assert(after.chain(s)[a].queue[0] == m.chain(s)[a].queue[0]);
    }
    assert forall|x: int| 0 <= x < levels.len() && (#[trigger] levels[x]).is_some() implies exists|s: Side, a: int| #[trigger]
        after.has_level(s, a) && spec_price_to_index(after.chain(s)[a].price) == x by {
        let (s, a) = choose|s: Side, a: int| #[trigger]
            m.has_level(s, a) && spec_price_to_index(m.chain(s)[a].price) == x;
        assert(after.has_level(s, a));
    }
}

/// The level table `levels` once the level in `slot` is linked out of its
/// ring and its slot is free.
pub open spec fn spliced_out(levels: Seq<Option<OrderAtPrice>>, slot: usize) -> Seq<Option<OrderAtPrice>> {
    let level = levels[slot as int].unwrap();
    if level.next_idx == slot {
        levels.update(slot as int, None)
    } else {
        let with_prev = levels.update(
            level.prev_idx as int,
            Some(OrderAtPrice { next_idx: level.next_idx, ..levels[level.prev_idx as int].unwrap() }),
        );
        let with_next = with_prev.update(
            level.next_idx as int,
            Some(OrderAtPrice { prev_idx: level.prev_idx, ..with_prev[level.next_idx as int].unwrap() }),
        );
        with_next.update(slot as int, None)
    }
}

/// The order table `orders` once the order that `key` names is linked out
/// of its queue and gone.
pub open spec fn unlinked(orders: Map<OrderInfo, Order>, key: OrderInfo) -> Map<OrderInfo, Order> {
    let order = orders[key];
    let with_prev = orders.insert(
        order.prev_order_info,
        Order { next_order_info: order.next_order_info, ..orders[order.prev_order_info] },
    );
    let with_next = with_prev.insert(
        order.next_order_info,
        Order { prev_order_info: order.prev_order_info, ..with_prev[order.next_order_info] },
    );
    with_next.remove(key)
}

/// The level table `levels` once the level at `price` has `next` for its
/// head in place of `gone`, if `gone` was its head.
pub open spec fn rehead(levels: Seq<Option<OrderAtPrice>>, price: Price, gone: OrderInfo, next: OrderInfo) -> Seq<
    Option<OrderAtPrice>,
> {
    let slot = spec_price_to_index(price) as int;
    let level = levels[slot].unwrap();
    if level.head_order_info == gone {
        levels.update(slot, Some(OrderAtPrice { head_order_info: next, ..level }))
    } else {
        levels
    }
}

/// A level table that mirrors a book mirrors the book without level `i`
/// of `side` once that level's record is linked out of its ring.
pub proof fn lemma_ring_remove(levels: Seq<Option<OrderAtPrice>>, m: BookModel, side: Side, i: int)
    requires
        m.slots_unique(),
        levels_mirror(levels, m),
        m.has_level(side, i),
    ensures
        levels_mirror(
            spliced_out(levels, spec_price_to_index(m.chain(side)[i].price)),
            m.with_chain(side, m.chain(side).remove(i)),
        ),
        (spec_price_to_index(m.chain(side)[i].price) == spec_price_to_index(m.chain(side)[0].price)) <==> i == 0,
        levels[spec_price_to_index(m.chain(side)[i].price) as int].unwrap().next_idx == spec_price_to_index(
            m.chain(side)[i].price,
        ) <==> m.chain(side).len() == 1,
{
    let chain = m.chain(side);
    let n = chain.len() as int;
    let after = m.with_chain(side, chain.remove(i));
    let chain2 = after.chain(side);
    let slot = spec_price_to_index(chain[i].price);
    let ip = ring_prev(i, n);
    let inx = ring_next(i, n);
    let prev_slot = spec_price_to_index(chain[ip].price);
    let next_slot = spec_price_to_index(chain[inx].price);
    let levels2 = spliced_out(levels, slot);
    assert(m.has_level(side, 0));
    assert(m.has_level(side, ip));
    assert(m.has_level(side, inx));
    assert(levels[slot as int] == Some(level_record(chain, side, i)));
    assert(chain2 == chain.remove(i));
    assert(chain2.len() == n - 1);
    assert forall|x: int| 0 <= x < levels2.len() implies #[trigger] levels2[x] == (if x == slot {
        None
    } else if x == next_slot && x == prev_slot {
        Some(OrderAtPrice { prev_idx: prev_slot, next_idx: next_slot, ..levels[x].unwrap() })
    } else if x == next_slot {
        Some(OrderAtPrice { prev_idx: prev_slot, ..levels[x].unwrap() })
    } else if x == prev_slot {
        Some(OrderAtPrice { next_idx: next_slot, ..levels[x].unwrap() })
    } else {
        levels[x]
    }) by {}
    assert forall|s: Side, a: int| #[trigger] after.has_level(s, a) implies spec_price_to_index(
        after.chain(s)[a].price,
    ) < MAX_PRICE_LEVELS && levels2[spec_price_to_index(after.chain(s)[a].price) as int] == Some(
        level_record(after.chain(s), s, a),
    ) by {
        if s != side {
            assert(m.has_level(s, a));
            assert(after.chain(s) == m.chain(s));
        } else {
            let a0 = if a < i { a } else { a + 1 };
            assert(m.has_level(side, a0));
            assert(chain2[a] == chain[a0]);
            let p = ring_prev(a, n - 1);
            let x = ring_next(a, n - 1);
            let pb = ring_prev(a0, n);
            let x0 = ring_next(a0, n);
            assert(m.has_level(side, pb));
            assert(m.has_level(side, x0));
            let pm = if p < i { p } else { p + 1 };
            let xm = if x < i { x } else { x + 1 };
            assert(chain2[p] == chain[pm]);
            assert(chain2[x] == chain[xm]);
            assert(pb == i <==> a0 == inx);
            assert(x0 == i <==> a0 == ip);
            assert(a0 != inx ==> spec_price_to_index(chain[a0].price) != next_slot);
            assert(a0 != ip ==> spec_price_to_index(chain[a0].price) != prev_slot);
            if pb == i {
                assert(pm == ip);
            } else {
                assert(pm == pb);
            }
            if x0 == i {
                assert(xm == inx);
            } else {
                assert(xm == x0);
            }
        }
    }
    assert forall|x: int| 0 <= x < levels2.len() && (#[trigger] levels2[x]).is_some() implies exists|s: Side, a: int| #[trigger]
        after.has_level(s, a) && spec_price_to_index(after.chain(s)[a].price) == x by {
        assert(levels[x].is_some());
        let (s, a0) = choose|s: Side, a0: int| #[trigger]
            m.has_level(s, a0) && spec_price_to_index(m.chain(s)[a0].price) == x;
        let a = if s == side && a0 > i { a0 - 1 } else { a0 };
        assert(after.has_level(s, a));
        if s == side {
            assert(chain2[a] == chain[a0]);
        }
    }
}

/// An order table that mirrors a book mirrors the book without level `i`
/// of `side`, which held one order, once that order's record is gone.
pub proof fn lemma_orders_close(orders: Map<OrderInfo, Order>, m: BookModel, side: Side, i: int)
    requires
        orders_mirror(orders, m),
        m.keys_unique(),
        m.has_level(side, i),
        m.chain(side)[i].queue.len() == 1,
    ensures
        orders_mirror(orders.remove(m.chain(side)[i].queue[0].key), m.with_chain(side, m.chain(side).remove(i))),
{
    let chain = m.chain(side);
    let key = chain[i].queue[0].key;
    let after = m.with_chain(side, chain.remove(i));
    let orders2 = orders.remove(key);
    assert(m.has(side, i, 0));
    assert forall|s: Side, a: int, b: int| #[trigger] after.has(s, a, b) implies orders2.contains_key(
        after.resting(s, a, b).key,
    ) && orders2[after.resting(s, a, b).key] == order_record(after.symbol_id, s, after.chain(s)[a], b) by {
        let a0 = if s == side && a >= i { a + 1 } else { a };
        assert(m.has(s, a0, b));
        assert(after.chain(s)[a] == m.chain(s)[a0]);
        if m.resting(s, a0, b).key == key {
            assert(m.resting(s, a0, b).key == m.resting(side, i, 0).key);
        }
    }
    assert forall|k: OrderInfo| #[trigger] orders2.contains_key(k) implies after.is_live(k) by {
        assert(m.is_live(k));
        let (s, a0, b) = choose|s: Side, a0: int, b: int| #[trigger] m.has(s, a0, b) && m.resting(s, a0, b).key == k;
        let a = if s == side && a0 > i { a0 - 1 } else { a0 };
        assert(after.has(s, a, b));
        assert(after.chain(s)[a] == m.chain(s)[a0]);
    }
}

/// An order table that mirrors a book mirrors the book without the
/// order at place `j` of level `i` of `side`, which held more orders,
/// once that order's record is linked out of its queue and gone.
pub proof fn lemma_orders_unlink(orders: Map<OrderInfo, Order>, m: BookModel, side: Side, i: int, j: int)
    requires
        orders_mirror(orders, m),
        m.keys_unique(),
        m.has(side, i, j),
        m.chain(side)[i].queue.len() > 1,
    ensures
        orders_mirror(
            unlinked(orders, m.chain(side)[i].queue[j].key),
            m.with_chain(
                side,
                m.chain(side).update(i, Level { price: m.chain(side)[i].price, queue: m.chain(side)[i].queue.remove(j) }),
            ),
        ),
{
    let chain = m.chain(side);
    let q = chain[i].queue;
    let n = q.len() as int;
    let q2 = q.remove(j);
    let after = m.with_chain(side, chain.update(i, Level { price: chain[i].price, queue: q2 }));
    let key = q[j].key;
    let jp = ring_prev(j, n);
    let jn = ring_next(j, n);
    let prev_key = q[jp].key;
    let next_key = q[jn].key;
    let orders2 = unlinked(orders, key);
    assert(m.has(side, i, jp));
    assert(m.has(side, i, jn));
    assert(m.is_live(key));
    assert(m.is_live(prev_key));
    assert(m.is_live(next_key));
    assert(orders[key] == order_record(m.symbol_id, side, chain[i], j));
    assert(prev_key != key) by {
        if prev_key == key {
            assert(m.resting(side, i, jp).key == m.resting(side, i, j).key);
        }
    }
    assert(next_key != key) by {
        if next_key == key {
            assert(m.resting(side, i, jn).key == m.resting(side, i, j).key);
        }
    }
    assert(prev_key == next_key <==> jp == jn) by {
        if prev_key == next_key {
            assert(m.resting(side, i, jp).key == m.resting(side, i, jn).key);
        }
    }
    assert forall|k: OrderInfo|
        orders2.contains_key(k) == (orders.contains_key(k) && k != key) && (k != key ==> #[trigger] orders2[k] == (if k
            == prev_key && k == next_key {
            Order { prev_order_info: prev_key, next_order_info: next_key, ..orders[k] }
        } else if k == prev_key {
            Order { next_order_info: next_key, ..orders[k] }
        } else if k == next_key {
            Order { prev_order_info: prev_key, ..orders[k] }
        } else {
            orders[k]
        })) by {}
    assert forall|s: Side, a: int, b: int| #[trigger] after.has(s, a, b) implies orders2.contains_key(
        after.resting(s, a, b).key,
    ) && orders2[after.resting(s, a, b).key] == order_record(after.symbol_id, s, after.chain(s)[a], b) by {
        if s == side && a == i {
            let b0 = if b < j { b } else { b + 1 };
            assert(m.has(side, i, b0));
            assert(q2[b] == q[b0]);
            let k = q[b0].key;
            assert(m.is_live(k));
            assert(orders[k] == order_record(m.symbol_id, side, chain[i], b0));
            assert(k != key) by {
                if k == key {
                    assert(m.resting(side, i, b0).key == m.resting(side, i, j).key);
                }
            }
            assert(k == prev_key <==> b0 == jp) by {
                if k == prev_key {
                    assert(m.resting(side, i, b0).key == m.resting(side, i, jp).key);
                }
            }
            assert(k == next_key <==> b0 == jn) by {
                if k == next_key {
                    assert(m.resting(side, i, b0).key == m.resting(side, i, jn).key);
                }
            }
            let p = ring_prev(b, n - 1);
            let x = ring_next(b, n - 1);
            let pm = if p < j { p } else { p + 1 };
            let xm = if x < j { x } else { x + 1 };
            assert(q2[p] == q[pm]);
            assert(q2[x] == q[xm]);
            let pb = ring_prev(b0, n);
            let x0 = ring_next(b0, n);
            assert(pb == j <==> b0 == jn);
            assert(x0 == j <==> b0 == jp);
            if pb == j {
                assert(pm == jp);
            } else {
                assert(pm == pb);
            }
            if x0 == j {
                assert(xm == jn);
            } else {
                assert(xm == x0);
            }
        } else {
            assert(m.has(s, a, b));
            assert(after.chain(s)[a] == m.chain(s)[a]);
            let k = m.resting(s, a, b).key;
            assert(m.is_live(k));
            if k == key {
                assert(m.resting(s, a, b).key == m.resting(side, i, j).key);
            }
            if k == prev_key {
                assert(m.resting(s, a, b).key == m.resting(side, i, jp).key);
            }
            if k == next_key {
                assert(m.resting(s, a, b).key == m.resting(side, i, jn).key);
            }
        }
    }
    assert forall|k: OrderInfo| #[trigger] orders2.contains_key(k) implies after.is_live(k) by {
        assert(m.is_live(k));
        let (s, a, b0) = choose|s: Side, a: int, b0: int| #[trigger] m.has(s, a, b0) && m.resting(s, a, b0).key == k;
        if s == side && a == i {
            let b = if b0 > j { b0 - 1 } else { b0 };
            assert(after.has(s, a, b));
            assert(q2[b] == q[b0]);
        } else {
            assert(after.has(s, a, b0));
            assert(after.chain(s)[a] == m.chain(s)[a]);
        }
    }
}

/// A level table that mirrors a book mirrors the book without the
/// order at place `j` of level `i` of `side`, which held more orders,
/// once the level's record names the next order as its head if the order
/// was its head.
pub proof fn lemma_levels_unlink(levels: Seq<Option<OrderAtPrice>>, m: BookModel, side: Side, i: int, j: int)
    requires
        levels_mirror(levels, m),
        m.keys_unique(),
        m.slots_unique(),
        m.has(side, i, j),
        m.chain(side)[i].queue.len() > 1,
    ensures
        levels_mirror(
            rehead(
                levels,
                m.chain(side)[i].price,
                m.chain(side)[i].queue[j].key,
                m.chain(side)[i].queue[ring_next(j, m.chain(side)[i].queue.len() as int)].key,
            ),
            m.with_chain(
                side,
                m.chain(side).update(i, Level { price: m.chain(side)[i].price, queue: m.chain(side)[i].queue.remove(j) }),
            ),
        ),
{
    let chain = m.chain(side);
    let q = chain[i].queue;
    let n = q.len() as int;
    let q2 = q.remove(j);
    let after = m.with_chain(side, chain.update(i, Level { price: chain[i].price, queue: q2 }));
    let slot = spec_price_to_index(chain[i].price);
    let levels2 = rehead(levels, chain[i].price, q[j].key, q[ring_next(j, n)].key);
    assert(m.has_level(side, i));
    assert(m.has(side, i, 0));
    assert(levels[slot as int] == Some(level_record(chain, side, i)));
    assert(q[0].key == q[j].key <==> j == 0) by {
        if q[0].key == q[j].key {
            assert(m.resting(side, i, 0).key == m.resting(side, i, j).key);
        }
    }
    assert(q2[0] == q[if j == 0 { 1int } else { 0int }]);
    assert forall|s: Side, a: int| #[trigger] after.has_level(s, a) implies spec_price_to_index(
        after.chain(s)[a].price,
    ) < MAX_PRICE_LEVELS && levels2[spec_price_to_index(after.chain(s)[a].price) as int] == Some(
        level_record(after.chain(s), s, a),
    ) by {
        assert(m.has_level(s, a));
        let c = m.chain(s).len() as int;
        assert(after.chain(s)[a].price == m.chain(s)[a].price);
        assert(after.chain(s)[ring_prev(a, c)].price == m.chain(s)[ring_prev(a, c)].price);
        assert(after.chain(s)[ring_next(a, c)].price == m.chain(s)[ring_next(a, c)].price);
        if s == side && a == i {
        } else {
            assert(after.chain(s)[a] == m.chain(s)[a]);
            assert(spec_price_to_index(m.chain(s)[a].price) != slot);
        }
    }
    assert forall|x: int| 0 <= x < levels2.len() && (#[trigger] levels2[x]).is_some() implies exists|s: Side, a: int| #[trigger]
        after.has_level(s, a) && spec_price_to_index(after.chain(s)[a].price) == x by {
        assert(levels[x].is_some());
        let (s, a) = choose|s: Side, a: int| #[trigger]
            m.has_level(s, a) && spec_price_to_index(m.chain(s)[a].price) == x;
        assert(after.has_level(s, a));
    }
}

/// An order table that mirrors a book mirrors the book after a part of
/// its oldest best-priced order of `side` traded once that order's
/// record holds what is left.
pub proof fn lemma_orders_reduce(orders: Map<OrderInfo, Order>, m: BookModel, side: Side, traded: Quantity)
    requires
        orders_mirror(orders, m),
        m.keys_unique(),
        m.has(side, 0, 0),
        0 < traded < m.resting(side, 0, 0).qty,
    ensures
        orders_mirror(
            orders.insert(
                m.resting(side, 0, 0).key,
                Order { qty: (m.resting(side, 0, 0).qty - traded) as u32, ..orders[m.resting(side, 0, 0).key] },
            ),
            m.filled(side, traded),
        ),
{
    let chain = m.chain(side);
    let head = m.resting(side, 0, 0);
    let after = m.filled(side, traded);
    let orders2 = orders.insert(head.key, Order { qty: (head.qty - traded) as u32, ..orders[head.key] });
    assert(m.is_live(head.key));
    assert forall|s: Side, a: int, b: int| #[trigger] after.has(s, a, b) implies orders2.contains_key(
        after.resting(s, a, b).key,
    ) && orders2[after.resting(s, a, b).key] == order_record(after.symbol_id, s, after.chain(s)[a], b) by {
        assert(m.has(s, a, b));
        assert(m.is_live(m.resting(s, a, b).key));
        if s == side && a == 0 {
            let n = chain[0].queue.len() as int;
            assert(m.has(side, 0, ring_prev(b, n)));
            assert(m.has(side, 0, ring_next(b, n)));
            if b != 0 {
                assert(m.resting(s, a, b).key != head.key);
            }
        } else {
            assert(after.chain(s)[a] == m.chain(s)[a]);
            assert(m.resting(s, a, b).key != head.key);
        }
    }
    assert forall|key: OrderInfo| #[trigger] orders2.contains_key(key) implies after.is_live(key) by {
        assert(m.is_live(key));
        let (s, a, b) = choose|s: Side, a: int, b: int| #[trigger] m.has(s, a, b) && m.resting(s, a, b).key == key;
        assert(after.has(s, a, b));
    }
}

/// A level table that mirrors a book mirrors the book after a part of
/// its oldest best-priced order of `side` traded.
pub proof fn lemma_levels_reduce(levels: Seq<Option<OrderAtPrice>>, m: BookModel, side: Side, traded: Quantity)
    requires
        levels_mirror(levels, m),
        m.has(side, 0, 0),
        0 < traded < m.resting(side, 0, 0).qty,
    ensures
        levels_mirror(levels, m.filled(side, traded)),
{
    let after = m.filled(side, traded);
    assert forall|s: Side, a: int| #[trigger] after.has_level(s, a) implies spec_price_to_index(
        after.chain(s)[a].price,
    ) < MAX_PRICE_LEVELS && levels[spec_price_to_index(after.chain(s)[a].price) as int] == Some(
        level_record(after.chain(s), s, a),
    ) by {
        assert(m.has_level(s, a));
        let n = m.chain(s).len() as int;
        assert(after.chain(s)[a].price == m.chain(s)[a].price);
        assert(after.chain(s)[ring_prev(a, n)].price == m.chain(s)[ring_prev(a, n)].price);
        assert(after.chain(s)[ring_next(a, n)].price == m.chain(s)[ring_next(a, n)].price);
        assert(after.chain(s)[a].queue[0].key == m.chain(s)[a].queue[0].key);
    }
    assert forall|x: int| 0 <= x < levels.len() && (#[trigger] levels[x]).is_some() implies exists|s: Side, a: int| #[trigger]
        after.has_level(s, a) && spec_price_to_index(after.chain(s)[a].price) == x by {
        let (s, a) = choose|s: Side, a: int| #[trigger]
            m.has_level(s, a) && spec_price_to_index(m.chain(s)[a].price) == x;
        assert(after.has_level(s, a));
    }
}

} // verus!
