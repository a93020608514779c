//! The executable order book of one symbol.
//!
//! Orders are linked into the FIFO ring of their price level by the keys
//! of their neighbours; levels are linked into the ring of their side by
//! the table slots of their neighbours. The book carries its model along
//! and its invariant says that the linked records spell out that model.

use vstd::prelude::*;
use crate::common::{OrderId, SymbolId, Side, Price, Quantity, Priority};
use crate::common::{INVALID_ORDER_ID, INVALID_PRICE, INVALID_QUANTITY, MAX_PRICE_LEVELS, MAX_PARTICIPANTS_NUMBER, MAX_ORDER_IDS};
use crate::market_data::market_update::{MarketUpdate, MarketUpdateType};
use crate::order_server::participants_response::{ParticipantResponse, ParticipantResponseType};
use crate::matching_engine::order::{Order, OrderAtPrice, OrderInfo};
use crate::matching_engine::arena::{ArenaError, OrderTable, LevelTable, spec_price_to_index, price_to_index, lemma_slot_in_range};
use crate::matching_engine::book_model::{BookModel, Level, Resting, Taker, is_book_side, better, crosses, has_price, level_index, is_insert_pos, insert_pos, next_priority_in, queue_wf, run_match, can_match, fill_head};
use crate::matching_engine::book_proofs::{lemma_insert_pos, lemma_level_index};
use crate::matching_engine::book_mirror::{best_slot, lemma_levels_push, lemma_levels_reduce, lemma_levels_unlink, lemma_orders_close, lemma_orders_open, lemma_orders_push, lemma_orders_reduce, lemma_orders_unlink, lemma_ring_insert, lemma_ring_open, lemma_ring_remove, level_of_price, level_record, levels_mirror, order_of_key, order_record, orders_mirror, pushed, queue_records, rehead, ring_next, ring_prev, spliced_in, spliced_out, unlinked};

verus! {

/// The order book of one symbol.
pub struct OrderBook {
    participants_orders: OrderTable,
    orders_at_price_level: LevelTable,
    symbol_id: SymbolId,
    best_bid_idx: usize,
    best_ask_idx: usize,
    next_internal_order_id: OrderId,
    model: Ghost<BookModel>,
}

impl View for OrderBook {
    type V = BookModel;

    /// The book as two chains of levels.
    closed spec fn view(&self) -> BookModel {
        self.model@
    }
}

impl OrderBook {
    /// Whether the level table and the best-price slots agree with the
    /// model.
    closed spec fn levels_ok(&self) -> bool {
        &&& self.orders_at_price_level.wf()
        &&& levels_mirror(self.orders_at_price_level@, self.model@)
        &&& self.best_bid_idx == best_slot(self.model@.bids)
        &&& self.best_ask_idx == best_slot(self.model@.asks)
    }

    /// Whether the order table and the counters agree with the model.
    closed spec fn orders_ok(&self) -> bool {
        &&& self.participants_orders.wf()
        &&& orders_mirror(self.participants_orders@, self.model@)
        &&& self.symbol_id == self.model@.symbol_id
        &&& self.next_internal_order_id == self.model@.next_internal_order_id
    }

    /// Whether the tables and counters agree with the model, whatever the
    /// model's own invariant.
    closed spec fn mirrors(&self) -> bool {
        self.levels_ok() && self.orders_ok()
    }

    /// The book's invariant: its model is well formed and its records
    /// spell out that model.
    pub closed spec fn wf(&self) -> bool {
        self.model@.wf() && self.mirrors()
    }

    /// A well-formed book has a well-formed model.
    pub proof fn lemma_wf(&self)
        requires
            self.wf(),
        ensures
            self@.wf(),
    {
    }

    /// Returns the book of `symbol_id` without orders.
    pub fn new(symbol_id: SymbolId) -> (book: OrderBook)
        ensures
            book.wf(),
            book@ == BookModel::empty(symbol_id),
    {
        let book = OrderBook {
            participants_orders: OrderTable::new(),
            orders_at_price_level: LevelTable::new(),
            symbol_id,
            best_bid_idx: MAX_PRICE_LEVELS,
            best_ask_idx: MAX_PRICE_LEVELS,
            next_internal_order_id: 1,
            model: Ghost(BookModel::empty(symbol_id)),
        };
        proof {
            let m = book.model@;
            assert forall|s: Side, i: int| !m.has_level(s, i) by {}
            assert forall|key: OrderInfo| !m.is_live(key) by {}
        }
        book
    }

    /// Returns the symbol this book trades.
    pub fn symbol_id(&self) -> (id: SymbolId)
        requires
            self.wf(),
        ensures
            id == self@.symbol_id,
    {
        self.symbol_id
    }

    /// Returns the table slot of the best bid level, or `MAX_PRICE_LEVELS`
    /// when no bid rests.
    pub fn best_bid_idx(&self) -> (slot: usize)
        requires
            self.wf(),
        ensures
            slot == best_slot(self@.bids),
    {
        self.best_bid_idx
    }

    /// Returns the table slot of the best ask level, or `MAX_PRICE_LEVELS`
    /// when no ask rests.
    pub fn best_ask_idx(&self) -> (slot: usize)
        requires
            self.wf(),
        ensures
            slot == best_slot(self@.asks),
    {
        self.best_ask_idx
    }

    /// Returns the best price of `side`: the highest bid or the lowest
    /// ask, or nothing when no order rests on that side.
    pub fn best_price(&self, side: Side) -> (price: Option<Price>)
        requires
            self.wf(),
            is_book_side(side),
        ensures
            price == self@.best_price(side),
    {
        let best = self.best_idx(side);
        proof {
            if self.model@.chain(side).len() > 0 {
                assert(self.model@.has_level(side, 0));
            }
        }
        if best == MAX_PRICE_LEVELS {
            None
        } else {
            Some(self.orders_at_price_level.level_at(best).unwrap().price)
        }
    }

    /// The record of an order found in the table is the record of the
    /// model's order at the place where the model has its key.
    proof fn lemma_order_spot(&self, s: Side, i: int, j: int)
        requires
            self.wf(),
            self.model@.has(s, i, j),
        ensures
            self.model@.is_live(self.model@.resting(s, i, j).key),
            self.model@.locate(self.model@.resting(s, i, j).key) == (s, i, j),
            self.participants_orders@.contains_key(self.model@.resting(s, i, j).key),
            self.participants_orders@[self.model@.resting(s, i, j).key] == order_record(
                self.model@.symbol_id,
                s,
                self.model@.chain(s)[i],
                j,
            ),
    {
        let m = self.model@;
        let key = m.resting(s, i, j).key;
        let (s2, i2, j2) = m.locate(key);
        assert(m.has(s2, i2, j2) && m.resting(s2, i2, j2).key == key);
    }

    /// Returns the live order that `order_info` names, if there is one.
    pub fn get_participant_order(&self, order_info: OrderInfo) -> (found: Option<Order>)
        requires
            self.wf(),
        ensures
            found == order_of_key(self@, order_info),
    {
        let found = self.participants_orders.lookup_order(order_info);
        proof {
            let m = self.model@;
            if m.is_live(order_info) {
                let (s, i, j) = m.locate(order_info);
                self.lemma_order_spot(s, i, j);
            }
        }
        found
    }

    /// The level table holds the record of every level of the model, in
    /// the slot of its price, and nothing else.
    proof fn lemma_level_spot(&self, price: Price)
        requires
            self.model@.wf(),
            self.levels_ok(),
        ensures
            self.orders_at_price_level@.len() == MAX_PRICE_LEVELS,
            spec_price_to_index(price) < MAX_PRICE_LEVELS,
            forall|s: Side, i: int| #[trigger]
                self.model@.has_level(s, i) ==> spec_price_to_index(self.model@.chain(s)[i].price) < MAX_PRICE_LEVELS
                    && self.orders_at_price_level@[spec_price_to_index(self.model@.chain(s)[i].price) as int] == Some(
                    level_record(self.model@.chain(s), s, i),
                ),
            match self.orders_at_price_level@[spec_price_to_index(price) as int] {
                Some(level) => level.price == price ==> level_of_price(self.model@, price) == Some(level),
                None => level_of_price(self.model@, price).is_none(),
            },
            !self.model@.slot_conflict(price) ==> (match self.orders_at_price_level@[spec_price_to_index(price) as int] {
                Some(level) => level.price == price,
                None => true,
            }),
            self.model@.slot_conflict(price) ==> (match self.orders_at_price_level@[spec_price_to_index(price) as int] {
                Some(level) => level.price != price,
                None => false,
            }),
            (match self.orders_at_price_level@[spec_price_to_index(price) as int] {
                Some(level) => level.price != price,
                None => true,
            }) ==> level_of_price(self.model@, price).is_none(),
    {
        let m = self.model@;
        let levels = self.orders_at_price_level@;
        let x = spec_price_to_index(price) as int;
        lemma_slot_in_range(price);
        if has_price(m.bids, price) {
            let i = level_index(m.bids, price);
            assert(m.has_level(Side::Buy, i));
        } else if has_price(m.asks, price) {
            let i = level_index(m.asks, price);
            assert(m.has_level(Side::Sell, i));
        }
        if levels[x].is_some() {
            let (s, i) = choose|s: Side, i: int| #[trigger]
                m.has_level(s, i) && spec_price_to_index(m.chain(s)[i].price) == x;
            assert(levels[x] == Some(level_record(m.chain(s), s, i)));
            if m.chain(s)[i].price == price {
                lemma_level_index(s, m.chain(s), price, i);
                if s == Side::Sell && has_price(m.bids, price) {
                    m.lemma_sides_apart(level_index(m.bids, price), i);
                }
            } else {
                assert(m.slot_conflict(price));
            }
        }
        if m.slot_conflict(price) {
            let (s, i) = choose|s: Side, i: int| #[trigger]
                m.has_level(s, i) && m.chain(s)[i].price != price && spec_price_to_index(m.chain(s)[i].price)
                    == spec_price_to_index(price);
            assert(levels[x] == Some(level_record(m.chain(s), s, i)));
        }
    }

    /// Returns the level at `price`, if the book has one.
    pub fn get_order_at_price(&self, price: Price) -> (found: Option<OrderAtPrice>)
        requires
            self.wf(),
        ensures
            found == level_of_price(self@, price),
    {
        proof {
            self.lemma_level_spot(price);
        }
        self.orders_at_price_level.lookup_level(price)
    }

    /// Returns the priority that the next order resting at `price` gets:
    /// one more than that of the youngest order of the level there, or 1
    /// when no level is at `price`.
    pub fn get_next_priority(&self, price: Price) -> (priority: Priority)
        requires
            self.wf(),
        ensures
            priority == self@.next_priority(price),
    {
        proof {
            self.lemma_level_spot(price);
        }
        match self.orders_at_price_level.lookup_level(price) {
            Some(level) => {
                let ghost m = self.model@;
                let ghost s = level.side;
                let ghost i = level_index(m.chain(s), price);
                proof {
                    if has_price(m.bids, price) {
                        assert(m.has_level(Side::Buy, level_index(m.bids, price)));
                    } else {
                        assert(m.has_level(Side::Sell, level_index(m.asks, price)));
                    }
                    assert(m.has_level(s, i));
                    assert(level == level_record(m.chain(s), s, i));
                    assert(queue_wf(m.chain(s)[i].queue));
                    self.lemma_order_spot(s, i, 0);
                    self.lemma_order_spot(s, i, m.chain(s)[i].queue.len() - 1);
                }
                let head = self.participants_orders.lookup_order(level.head_order_info).unwrap();
                let last = self.participants_orders.lookup_order(head.prev_order_info).unwrap();
                proof {
                    let q = m.chain(s)[i].queue;
                    assert(last.priority == q.last().priority);
                    assert(q.last().priority <= q.last().internal_order_id);
                    assert(q.last().internal_order_id < m.next_internal_order_id);
                }
                last.priority + 1
            },
            None => 1,
        }
    }

    /// Returns the best-price slot of `side`.
    fn best_idx(&self, side: Side) -> (slot: usize)
        ensures
            slot == if side == Side::Buy { self.best_bid_idx } else { self.best_ask_idx },
    {
        match side {
            Side::Buy => self.best_bid_idx,
            _ => self.best_ask_idx,
        }
    }

    /// Makes `slot` the best-price slot of `side`.
    fn set_best_idx(&mut self, side: Side, slot: usize)
        ensures
            final(self).best_bid_idx == if side == Side::Buy { slot } else { old(self).best_bid_idx },
            final(self).best_ask_idx == if side == Side::Buy { old(self).best_ask_idx } else { slot },
            final(self).participants_orders == old(self).participants_orders,
            final(self).orders_at_price_level == old(self).orders_at_price_level,
            final(self).symbol_id == old(self).symbol_id,
            final(self).next_internal_order_id == old(self).next_internal_order_id,
            final(self).model == old(self).model,
    {
        match side {
            Side::Buy => {
                self.best_bid_idx = slot;
            },
            _ => {
                self.best_ask_idx = slot;
            },
        }
    }

    /// Walks the ring of `side` from its best level and returns the slot
    /// of the first level whose price is not better than `price`, or the
    /// best slot again, with `true`, when every level has a better price.
    /// The ghost result is the number of levels passed.
    fn find_level_place(&self, side: Side, price: Price) -> (r: (usize, bool, Ghost<int>))
        requires
            self.model@.wf(),
            self.levels_ok(),
            is_book_side(side),
            self.model@.chain(side).len() > 0,
        ensures
            is_insert_pos(side, self.model@.chain(side), price, r.2@),
            r.1 <==> r.2@ == self.model@.chain(side).len(),
            r.0 == spec_price_to_index(
                self.model@.chain(side)[if r.1 { 0int } else { r.2@ }].price,
            ),
    {
        let best = self.best_idx(side);
        let ghost m = self.model@;
        let ghost chain = m.chain(side);
        let ghost n = chain.len() as int;
        let mut cur = best;
        let ghost mut k: int = 0;
        let mut searching = true;
        let mut at_end = false;
        proof {
            assert(m.has_level(side, 0));
        }
        while searching
            invariant
                self.orders_at_price_level.wf(),
                levels_mirror(self.orders_at_price_level@, m),
                m.wf(),
                is_book_side(side),
                chain == m.chain(side),
                n == chain.len(),
                n > 0,
                best == spec_price_to_index(chain[0].price),
                0 <= k <= n,
                at_end <==> k == n,
                searching ==> k < n,
                cur == spec_price_to_index(chain[if k == n { 0 } else { k }].price),
                forall|i: int| 0 <= i < k ==> better(side, (#[trigger] chain[i]).price, price),
                !searching && !at_end ==> !better(side, chain[k].price, price),
            decreases n - k + if searching { 1int } else { 0int },
        {
            proof {
                assert(m.has_level(side, k));
            }
            let cur_level = self.orders_at_price_level.level_at(cur).unwrap();
            if is_better(side, cur_level.price, price) {
                cur = cur_level.next_idx;
                proof {
                    k = k + 1;
                    if k < n {
                        assert(m.has_level(side, k));
                        assert(m.has_level(side, 0));
                    }
                }
                if cur == best {
                    at_end = true;
                    searching = false;
                }
            } else {
                searching = false;
            }
        }
        proof {
            assert forall|i: int| k <= i < n implies !better(side, (#[trigger] chain[i]).price, price) by {
                if i > k {
                    assert(better(side, chain[k].price, chain[i].price));
                }
            }
        }
        (cur, at_end, Ghost(k))
    }

    /// Links a new level into the ring of its side, behind every level
    /// with a better price, and makes it the best level when it has the
    /// best price. `first` is the order that opens the level.
    fn add_order_at_price(&mut self, new_order_at_price: OrderAtPrice, Ghost(first): Ghost<Resting>)
        requires
            old(self).model@.wf(),
            old(self).levels_ok(),
            is_book_side(new_order_at_price.side),
            new_order_at_price.head_order_info == first.key,
            !has_price(old(self).model@.chain(new_order_at_price.side), new_order_at_price.price),
            old(self).orders_at_price_level@[spec_price_to_index(new_order_at_price.price) as int].is_none(),
        ensures
            final(self).levels_ok(),
            final(self).model@ == old(self).model@.with_chain(
                new_order_at_price.side,
                old(self).model@.chain(new_order_at_price.side).insert(
                    insert_pos(
                        new_order_at_price.side,
                        old(self).model@.chain(new_order_at_price.side),
                        new_order_at_price.price,
                    ),
                    Level { price: new_order_at_price.price, queue: seq![first] },
                ),
            ),
            final(self).participants_orders == old(self).participants_orders,
            final(self).symbol_id == old(self).symbol_id,
            final(self).next_internal_order_id == old(self).next_internal_order_id,
    {
        let side = new_order_at_price.side;
        let price = new_order_at_price.price;
        let slot = price_to_index(price);
        let best = self.best_idx(side);
        let ghost m = self.model@;
        let ghost chain = m.chain(side);
        let ghost before = self.orders_at_price_level@;
        if best == MAX_PRICE_LEVELS {
            let level = OrderAtPrice { prev_idx: slot, next_idx: slot, ..new_order_at_price };
            let _ = self.orders_at_price_level.allocate_level(level);
            self.set_best_idx(side, slot);
            proof {
                if chain.len() > 0 {
                    assert(m.has_level(side, 0));
                }
                assert(is_insert_pos(side, chain, price, 0));
                lemma_insert_pos(side, chain, price, 0);
                self.model = Ghost(m.with_chain(side, chain.insert(0, Level { price, queue: seq![first] })));
                lemma_ring_open(before, m, side, new_order_at_price, first);
            }
        } else {
            let (cur, at_end, Ghost(k)) = self.find_level_place(side, price);
            proof {
                lemma_insert_pos(side, chain, price, k);
                assert(m.has_level(side, if at_end { 0int } else { k }));
                assert(m.has_level(side, ring_prev(if at_end { 0int } else { k }, chain.len() as int)));
            }
            let next_level = self.orders_at_price_level.level_at(cur).unwrap();
            let prev_slot = next_level.prev_idx;
            let level = OrderAtPrice { prev_idx: prev_slot, next_idx: cur, ..new_order_at_price };
            let _ = self.orders_at_price_level.allocate_level(level);
            let _ = self.orders_at_price_level.update_level(OrderAtPrice { prev_idx: slot, ..next_level });
            let prev_level = self.orders_at_price_level.level_at(prev_slot).unwrap();
            let _ = self.orders_at_price_level.update_level(OrderAtPrice { next_idx: slot, ..prev_level });
            if !at_end && cur == best {
                self.set_best_idx(side, slot);
            }
            proof {
                self.model = Ghost(m.with_chain(side, chain.insert(k, Level { price, queue: seq![first] })));
                assert(self.orders_at_price_level@ == spliced_in(before, cur, new_order_at_price));
                lemma_ring_insert(before, m, side, new_order_at_price, first, k);
                assert(k == 0 <==> (!at_end && cur == best)) by {
                    if k != 0 && !at_end {
                        assert(m.has_level(side, 0));
                        assert(m.has_level(side, k));
                    }
                }
            }
        }
    }

    /// Brings `order` to rest: at the tail of the queue of the level at
    /// its price, or in a new level when the book has none there. The
    /// order comes with its priority; its links are set here.
    fn add_order(&mut self, order: Order)
        requires
            old(self).wf(),
            order.symbol_id == old(self)@.symbol_id,
            old(self)@.can_rest(order.side, order.price, order.order_info, order.internal_order_id, order.qty),
            order.priority == next_priority_in(old(self)@.chain(order.side), order.price),
        ensures
            final(self).wf(),
            final(self)@ == old(self)@.rested(
                order.side,
                order.price,
                order.order_info,
                order.internal_order_id,
                order.qty,
            ),
    {
        let key = order.order_info;
        let side = order.side;
        let price = order.price;
        let ghost m = self.model@;
        let ghost chain = m.chain(side);
        let ghost resting = Resting {
            key,
            internal_order_id: order.internal_order_id,
            qty: order.qty,
            priority: order.priority,
        };
        let ghost after = m.rested(side, price, key, order.internal_order_id, order.qty);
        let ghost orders = self.participants_orders@;
        proof {
            self.lemma_level_spot(price);
            m.lemma_rested_wf(side, price, key, order.internal_order_id, order.qty);
            m.lemma_rested_spots(side, price, key, order.internal_order_id, order.qty);
            self.participants_orders.lemma_wf();
            if has_price(m.chain(side.spec_opposite()), price) {
                let b = level_index(m.chain(side.spec_opposite()), price);
                if side == Side::Buy {
                    m.lemma_sides_apart(0, b);
                    if b > 0 {
                        assert(better(Side::Sell, m.asks[0].price, m.asks[b].price));
                    }
                } else {
                    if b > 0 {
                        assert(better(Side::Buy, m.bids[0].price, m.bids[b].price));
                    }
                }
            }
            assert(!has_price(m.chain(side.spec_opposite()), price));
        }
        match self.orders_at_price_level.lookup_level(price) {
            None => {
                let first = Order { prev_order_info: key, next_order_info: key, ..order };
                let level = OrderAtPrice {
                    side,
                    price,
                    head_order_info: key,
                    prev_idx: MAX_PRICE_LEVELS,
                    next_idx: MAX_PRICE_LEVELS,
                };
                self.add_order_at_price(level, Ghost(resting));
                let _ = self.participants_orders.allocate_order(first);
                proof {
                    assert(self.model@ == after);
                    lemma_orders_open(orders, m, side, insert_pos(side, chain, price), price, resting);
                }
            },
            Some(level) => {
                let ghost i = level_index(chain, price);
                proof {
                    assert(m.has_level(side, i));
                    assert(level == level_record(chain, side, i));
                    assert(queue_wf(chain[i].queue));
                    self.lemma_order_spot(side, i, 0);
                    self.lemma_order_spot(side, i, chain[i].queue.len() - 1);
                }
                let head = self.participants_orders.lookup_order(level.head_order_info).unwrap();
                let last_key = head.prev_order_info;
                let _ = self.participants_orders.allocate_order(
                    Order { prev_order_info: last_key, next_order_info: level.head_order_info, ..order },
                );
                let last = self.participants_orders.lookup_order(last_key).unwrap();
                let _ = self.participants_orders.update_order(Order { next_order_info: key, ..last });
                let head_now = self.participants_orders.lookup_order(level.head_order_info).unwrap();
                let _ = self.participants_orders.update_order(Order { prev_order_info: key, ..head_now });
                proof {
                    self.model = Ghost(after);
                    assert(self.participants_orders@ == pushed(orders, level.head_order_info, order));
                    lemma_orders_push(orders, m, side, i, order);
                    lemma_levels_push(self.orders_at_price_level@, m, side, i, resting);
                    assert(after.chain(Side::Buy).len() > 0 ==> after.chain(Side::Buy)[0].price == m.chain(Side::Buy)[0].price);
                    assert(after.chain(Side::Sell).len() > 0 ==> after.chain(Side::Sell)[0].price == m.chain(Side::Sell)[0].price);
                }
            },
        }
    }

    /// Takes the level of `side` at `price` out of the ring of its side
    /// and frees its slot; the next level becomes the best one when the
    /// level was.
    fn remove_order_at_price(&mut self, side: Side, price: Price, Ghost(i): Ghost<int>)
        requires
            old(self).model@.slots_unique(),
            old(self).levels_ok(),
            old(self).model@.has_level(side, i),
            old(self).model@.chain(side)[i].price == price,
        ensures
            final(self).levels_ok(),
            final(self).model@ == old(self).model@.with_chain(side, old(self).model@.chain(side).remove(i)),
            final(self).participants_orders == old(self).participants_orders,
            final(self).symbol_id == old(self).symbol_id,
            final(self).next_internal_order_id == old(self).next_internal_order_id,
    {
        let slot = price_to_index(price);
        let best = self.best_idx(side);
        let ghost m = self.model@;
        let ghost chain = m.chain(side);
        let ghost n = chain.len() as int;
        let ghost before = self.orders_at_price_level@;
        proof {
            assert(m.has_level(side, 0));
            assert(m.has_level(side, ring_prev(i, n)));
            assert(m.has_level(side, ring_next(i, n)));
        }
        let level = self.orders_at_price_level.level_at(slot).unwrap();
        if level.next_idx == slot {
            self.set_best_idx(side, MAX_PRICE_LEVELS);
        } else {
            let prev = self.orders_at_price_level.level_at(level.prev_idx).unwrap();
            let _ = self.orders_at_price_level.update_level(OrderAtPrice { next_idx: level.next_idx, ..prev });
            let next = self.orders_at_price_level.level_at(level.next_idx).unwrap();
            let _ = self.orders_at_price_level.update_level(OrderAtPrice { prev_idx: level.prev_idx, ..next });
            if best == slot {
                self.set_best_idx(side, level.next_idx);
            }
        }
        let _ = self.orders_at_price_level.release_level(slot);
        proof {
            self.model = Ghost(m.with_chain(side, chain.remove(i)));
            assert(self.orders_at_price_level@ == spliced_out(before, slot));
            lemma_ring_remove(before, m, side, i);
            assert(best == slot <==> i == 0);
            if n > 1 {
                assert(chain.remove(i)[0] == chain[if i == 0 { 1int } else { 0int }]);
            }
        }
    }

    /// Takes the live order that `order_info` names out of its queue and
    /// out of the book; its level leaves with it when it was alone there.
    #[verifier::rlimit(40)]
    fn remove_order(&mut self, order_info: OrderInfo)
        requires
            old(self).wf(),
            old(self)@.is_live(order_info),
        ensures
            final(self).wf(),
            final(self)@ == old(self)@.without(
                old(self)@.locate(order_info).0,
                old(self)@.locate(order_info).1,
                old(self)@.locate(order_info).2,
            ),
    {
        let ghost m = self.model@;
        let ghost (s, i, j) = m.locate(order_info);
        let ghost chain = m.chain(s);
        let ghost q = chain[i].queue;
        let ghost n = q.len() as int;
        let ghost orders = self.participants_orders@;
        let ghost levels = self.orders_at_price_level@;
        let ghost after = m.without(s, i, j);
        proof {
            self.lemma_order_spot(s, i, j);
            self.lemma_order_spot(s, i, 0);
            self.lemma_order_spot(s, i, ring_prev(j, n));
            self.lemma_order_spot(s, i, ring_next(j, n));
            m.lemma_without_wf(s, i, j);
            assert(m.has_level(s, i));
            if n > 1 {
                assert(m.resting(s, i, ring_next(j, n)).key != m.resting(s, i, j).key);
            }
        }
        let order = self.participants_orders.lookup_order(order_info).unwrap();
        if order.next_order_info == order_info {
            self.remove_order_at_price(order.side, order.price, Ghost(i));
            let _ = self.participants_orders.release_order(order_info);
            proof {
                assert(self.model@ == after);
                lemma_orders_close(orders, m, s, i);
            }
        } else {
            let prev = self.participants_orders.lookup_order(order.prev_order_info).unwrap();
            let _ = self.participants_orders.update_order(Order { next_order_info: order.next_order_info, ..prev });
            let next = self.participants_orders.lookup_order(order.next_order_info).unwrap();
            let _ = self.participants_orders.update_order(Order { prev_order_info: order.prev_order_info, ..next });
            let level = self.orders_at_price_level.level_at(price_to_index(order.price)).unwrap();
            if level.head_order_info == order_info {
                let _ = self.orders_at_price_level.update_level(
                    OrderAtPrice { head_order_info: order.next_order_info, ..level },
                );
            }
            let _ = self.participants_orders.release_order(order_info);
            proof {
                self.model = Ghost(after);
                assert(level.head_order_info == order_info <==> j == 0) by {
                    if level.head_order_info == order_info {
                        assert(m.resting(s, i, 0).key == m.resting(s, i, j).key);
                    }
                }
                assert(self.participants_orders@ == unlinked(orders, order_info));
                lemma_orders_unlink(orders, m, s, i, j);
                assert(self.orders_at_price_level@ == rehead(levels, order.price, order_info, order.next_order_info));
                lemma_levels_unlink(levels, m, s, i, j);
                assert(after.chain(Side::Buy).len() > 0 ==> after.chain(Side::Buy)[0].price == m.chain(Side::Buy)[0].price);
                assert(after.chain(Side::Sell).len() > 0 ==> after.chain(Side::Sell)[0].price == m.chain(Side::Sell)[0].price);
            }
        }
    }

    /// Returns the next engine-assigned id: ids start at 1, rise by one
    /// and are never given twice.
    pub fn generate_new_order_id(&mut self) -> (id: OrderId)
        requires
            old(self).wf(),
            old(self)@.next_internal_order_id < INVALID_ORDER_ID,
        ensures
            final(self).wf(),
            id == old(self)@.next_internal_order_id,
            final(self)@ == old(self)@.with_next_id(),
    {
        let id = self.next_internal_order_id;
        let ghost m = self.model@;
        self.next_internal_order_id = id + 1;
        proof {
            let after = m.with_next_id();
            self.model = Ghost(after);
            m.lemma_with_next_id_wf();
            let levels = self.orders_at_price_level@;
            let orders = self.participants_orders@;
            assert forall|s: Side, a: int| after.has_level(s, a) == m.has_level(s, a) by {}
            assert forall|s: Side, a: int, b: int| after.has(s, a, b) == m.has(s, a, b) by {}
            assert forall|x: int| 0 <= x < levels.len() && (#[trigger] levels[x]).is_some() implies exists|
                s: Side,
                a: int,
            | #[trigger] after.has_level(s, a) && spec_price_to_index(after.chain(s)[a].price) == x by {
                let (s, a) = choose|s: Side, a: int| #[trigger]
                    m.has_level(s, a) && spec_price_to_index(m.chain(s)[a].price) == x;
                assert(after.has_level(s, a));
            }
            assert forall|key: OrderInfo| #[trigger] orders.contains_key(key) implies after.is_live(key) by {
                assert(m.is_live(key));
                let (s, a, b) = choose|s: Side, a: int, b: int| #[trigger] m.has(s, a, b) && m.resting(s, a, b).key == key;
                assert(after.has(s, a, b));
            }
        }
        id
    }

    /// Matches an incoming order against the opposite side and returns
    /// what is left of it. While the best opposite level offers a price
    /// within the limit, its oldest order trades at that level's price;
    /// a resting order that trades in full leaves the book. Each trade
    /// appends a fill for the incoming order and a fill for the resting
    /// one to `responses`, and a trade update to `updates`.
    pub fn check_for_match(
        &mut self,
        order_info: OrderInfo,
        side: Side,
        price: Price,
        qty: Quantity,
        internal_order_id: OrderId,
        responses: &mut Vec<ParticipantResponse>,
        updates: &mut Vec<MarketUpdate>,
    ) -> (leaves: Quantity)
        requires
            old(self).wf(),
            is_book_side(side),
        ensures
            final(self).wf(),
            ({
                let taker = Taker { symbol_id: old(self)@.symbol_id, key: order_info, internal_order_id, side, price };
                let matched = run_match(old(self)@.chain(side.spec_opposite()), taker, qty);
                &&& final(self)@ == old(self)@.matched(taker, qty)
                &&& leaves == matched.remaining
                &&& final(responses)@ == old(responses)@ + matched.responses
                &&& final(updates)@ == old(updates)@ + matched.updates
            }),
    {
        let opposite = side.opposite();
        let symbol_id = self.symbol_id;
        let ghost m0 = self.model@;
        let ghost taker = Taker { symbol_id: m0.symbol_id, key: order_info, internal_order_id, side, price };
        let ghost total = run_match(m0.chain(opposite), taker, qty);
        let ghost responses0 = responses@;
        let ghost updates0 = updates@;
        let mut leaves = qty;
        let mut matching = true;
        proof {
            assert(responses0 + total.responses == responses@ + total.responses);
        }
        while matching
            invariant
                self.wf(),
                is_book_side(side),
                opposite == side.spec_opposite(),
                symbol_id == m0.symbol_id,
                self.model@.symbol_id == m0.symbol_id,
                self.model@.next_internal_order_id == m0.next_internal_order_id,
                self.model@.chain(side) == m0.chain(side),
                taker == (Taker { symbol_id: m0.symbol_id, key: order_info, internal_order_id, side, price }),
                total == run_match(m0.chain(opposite), taker, qty),
                total.chain == run_match(self.model@.chain(opposite), taker, leaves).chain,
                total.remaining == run_match(self.model@.chain(opposite), taker, leaves).remaining,
                responses0 + total.responses == responses@ + run_match(
                    self.model@.chain(opposite),
                    taker,
                    leaves,
                ).responses,
                updates0 + total.updates == updates@ + run_match(self.model@.chain(opposite), taker, leaves).updates,
                !matching ==> !can_match(self.model@.chain(opposite), side, price, leaves),
            decreases leaves + if matching { 1int } else { 0int },
        {
            let best = self.best_idx(opposite);
            let ghost m = self.model@;
            let ghost chain = m.chain(opposite);
            proof {
                self.lemma_level_spot(price);
                if chain.len() > 0 {
                    assert(m.has_level(opposite, 0));
                    assert(queue_wf(chain[0].queue));
                    self.lemma_order_spot(opposite, 0, 0);
                }
            }
            if leaves == 0 || best == MAX_PRICE_LEVELS {
                matching = false;
            } else {
                let level = self.orders_at_price_level.level_at(best).unwrap();
                if !is_crossing(side, price, level.price) {
                    matching = false;
                } else {
                    let maker = self.participants_orders.lookup_order(level.head_order_info).unwrap();
                    let traded = if leaves < maker.qty { leaves } else { maker.qty };
                    let ghost step = run_match(chain, taker, leaves);
                    let ghost rest = run_match(fill_head(chain, traded), taker, (leaves - traded) as u32);
                    let ghost responses1 = responses@;
                    let ghost updates1 = updates@;
                    let ghost orders1 = self.participants_orders@;
                    leaves = leaves - traded;
                    responses.push(
                        ParticipantResponse {
                            response_type: ParticipantResponseType::Filled,
                            participant_id: order_info.participant_id,
                            symbol_id,
                            participant_order_id: order_info.order_id,
                            internal_order_id,
                            side,
                            price: level.price,
                            exec_qty: traded,
                            leaves_qty: leaves,
                        },
                    );
                    responses.push(
                        ParticipantResponse {
                            response_type: ParticipantResponseType::Filled,
                            participant_id: maker.order_info.participant_id,
                            symbol_id,
                            participant_order_id: maker.order_info.order_id,
                            internal_order_id: maker.internal_order_id,
                            side: opposite,
                            price: level.price,
                            exec_qty: traded,
                            leaves_qty: maker.qty - traded,
                        },
                    );
                    updates.push(
                        MarketUpdate {
                            update_type: MarketUpdateType::Trade,
                            order_id: maker.internal_order_id,
                            symbol_id,
                            side: opposite,
                            price: level.price,
                            qty: traded,
                            priority: maker.priority,
                        },
                    );
                    proof {
                        assert(can_match(chain, side, price, (leaves + traded) as u32));
                        assert(responses@ + rest.responses == responses1 + step.responses);
                        assert(updates@ + rest.updates == updates1 + step.updates);
                        m.lemma_filled_wf(opposite, traded);
                    }
                    if traded == maker.qty {
                        self.remove_order(maker.order_info);
                    } else {
                        let _ = self.participants_orders.update_order(Order { qty: maker.qty - traded, ..maker });
                        proof {
                            self.model = Ghost(m.filled(opposite, traded));
                            lemma_orders_reduce(orders1, m, opposite, traded);
                            lemma_levels_reduce(self.orders_at_price_level@, m, opposite, traded);
                        }
                    }
                    proof {
                        assert(self.model@ == m.filled(opposite, traded));
                        assert(self.model@.chain(opposite) == fill_head(chain, traded));
                    }
                }
            }
        }
        proof {
            assert(self.model@ == m0.matched(taker, qty));
        }
        leaves
    }

    /// Tells whether a new order named `order_info` at `price` would be
    /// taken in, and why not if it would not.
    pub fn check_add(&self, order_info: OrderInfo, price: Price) -> (r: Result<(), ArenaError>)
        requires
            self.wf(),
        ensures
            r == (match self@.refusal_reason(order_info, price) {
                Some(reason) => Err::<(), ArenaError>(reason),
                None => Ok::<(), ArenaError>(()),
            }),
            r.is_err() <==> self@.refuses(order_info, price),
    {
        let ghost m = self.model@;
        proof {
            self.lemma_level_spot(price);
            if m.is_live(order_info) {
                let (s, i, j) = m.locate(order_info);
                self.lemma_order_spot(s, i, j);
            }
        }
        if order_info.participant_id >= MAX_PARTICIPANTS_NUMBER as u32 || order_info.order_id >= MAX_ORDER_IDS as u64 {
            return Err(ArenaError::CapacityExceeded);
        }
        if self.participants_orders.lookup_order(order_info).is_some() {
            return Err(ArenaError::DuplicateOrder);
        }
        let contested = match self.orders_at_price_level.level_at(price_to_index(price)) {
            Some(level) => level.price != price,
            None => false,
        };
        if contested || self.next_internal_order_id == INVALID_ORDER_ID {
            return Err(ArenaError::CapacityExceeded);
        }
        Ok(())
    }

    /// Takes in a new limit order. A refused order changes nothing and is
    /// answered `Rejected`. Otherwise the order is answered `Accepted`,
    /// gets the next id and is matched against the opposite side; what is
    /// left of it comes to rest, announced by an `Add` update. Returns the
    /// participant responses and the market updates in the order in which
    /// they were emitted.
    pub fn add(&mut self, order_info: OrderInfo, side: Side, price: Price, qty: Quantity) -> (events: (
        Vec<ParticipantResponse>,
        Vec<MarketUpdate>,
    ))
        requires
            old(self).wf(),
            is_book_side(side),
        ensures
            final(self).wf(),
            final(self)@ == old(self)@.add(order_info, side, price, qty).book,
            events.0@ == old(self)@.add(order_info, side, price, qty).responses,
            events.1@ == old(self)@.add(order_info, side, price, qty).updates,
    {
        let mut responses: Vec<ParticipantResponse> = Vec::new();
        let mut updates: Vec<MarketUpdate> = Vec::new();
        let ghost m = self.model@;
        let ghost result = m.add(order_info, side, price, qty);
        if self.check_add(order_info, price).is_err() {
            responses.push(
                ParticipantResponse {
                    response_type: ParticipantResponseType::Rejected,
                    participant_id: order_info.participant_id,
                    symbol_id: self.symbol_id,
                    participant_order_id: order_info.order_id,
                    internal_order_id: INVALID_ORDER_ID,
                    side: Side::Invalid,
                    price: INVALID_PRICE,
                    exec_qty: INVALID_QUANTITY,
                    leaves_qty: INVALID_QUANTITY,
                },
            );
            proof {
                assert(m.refuses(order_info, price));
                assert(responses@ =~= result.responses);
                assert(updates@ =~= result.updates);
            }
            return (responses, updates);
        }
        proof {
            assert(!m.refuses(order_info, price));
            m.lemma_traded_wf(order_info, side, price, qty);
        }
        let ghost taker = m.taker(order_info, side, price);
        let ghost matched = run_match(m.chain(side.spec_opposite()), taker, qty);
        let internal_order_id = self.generate_new_order_id();
        responses.push(
            ParticipantResponse {
                response_type: ParticipantResponseType::Accepted,
                participant_id: order_info.participant_id,
                symbol_id: self.symbol_id,
                participant_order_id: order_info.order_id,
                internal_order_id,
                side,
                price,
                exec_qty: 0,
                leaves_qty: qty,
            },
        );
        let leaves = self.check_for_match(order_info, side, price, qty, internal_order_id, &mut responses, &mut updates);
        proof {
            assert(self.model@ == m.traded(order_info, side, price, qty));
            assert(leaves == matched.remaining);
            assert(responses@ =~= result.responses);
        }
        if leaves > 0 {
            proof {
                self.model@.lemma_next_priority(side, price);
            }
            let priority = self.get_next_priority(price);
            self.add_order(
                Order {
                    symbol_id: self.symbol_id,
                    order_info,
                    internal_order_id,
                    side,
                    price,
                    qty: leaves,
                    priority,
                    prev_order_info: OrderInfo::default(),
                    next_order_info: OrderInfo::default(),
                },
            );
            updates.push(
                MarketUpdate {
                    update_type: MarketUpdateType::Add,
                    order_id: internal_order_id,
                    symbol_id: self.symbol_id,
                    side,
                    price,
                    qty: leaves,
                    priority,
                },
            );
            proof {
                assert(updates@ =~= result.updates);
            }
        } else {
            proof {
                assert(updates@ =~= result.updates);
            }
        }
        (responses, updates)
    }

    /// Withdraws the order that `order_info` names. A key that names no
    /// resting order changes nothing and is answered `CancelRejected`,
    /// with no update. Otherwise the order leaves the book, answered
    /// `Cancelled` and announced by a `Cancel` update, both with the terms
    /// it last had.
    pub fn cancel(&mut self, order_info: OrderInfo) -> (events: (ParticipantResponse, Option<MarketUpdate>))
        requires
            old(self).wf(),
        ensures
            final(self).wf(),
            final(self)@ == old(self)@.cancel(order_info).book,
            events.0 == old(self)@.cancel(order_info).response,
            events.1 == old(self)@.cancel(order_info).update,
    {
        let ghost m = self.model@;
        proof {
            if m.is_live(order_info) {
                let (s, i, j) = m.locate(order_info);
                self.lemma_order_spot(s, i, j);
            }
        }
        match self.participants_orders.lookup_order(order_info) {
            None => {
                let response = ParticipantResponse {
                    response_type: ParticipantResponseType::CancelRejected,
                    participant_id: order_info.participant_id,
                    symbol_id: self.symbol_id,
                    participant_order_id: order_info.order_id,
                    internal_order_id: INVALID_ORDER_ID,
                    side: Side::Invalid,
                    price: INVALID_PRICE,
                    exec_qty: INVALID_QUANTITY,
                    leaves_qty: INVALID_QUANTITY,
                };
                (response, None)
            },
            Some(order) => {
                let response = ParticipantResponse {
                    response_type: ParticipantResponseType::Cancelled,
                    participant_id: order_info.participant_id,
                    symbol_id: self.symbol_id,
                    participant_order_id: order_info.order_id,
                    internal_order_id: order.internal_order_id,
                    side: order.side,
                    price: order.price,
                    exec_qty: INVALID_QUANTITY,
                    leaves_qty: order.qty,
                };
                let update = MarketUpdate {
                    update_type: MarketUpdateType::Cancel,
                    order_id: order.internal_order_id,
                    symbol_id: self.symbol_id,
                    side: order.side,
                    price: order.price,
                    qty: order.qty,
                    priority: order.priority,
                };
                self.remove_order(order_info);
                (response, Some(update))
            },
        }
    }

    /// Walks the ring of `side` from its best level and returns the price
    /// of each level met, in that order.
    pub fn level_prices(&self, side: Side) -> (prices: Vec<Price>)
        requires
            self.wf(),
            is_book_side(side),
        ensures
            prices@.len() == self@.chain(side).len(),
            forall|i: int| 0 <= i < prices@.len() ==> prices@[i] == self@.chain(side)[i].price,
            forall|i: int, j: int| 0 <= i < j < prices@.len() ==> better(side, prices@[i], prices@[j]),
    {
        let best = self.best_idx(side);
        let mut prices: Vec<Price> = Vec::new();
        let ghost m = self.model@;
        let ghost chain = m.chain(side);
        let ghost n = chain.len() as int;
        proof {
            if n > 0 {
                assert(m.has_level(side, 0));
            }
            assert forall|i: int, j: int| 0 <= i < j < n implies better(side, chain[i].price, chain[j].price) by {
                assert(better(side, (#[trigger] chain[i]).price, (#[trigger] chain[j]).price));
            }
        }
        if best == MAX_PRICE_LEVELS {
            return prices;
        }
        let mut cur = best;
        let mut going = true;
        let ghost mut k: int = 0;
        while going
            invariant
                self.orders_at_price_level.wf(),
                levels_mirror(self.orders_at_price_level@, m),
                m.slots_unique(),
                is_book_side(side),
                chain == m.chain(side),
                n == chain.len(),
                n > 0,
                best == spec_price_to_index(chain[0].price),
                0 <= k <= n,
                going ==> k < n && cur == spec_price_to_index(chain[k].price),
                !going ==> k == n,
                prices@.len() == k,
                forall|i: int| 0 <= i < k ==> prices@[i] == chain[i].price,
            decreases n - k + if going { 1int } else { 0int },
        {
            proof {
                assert(m.has_level(side, k));
                assert(m.has_level(side, 0));
                if k + 1 < n {
                    assert(m.has_level(side, k + 1));
                }
            }
            let level = self.orders_at_price_level.level_at(cur).unwrap();
            prices.push(level.price);
            cur = level.next_idx;
            proof {
                k = k + 1;
            }
            if cur == best {
                going = false;
            }
        }
        prices
    }

    /// Walks the queue of the level at `price` from its oldest order and
    /// returns the record of each order met, in that order; nothing when
    /// no level is at `price`.
    pub fn orders_at_price(&self, price: Price) -> (orders: Vec<Order>)
        requires
            self.wf(),
        ensures
            orders@ == queue_records(self@, price),
            forall|a: int| 0 <= a < orders@.len() ==> orders@[a].qty > 0 && orders@[a].price == price,
            forall|a: int, b: int| 0 <= a < b < orders@.len() ==> orders@[a].priority < orders@[b].priority,
    {
        let mut orders: Vec<Order> = Vec::new();
        let ghost m = self.model@;
        proof {
            self.lemma_level_spot(price);
        }
        match self.orders_at_price_level.lookup_level(price) {
            None => {
                proof {
                    assert(orders@ =~= queue_records(m, price));
                }
                orders
            },
            Some(level) => {
                let ghost s = level.side;
                let ghost i = level_index(m.chain(s), price);
                let ghost q = m.chain(s)[i].queue;
                let ghost n = q.len() as int;
                proof {
                    if has_price(m.bids, price) {
                        assert(m.has_level(Side::Buy, level_index(m.bids, price)));
                    } else {
                        assert(m.has_level(Side::Sell, level_index(m.asks, price)));
                    }
                    assert(m.has_level(s, i));
                    assert(queue_wf(q));
                }
                let head = level.head_order_info;
                let mut cur = head;
                let mut going = true;
                let ghost mut j: int = 0;
                while going
                    invariant
                        self.wf(),
                        m == self.model@,
                        m.has_level(s, i),
                        q == m.chain(s)[i].queue,
                        n == q.len(),
                        n > 0,
                        head == q[0].key,
                        0 <= j <= n,
                        going ==> j < n && cur == q[j].key,
                        !going ==> j == n,
                        orders@.len() == j,
                        forall|b: int| 0 <= b < j ==> orders@[b] == order_record(m.symbol_id, s, m.chain(s)[i], b),
                    decreases n - j + if going { 1int } else { 0int },
                {
                    proof {
                        self.lemma_order_spot(s, i, j);
                        self.lemma_order_spot(s, i, 0);
                        if j + 1 < n {
                            self.lemma_order_spot(s, i, j + 1);
                            assert(m.resting(s, i, j + 1).key != m.resting(s, i, 0).key);
                        }
                    }
                    let order = self.participants_orders.lookup_order(cur).unwrap();
                    orders.push(order);
                    cur = order.next_order_info;
                    proof {
                        j = j + 1;
                    }
                    if cur == head {
                        going = false;
                    }
                }
                proof {
                    assert(orders@ =~= queue_records(m, price));
                    assert forall|a: int| 0 <= a < orders@.len() implies orders@[a].qty > 0 && orders@[a].price
                        == price by {
                        assert(q[a].qty > 0);
                    }
                    assert forall|a: int, b: int| 0 <= a < b < orders@.len() implies orders@[a].priority
                        < orders@[b].priority by {
                        assert(q[a].priority < q[b].priority);
                    }
                }
                orders
            },
        }
    }
}

/// Returns whether the price `p` is strictly more aggressive than `q` on
/// `side`.
pub fn is_better(side: Side, p: Price, q: Price) -> (r: bool)
    ensures
        r == better(side, p, q),
{
    match side {
        Side::Buy => p > q,
        _ => p < q,
    }
}

/// Returns whether an incoming order of `side` limited at `limit` is
/// willing to trade with a resting order at `price`.
pub fn is_crossing(side: Side, limit: Price, price: Price) -> (r: bool)
    ensures
        r == crosses(side, limit, price),
{
    match side {
        Side::Buy => price <= limit,
        _ => price >= limit,
    }
}

} // verus!
