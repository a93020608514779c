//! Bounded storage for the records of a book.

use vstd::prelude::*;
use crate::common::{MAX_ORDER_IDS, MAX_PARTICIPANTS_NUMBER, MAX_PRICE_LEVELS, Price};
use crate::matching_engine::order::{Order, OrderAtPrice, OrderInfo};
use crate::matching_engine::order::{OrderAtPriceLevelHashMap, ParticipantOrderHashMap};
use crate::matching_engine::order::{create_order_at_price_level_hash_map, create_participant_order_hash_map};
use crate::matching_engine::pool::{order_in, level_in, box_order, box_level, order_of, level_of, store_order, store_level};

verus! {

/// Why a table refused an operation.
#[derive(Clone, Copy, Debug, PartialEq, Eq, Structural)]
pub enum ArenaError {
    /// The key already names a live order.
    DuplicateOrder,
    /// The key names no live record.
    UnknownOrder,
    /// The record falls outside the table's bounds or its slot is taken.
    CapacityExceeded,
}

/// The slot of the level table that `price` maps to: the price modulo the
/// number of slots.
#[verifier::opaque]
pub open spec fn spec_price_to_index(price: Price) -> usize {
    (price % (MAX_PRICE_LEVELS as u64)) as usize
}

/// Every price maps to a slot of the table.
pub proof fn lemma_slot_in_range(price: Price)
    ensures
        spec_price_to_index(price) < MAX_PRICE_LEVELS,
{
    reveal(spec_price_to_index);
}

/// Returns the slot of the level table that `price` maps to.
pub fn price_to_index(price: Price) -> (slot: usize)
    ensures
        slot == spec_price_to_index(price),
        slot < MAX_PRICE_LEVELS,
{
    reveal(spec_price_to_index);
    (price % (MAX_PRICE_LEVELS as u64)) as usize
}

/// Whether `key` lies within the bounds of an order table.
pub open spec fn key_in_bounds(key: OrderInfo) -> bool {
    key.participant_id < MAX_PARTICIPANTS_NUMBER && key.order_id < MAX_ORDER_IDS
}

/// The participant order table: every live order of a book, found by the
/// pair its owner names it with.
pub struct OrderTable {
    rows: ParticipantOrderHashMap,
    pool: refpool::Pool<Order>,
}

impl View for OrderTable {
    type V = Map<OrderInfo, Order>;

    /// The live orders by key.
    closed spec fn view(&self) -> Map<OrderInfo, Order> {
        Map::new(
            |key: OrderInfo| self.occupied(key),
            |key: OrderInfo| order_in(self.rows@[key.participant_id as int]@[key.order_id as int].unwrap()),
        )
    }
}

impl OrderTable {
    closed spec fn occupied(&self, key: OrderInfo) -> bool {
        &&& key.participant_id < self.rows@.len()
        &&& key.order_id < self.rows@[key.participant_id as int]@.len()
        &&& self.rows@[key.participant_id as int]@[key.order_id as int].is_some()
    }

    /// The table's invariant: one row per participant, no row longer than
    /// the bound on order ids, and every order stored under its own key.
    pub closed spec fn wf(&self) -> bool {
        &&& self.rows@.len() == MAX_PARTICIPANTS_NUMBER
        &&& forall|p: int| 0 <= p < self.rows@.len() ==> (#[trigger] self.rows@[p])@.len() <= MAX_ORDER_IDS
        &&& forall|key: OrderInfo| #[trigger] self.occupied(key) ==> self@[key].order_info == key
    }

    /// In a well-formed table every live key is within bounds and every
    /// order is stored under its own key.
    pub proof fn lemma_wf(&self)
        requires
            self.wf(),
        ensures
            forall|key: OrderInfo| #[trigger] self@.contains_key(key) ==> key_in_bounds(key) && self@[key].order_info == key,
    {
        assert forall|key: OrderInfo| #[trigger] self@.contains_key(key) implies key_in_bounds(key) && self@[key].order_info == key by {
            assert(self.occupied(key));
            assert(self.rows@[key.participant_id as int]@.len() <= MAX_ORDER_IDS);
        }
    }

    /// Returns a table without orders.
    pub fn new() -> (table: OrderTable)
        ensures
            table.wf(),
            table@ == Map::<OrderInfo, Order>::empty(),
    {
        let table = OrderTable { rows: create_participant_order_hash_map(), pool: refpool::Pool::new(MAX_ORDER_IDS) };
        assert(table@ =~= Map::<OrderInfo, Order>::empty());
        table
    }

    /// Returns the live order that `key` names, if there is one.
    pub fn lookup_order(&self, key: OrderInfo) -> (found: Option<Order>)
        requires
            self.wf(),
        ensures
            found == (if self@.contains_key(key) { Some(self@[key]) } else { None::<Order> }),
    {
        let p = key.participant_id as usize;
        if p >= self.rows.len() {
            return None;
        }
        if key.order_id >= self.rows[p].len() as u64 {
            return None;
        }
        let o = key.order_id as usize;
        match &self.rows[p][o] {
            Some(b) => Some(*order_of(b)),
            None => None,
        }
    }

    /// Stores `order` under its own key. Fails, leaving the table as it
    /// was, with `CapacityExceeded` when the key is out of bounds and with
    /// `DuplicateOrder` when the key is live.
    pub fn allocate_order(&mut self, order: Order) -> (r: Result<OrderInfo, ArenaError>)
        requires
            old(self).wf(),
        ensures
            final(self).wf(),
            !key_in_bounds(order.order_info) ==> r == Err::<OrderInfo, ArenaError>(ArenaError::CapacityExceeded),
            key_in_bounds(order.order_info) && old(self)@.contains_key(order.order_info)
                ==> r == Err::<OrderInfo, ArenaError>(ArenaError::DuplicateOrder),
            key_in_bounds(order.order_info) && !old(self)@.contains_key(order.order_info)
                ==> r == Ok::<OrderInfo, ArenaError>(order.order_info),
            r.is_ok() ==> final(self)@ == old(self)@.insert(order.order_info, order),
            r.is_err() ==> final(self)@ == old(self)@,
    {
        let key = order.order_info;
        let p = key.participant_id as usize;
        if p >= MAX_PARTICIPANTS_NUMBER || key.order_id >= MAX_ORDER_IDS as u64 {
            return Err(ArenaError::CapacityExceeded);
        }
        let o = key.order_id as usize;
        if o < self.rows[p].len() && self.rows[p][o].is_some() {
            assert(self.occupied(key));
            return Err(ArenaError::DuplicateOrder);
        }
        assert(!self.occupied(key));
        while self.rows[p].len() <= o
            invariant
                self.wf(),
                self@ == old(self)@,
                p < MAX_PARTICIPANTS_NUMBER,
                o < MAX_ORDER_IDS,
                !self.occupied(key),
                p == key.participant_id,
                o == key.order_id,
            decreases o + 1 - self.rows@[p as int]@.len(),
        {
            let ghost before = *self;
            self.rows[p].push(None);
            proof {
                assert forall|k: OrderInfo| self.occupied(k) == before.occupied(k) by {}
                assert forall|k: OrderInfo| #[trigger] self.occupied(k) implies self@[k].order_info == k by {
                    assert(before.occupied(k));
                    assert(before@[k].order_info == k);
                }
                assert(self@ =~= before@);
            }
        }
        let ghost before = *self;
        let b = box_order(&self.pool, order);
        self.rows[p][o] = Some(b);
        proof {
            assert forall|k: OrderInfo| self.occupied(k) == (before.occupied(k) || k == key) by {}
            assert forall|k: OrderInfo| #[trigger] self.occupied(k) implies self@[k].order_info == k by {
                if k != key {
                    assert(before.occupied(k));
                    assert(before@[k].order_info == k);
                }
            }
            assert(self@ =~= before@.insert(key, order));
        }
        Ok(key)
    }

    /// Overwrites the live order that `order` names by `order`. Fails with
    /// `UnknownOrder`, leaving the table as it was, when its key is not live.
    pub fn update_order(&mut self, order: Order) -> (r: Result<OrderInfo, ArenaError>)
        requires
            old(self).wf(),
        ensures
            final(self).wf(),
            r == (if old(self)@.contains_key(order.order_info) {
                Ok::<OrderInfo, ArenaError>(order.order_info)
            } else {
                Err::<OrderInfo, ArenaError>(ArenaError::UnknownOrder)
            }),
            r.is_ok() ==> final(self)@ == old(self)@.insert(order.order_info, order),
            r.is_err() ==> final(self)@ == old(self)@,
    {
        let key = order.order_info;
        let p = key.participant_id as usize;
        if p >= self.rows.len() {
            return Err(ArenaError::UnknownOrder);
        }
        if key.order_id >= self.rows[p].len() as u64 {
            return Err(ArenaError::UnknownOrder);
        }
        let o = key.order_id as usize;
        if self.rows[p][o].is_none() {
            return Err(ArenaError::UnknownOrder);
        }
        let ghost before = *self;
        match &mut self.rows[p][o] {
            Some(b) => {
                store_order(b, order);
            },
            None => {},
        }
        proof {
            assert forall|k: OrderInfo| self.occupied(k) == before.occupied(k) by {}
            assert forall|k: OrderInfo| #[trigger] self.occupied(k) implies self@[k].order_info == k by {
                if k != key {
                    assert(before.occupied(k));
                    assert(before@[k].order_info == k);
                }
            }
            assert(self@ =~= before@.insert(key, order));
        }
        Ok(key)
    }

    /// Takes the live order that `key` names out of the table and returns
    /// it. Fails with `UnknownOrder`, leaving the table as it was, when the
    /// key is not live.
    pub fn release_order(&mut self, key: OrderInfo) -> (r: Result<Order, ArenaError>)
        requires
            old(self).wf(),
        ensures
            final(self).wf(),
            r == (if old(self)@.contains_key(key) {
                Ok::<Order, ArenaError>(old(self)@[key])
            } else {
                Err::<Order, ArenaError>(ArenaError::UnknownOrder)
            }),
            final(self)@ == old(self)@.remove(key),
    {
        let p = key.participant_id as usize;
        if p >= self.rows.len() {
            assert(self@.remove(key) =~= self@);
            return Err(ArenaError::UnknownOrder);
        }
        if key.order_id >= self.rows[p].len() as u64 {
            assert(self@.remove(key) =~= self@);
            return Err(ArenaError::UnknownOrder);
        }
        let o = key.order_id as usize;
        let order = match &self.rows[p][o] {
            Some(b) => *order_of(b),
            None => {
                assert(self@.remove(key) =~= self@);
                return Err(ArenaError::UnknownOrder);
            },
        };
        let ghost before = *self;
        self.rows[p][o] = None;
        proof {
            assert forall|k: OrderInfo| self.occupied(k) == (before.occupied(k) && k != key) by {}
            assert forall|k: OrderInfo| #[trigger] self.occupied(k) implies self@[k].order_info == k by {
                assert(before.occupied(k));
                assert(before@[k].order_info == k);
            }
            assert(self@ =~= before@.remove(key));
        }
        Ok(order)
    }
}

/// The price level table: a fixed row of slots, one level at most in each,
/// a level always in the slot of its price.
pub struct LevelTable {
    slots: OrderAtPriceLevelHashMap,
    pool: refpool::Pool<OrderAtPrice>,
}

impl View for LevelTable {
    type V = Seq<Option<OrderAtPrice>>;

    /// What each slot holds.
    closed spec fn view(&self) -> Seq<Option<OrderAtPrice>> {
        Seq::new(
            self.slots@.len(),
            |i: int| match self.slots@[i] {
                Some(b) => Some(level_in(b)),
                None => None,
            },
        )
    }
}

impl LevelTable {
    /// The table's invariant: it has `MAX_PRICE_LEVELS` slots and each
    /// level sits in the slot of its price.
    pub closed spec fn wf(&self) -> bool {
        &&& self.slots@.len() == MAX_PRICE_LEVELS
        &&& forall|i: int| 0 <= i < self@.len() && (#[trigger] self@[i]).is_some()
                ==> spec_price_to_index(self@[i].unwrap().price) == i
    }

    /// A well-formed table has `MAX_PRICE_LEVELS` slots and each level sits
    /// in the slot of its price.
    pub proof fn lemma_wf(&self)
        requires
            self.wf(),
        ensures
            self@.len() == MAX_PRICE_LEVELS,
            forall|i: int| 0 <= i < self@.len() && (#[trigger] self@[i]).is_some()
                ==> spec_price_to_index(self@[i].unwrap().price) == i,
    {
    }

    /// Returns a table with every slot free.
    pub fn new() -> (table: LevelTable)
        ensures
            table.wf(),
            table@ == Seq::new(MAX_PRICE_LEVELS as nat, |i: int| None::<OrderAtPrice>),
    {
        let table = LevelTable { slots: create_order_at_price_level_hash_map(), pool: refpool::Pool::new(MAX_PRICE_LEVELS) };
        assert(table@ =~= Seq::new(MAX_PRICE_LEVELS as nat, |i: int| None::<OrderAtPrice>));
        table
    }

    /// Returns what the slot `slot` holds.
    pub fn level_at(&self, slot: usize) -> (found: Option<OrderAtPrice>)
        requires
            self.wf(),
            slot < MAX_PRICE_LEVELS,
        ensures
            found == self@[slot as int],
    {
        match &self.slots[slot] {
            Some(b) => Some(*level_of(b)),
            None => None,
        }
    }

    /// Returns the level at `price`, if the table holds one.
    pub fn lookup_level(&self, price: Price) -> (found: Option<OrderAtPrice>)
        requires
            self.wf(),
        ensures
            found == (match self@[spec_price_to_index(price) as int] {
                Some(level) => if level.price == price { Some(level) } else { None::<OrderAtPrice> },
                None => None::<OrderAtPrice>,
            }),
    {
        match &self.slots[price_to_index(price)] {
            Some(b) => {
                let level = *level_of(b);
                if level.price == price {
                    Some(level)
                } else {
                    None
                }
            },
            None => None,
        }
    }

    /// Stores `level` in the slot of its price and returns that slot.
    /// Fails with `CapacityExceeded`, leaving the table as it was, when the
    /// slot is taken.
    pub fn allocate_level(&mut self, level: OrderAtPrice) -> (r: Result<usize, ArenaError>)
        requires
            old(self).wf(),
        ensures
            final(self).wf(),
            r == (if old(self)@[spec_price_to_index(level.price) as int].is_none() {
                Ok::<usize, ArenaError>(spec_price_to_index(level.price))
            } else {
                Err::<usize, ArenaError>(ArenaError::CapacityExceeded)
            }),
            r.is_ok() ==> final(self)@ == old(self)@.update(spec_price_to_index(level.price) as int, Some(level)),
            r.is_err() ==> final(self)@ == old(self)@,
    {
        let slot = price_to_index(level.price);
        if self.slots[slot].is_some() {
            return Err(ArenaError::CapacityExceeded);
        }
        let ghost before = *self;
        let b = box_level(&self.pool, level);
        self.slots[slot] = Some(b);
        proof {
            assert(self@ =~= before@.update(slot as int, Some(level)));
            assert forall|i: int| 0 <= i < self@.len() && (#[trigger] self@[i]).is_some()
                implies spec_price_to_index(self@[i].unwrap().price) == i by {
                if i != slot {
                    assert(before@[i].is_some());
                }
            }
        }
        Ok(slot)
    }

    /// Overwrites the level in the slot of `level`'s price by `level`.
    /// Fails with `UnknownOrder`, leaving the table as it was, when that
    /// slot is free.
    pub fn update_level(&mut self, level: OrderAtPrice) -> (r: Result<usize, ArenaError>)
        requires
            old(self).wf(),
        ensures
            final(self).wf(),
            r == (if old(self)@[spec_price_to_index(level.price) as int].is_some() {
                Ok::<usize, ArenaError>(spec_price_to_index(level.price))
            } else {
                Err::<usize, ArenaError>(ArenaError::UnknownOrder)
            }),
            r.is_ok() ==> final(self)@ == old(self)@.update(spec_price_to_index(level.price) as int, Some(level)),
            r.is_err() ==> final(self)@ == old(self)@,
    {
        let slot = price_to_index(level.price);
        if self.slots[slot].is_none() {
            return Err(ArenaError::UnknownOrder);
        }
        let ghost before = *self;
        match &mut self.slots[slot] {
            Some(b) => {
                store_level(b, level);
            },
            None => {},
        }
        proof {
            assert(self@ =~= before@.update(slot as int, Some(level)));
            assert forall|i: int| 0 <= i < self@.len() && (#[trigger] self@[i]).is_some()
                implies spec_price_to_index(self@[i].unwrap().price) == i by {
                if i != slot {
                    assert(before@[i].is_some());
                }
            }
        }
        Ok(slot)
    }

    /// Frees the slot `slot` and returns the level it held, if any.
    pub fn release_level(&mut self, slot: usize) -> (released: Option<OrderAtPrice>)
        requires
            old(self).wf(),
            slot < MAX_PRICE_LEVELS,
        ensures
            final(self).wf(),
            released == old(self)@[slot as int],
            final(self)@ == old(self)@.update(slot as int, None::<OrderAtPrice>),
    {
        let released = match &self.slots[slot] {
            Some(b) => Some(*level_of(b)),
            None => None,
        };
        let ghost before = *self;
        self.slots[slot] = None;
        proof {
            assert(self@ =~= before@.update(slot as int, None::<OrderAtPrice>));
            assert forall|i: int| 0 <= i < self@.len() && (#[trigger] self@[i]).is_some()
                implies spec_price_to_index(self@[i].unwrap().price) == i by {
                assert(before@[i].is_some());
            }
        }
        released
    }
}

} // verus!
