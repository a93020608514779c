//! The records a book stores: resting orders and price levels.

use vstd::prelude::*;
use crate::common::{OrderId, SymbolId, ParticipantId, Side, Price, Quantity, Priority};
use crate::common::{INVALID_ORDER_ID, INVALID_SYMBOL_ID, INVALID_PARTICIPANT_ID, INVALID_PRICE, INVALID_QUANTITY, INVALID_PRIORITY, MAX_PRICE_LEVELS, MAX_PARTICIPANTS_NUMBER};
use crate::text::{decimal, push_decimal, push_text};

verus! {

/// The pair by which a participant names one of their orders. It is the
/// stable key of an order inside a book.
#[derive(Clone, Copy, Debug, PartialEq, Eq, Structural)]
pub struct OrderInfo {
    pub participant_id: ParticipantId,
    pub order_id: OrderId,
}

impl OrderInfo {
    /// The key that names no order.
    pub open spec fn spec_default() -> OrderInfo {
        OrderInfo { participant_id: INVALID_PARTICIPANT_ID, order_id: INVALID_ORDER_ID }
    }
}

impl Default for OrderInfo {
    fn default() -> (r: Self)
        ensures
            r == OrderInfo::spec_default(),
    {
        OrderInfo { participant_id: INVALID_PARTICIPANT_ID, order_id: INVALID_ORDER_ID }
    }
}

/// A resting order together with its place in the FIFO queue of its price
/// level. The queue is a ring: the head's `prev_order_info` names the tail.
#[derive(Clone, Copy, Debug, PartialEq, Eq, Structural)]
pub struct Order {
    pub symbol_id: SymbolId,
    pub order_info: OrderInfo,
    /// The id the engine gave the order.
    pub internal_order_id: OrderId,
    pub side: Side,
    pub price: Price,
    /// Quantity still open.
    pub qty: Quantity,
    /// Arrival number within the price level.
    pub priority: Priority,
    pub prev_order_info: OrderInfo,
    pub next_order_info: OrderInfo,
}

impl Order {
    /// The record in which every field is unset.
    pub open spec fn spec_default() -> Order {
        Order {
            symbol_id: INVALID_SYMBOL_ID,
            order_info: OrderInfo::spec_default(),
            internal_order_id: INVALID_ORDER_ID,
            side: Side::Invalid,
            price: INVALID_PRICE,
            qty: INVALID_QUANTITY,
            priority: INVALID_PRIORITY,
            prev_order_info: OrderInfo::spec_default(),
            next_order_info: OrderInfo::spec_default(),
        }
    }
}

impl Default for Order {
    fn default() -> (r: Self)
        ensures
            r == Order::spec_default(),
    {
        Order {
            symbol_id: INVALID_SYMBOL_ID,
            order_info: OrderInfo::default(),
            internal_order_id: INVALID_ORDER_ID,
            side: Side::Invalid,
            price: INVALID_PRICE,
            qty: INVALID_QUANTITY,
            priority: INVALID_PRIORITY,
            prev_order_info: OrderInfo::default(),
            next_order_info: OrderInfo::default(),
        }
    }
}

/// All resting orders of one side at one price. Levels of a side form a
/// ring of table slots ordered from the best price to the worst.
#[derive(Clone, Copy, Debug, PartialEq, Eq, Structural)]
pub struct OrderAtPrice {
    pub side: Side,
    pub price: Price,
    /// The oldest order of the level.
    pub head_order_info: OrderInfo,
    /// Slot of the next better level (of the worst one, at the best level).
    pub prev_idx: usize,
    /// Slot of the next worse level (of the best one, at the worst level).
    pub next_idx: usize,
}

impl OrderAtPrice {
    /// The record in which every field is unset.
    pub open spec fn spec_default() -> OrderAtPrice {
        OrderAtPrice {
            side: Side::Invalid,
            price: INVALID_PRICE,
            head_order_info: OrderInfo::spec_default(),
            prev_idx: MAX_PRICE_LEVELS,
            next_idx: MAX_PRICE_LEVELS,
        }
    }
}

impl Default for OrderAtPrice {
    fn default() -> (r: Self)
        ensures
            r == OrderAtPrice::spec_default(),
    {
        OrderAtPrice {
            side: Side::Invalid,
            price: INVALID_PRICE,
            head_order_info: OrderInfo::default(),
            prev_idx: MAX_PRICE_LEVELS,
            next_idx: MAX_PRICE_LEVELS,
        }
    }
}

/// Orders of one participant, indexed by the id the participant gave them.
pub type OrderHashMap = Vec<Option<refpool::PoolBox<Order>>>;

/// Price levels, indexed by the slot of their price.
pub type OrderAtPriceLevelHashMap = Vec<Option<refpool::PoolBox<OrderAtPrice>>>;

/// Orders of all participants, indexed by participant id.
pub type ParticipantOrderHashMap = Vec<OrderHashMap>;

/// Returns an empty row of orders; it grows as order ids come into use.
pub fn create_order_hash_map() -> (orders: OrderHashMap)
    ensures
        orders@.len() == 0,
{
    Vec::new()
}

/// Returns a level table with every one of its `MAX_PRICE_LEVELS` slots free.
pub fn create_order_at_price_level_hash_map() -> (levels: OrderAtPriceLevelHashMap)
    ensures
        levels@.len() == MAX_PRICE_LEVELS,
        forall|i: int| 0 <= i < levels@.len() ==> levels@[i].is_none(),
{
    let mut levels: OrderAtPriceLevelHashMap = Vec::new();
    while levels.len() < MAX_PRICE_LEVELS
        invariant
            levels@.len() <= MAX_PRICE_LEVELS,
            forall|i: int| 0 <= i < levels@.len() ==> levels@[i].is_none(),
        decreases MAX_PRICE_LEVELS - levels@.len(),
    {
        levels.push(None);
    }
    levels
}

/// Returns an order table with one empty row for each of the
/// `MAX_PARTICIPANTS_NUMBER` participants.
pub fn create_participant_order_hash_map() -> (orders: ParticipantOrderHashMap)
    ensures
        orders@.len() == MAX_PARTICIPANTS_NUMBER,
        forall|p: int| 0 <= p < orders@.len() ==> orders@[p]@.len() == 0,
{
    let mut orders: ParticipantOrderHashMap = Vec::new();
    while orders.len() < MAX_PARTICIPANTS_NUMBER
        invariant
            orders@.len() <= MAX_PARTICIPANTS_NUMBER,
            forall|p: int| 0 <= p < orders@.len() ==> orders@[p]@.len() == 0,
        decreases MAX_PARTICIPANTS_NUMBER - orders@.len(),
    {
        orders.push(create_order_hash_map());
    }
    orders
}

impl OrderInfo {
    /// The one-line text of this key.
    pub open spec fn spec_line(self) -> Seq<char> {
        "Participant ID: "@ + decimal(self.participant_id as nat) + ", Order ID: "@ + decimal(self.order_id as nat)
    }

    /// Appends the one-line text of this key to `line`.
    pub fn push_line(&self, line: &mut String)
        ensures
            final(line)@ == old(line)@ + self.spec_line(),
    {
        push_text(line, "Participant ID: ");
        push_decimal(line, self.participant_id as u64);
        push_text(line, ", Order ID: ");
        push_decimal(line, self.order_id);
        proof {
            assert(line@ =~= old(line)@ + self.spec_line());
        }
    }

    /// Returns the one-line text of this key.
    pub fn to_line(&self) -> (line: String)
        ensures
            line@ == self.spec_line(),
    {
        let mut line = String::new();
        self.push_line(&mut line);
        proof {
            assert(line@ =~= self.spec_line());
        }
        line
    }
}

impl Order {
    /// The one-line text of this record.
    pub open spec fn spec_line(self) -> Seq<char> {
        "Order [symb: "@
            + decimal(self.symbol_id as nat)
            + ", order: "@
            + self.order_info.spec_line()
            + ", ioid: "@
            + decimal(self.internal_order_id as nat)
            + ", side: "@
            + self.side.spec_label()
            + ", price: "@
            + decimal(self.price as nat)
            + ", qty: "@
            + decimal(self.qty as nat)
            + ", priority: "@
            + decimal(self.priority as nat)
            + ", prev: "@
            + self.prev_order_info.spec_line()
            + ", next:"@
            + self.next_order_info.spec_line()
            + "]"@
    }

    /// Returns the one-line text of this record.
    pub fn to_line(&self) -> (line: String)
        ensures
            line@ == self.spec_line(),
    {
        let mut line = String::new();
        push_text(&mut line, "Order [symb: ");
        push_decimal(&mut line, self.symbol_id as u64);
        push_text(&mut line, ", order: ");
        self.order_info.push_line(&mut line);
        push_text(&mut line, ", ioid: ");
        push_decimal(&mut line, self.internal_order_id);
        push_text(&mut line, ", side: ");
        push_text(&mut line, self.side.label());
        push_text(&mut line, ", price: ");
        push_decimal(&mut line, self.price);
        push_text(&mut line, ", qty: ");
        push_decimal(&mut line, self.qty as u64);
        push_text(&mut line, ", priority: ");
        push_decimal(&mut line, self.priority);
        push_text(&mut line, ", prev: ");
        self.prev_order_info.push_line(&mut line);
        push_text(&mut line, ", next:");
        self.next_order_info.push_line(&mut line);
        push_text(&mut line, "]");
        proof {
            assert(line@ =~= self.spec_line());
        }
        line
    }
}

impl OrderAtPrice {
    /// The one-line text of this record.
    pub open spec fn spec_line(self) -> Seq<char> {
        "Order [side: "@
            + self.side.spec_label()
            + ", price: "@
            + decimal(self.price as nat)
            + ", head_order: "@
            + self.head_order_info.spec_line()
            + ", prev_id: "@
            + decimal(self.prev_idx as nat)
            + ", next_id: "@
            + decimal(self.next_idx as nat)
            + "]"@
    }

    /// Returns the one-line text of this record.
    pub fn to_line(&self) -> (line: String)
        ensures
            line@ == self.spec_line(),
    {
        let mut line = String::new();
        push_text(&mut line, "Order [side: ");
        push_text(&mut line, self.side.label());
        push_text(&mut line, ", price: ");
        push_decimal(&mut line, self.price);
        push_text(&mut line, ", head_order: ");
        self.head_order_info.push_line(&mut line);
        push_text(&mut line, ", prev_id: ");
        push_decimal(&mut line, self.prev_idx as u64);
        push_text(&mut line, ", next_id: ");
        push_decimal(&mut line, self.next_idx as u64);
        push_text(&mut line, "]");
        proof {
            assert(line@ =~= self.spec_line());
        }
        line
    }
}

} // verus!
