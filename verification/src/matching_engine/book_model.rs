//! The mathematical model of an order book and the laws that hold of it.
//!
//! A book is two chains of price levels, each listed from its best price
//! to its worst; a level is a price and the queue of the orders resting
//! at it, oldest first. `add` and `cancel` are defined here as functions
//! on that model; the executable book is proved to compute them.

use vstd::prelude::*;
use crate::common::{OrderId, SymbolId, Side, Price, Quantity, Priority};
use crate::common::{INVALID_ORDER_ID, INVALID_PRICE, INVALID_QUANTITY};
use crate::market_data::market_update::{MarketUpdate, MarketUpdateType};
use crate::order_server::participants_response::{ParticipantResponse, ParticipantResponseType};
use crate::matching_engine::order::OrderInfo;
use crate::matching_engine::arena::{ArenaError, key_in_bounds, spec_price_to_index};

verus! {
/// One order that rests in a level's queue.
pub struct Resting {
    pub key: OrderInfo,
    pub internal_order_id: OrderId,
    pub qty: Quantity,
    pub priority: Priority,
}

/// One price level: the orders resting at `price`, oldest first.
pub struct Level {
    pub price: Price,
    pub queue: Seq<Resting>,
}

/// An incoming order while it is being matched.
pub struct Taker {
    pub symbol_id: SymbolId,
    pub key: OrderInfo,
    pub internal_order_id: OrderId,
    pub side: Side,
    pub price: Price,
}

/// What matching an incoming order leaves behind.
pub struct MatchResult {
    /// The opposite chain after the trades.
    pub chain: Seq<Level>,
    /// The quantity of the incoming order that found no match.
    pub remaining: Quantity,
    pub responses: Seq<ParticipantResponse>,
    pub updates: Seq<MarketUpdate>,
}

/// The whole book of one symbol.
pub struct BookModel {
    pub symbol_id: SymbolId,
    /// The id that the next accepted order gets.
    pub next_internal_order_id: OrderId,
    /// Bid levels, highest price first.
    pub bids: Seq<Level>,
    /// Ask levels, lowest price first.
    pub asks: Seq<Level>,
}

/// A book after `add`, with the events that `add` emitted, in order.
pub struct AddResult {
    pub book: BookModel,
    pub responses: Seq<ParticipantResponse>,
    pub updates: Seq<MarketUpdate>,
}

/// A book after `cancel`, with the events that `cancel` emitted.
pub struct CancelResult {
    pub book: BookModel,
    pub response: ParticipantResponse,
    pub update: Option<MarketUpdate>,
}

/// Whether a price `p` is strictly more aggressive than `q` on `side`:
/// higher for a bid, lower for an ask.
pub open spec fn better(side: Side, p: Price, q: Price) -> bool {
    if side == Side::Buy {
        p > q
    } else {
        p < q
    }
}

/// Whether an incoming order of `side` limited at `limit` is willing to
/// trade with a resting order at `price`.
pub open spec fn crosses(side: Side, limit: Price, price: Price) -> bool {
    if side == Side::Buy {
        price <= limit
    } else {
        price >= limit
    }
}

/// Whether some level of `chain` is at `price`.
pub open spec fn has_price(chain: Seq<Level>, price: Price) -> bool {
    exists|i: int| 0 <= i < chain.len() && (#[trigger] chain[i]).price == price
}

/// The place in `chain` of the level at `price`.
pub open spec fn level_index(chain: Seq<Level>, price: Price) -> int {
    choose|i: int| 0 <= i < chain.len() && (#[trigger] chain[i]).price == price
}

/// Whether `k` is where a new level at `price` belongs in `chain`: behind
/// every level with a better price and before all others.
pub open spec fn is_insert_pos(side: Side, chain: Seq<Level>, price: Price, k: int) -> bool {
    &&& 0 <= k <= chain.len()
    &&& forall|i: int| 0 <= i < k ==> better(side, (#[trigger] chain[i]).price, price)
    &&& forall|i: int| k <= i < chain.len() ==> !better(side, (#[trigger] chain[i]).price, price)
}

/// The place in `chain` where a new level at `price` belongs.
pub open spec fn insert_pos(side: Side, chain: Seq<Level>, price: Price) -> int {
    choose|k: int| is_insert_pos(side, chain, price, k)
}

/// The priority that the next order resting at `price` in `chain` gets:
/// one more than that of the youngest order there, or 1 at a new level.
pub open spec fn next_priority_in(chain: Seq<Level>, price: Price) -> Priority {
    if has_price(chain, price) {
        (chain[level_index(chain, price)].queue.last().priority + 1) as u64
    } else {
        1
    }
}

/// `chain` with a new order of `qty` resting at `price`: at the tail of
/// the level there, or as a new level in its place of the price order.
pub open spec fn rest_in(
    side: Side,
    chain: Seq<Level>,
    price: Price,
    key: OrderInfo,
    internal_order_id: OrderId,
    qty: Quantity,
) -> Seq<Level> {
    let order = Resting { key, internal_order_id, qty, priority: next_priority_in(chain, price) };
    if has_price(chain, price) {
        let i = level_index(chain, price);
        chain.update(i, Level { price, queue: chain[i].queue.push(order) })
    } else {
        chain.insert(insert_pos(side, chain, price), Level { price, queue: seq![order] })
    }
}

/// `chain` without the order at place `j` of level `i`; the level leaves
/// with its last order.
pub open spec fn remove_at(chain: Seq<Level>, i: int, j: int) -> Seq<Level> {
    if chain[i].queue.len() == 1 {
        chain.remove(i)
    } else {
        chain.update(i, Level { price: chain[i].price, queue: chain[i].queue.remove(j) })
    }
}

/// `chain` after `traded` units of its oldest best-priced order traded:
/// the order keeps the rest, or leaves when nothing is left of it.
pub open spec fn fill_head(chain: Seq<Level>, traded: Quantity) -> Seq<Level> {
    let head = chain[0].queue[0];
    if traded == head.qty {
        remove_at(chain, 0, 0)
    } else {
        let left = Resting { qty: (head.qty - traded) as u32, ..head };
        chain.update(0, Level { price: chain[0].price, queue: chain[0].queue.update(0, left) })
    }
}

/// Whether an incoming order with `remaining` open can trade with the
/// oldest order at the best level of the opposite chain `chain`.
pub open spec fn can_match(chain: Seq<Level>, side: Side, limit: Price, remaining: Quantity) -> bool {
    &&& remaining > 0
    &&& chain.len() > 0
    &&& crosses(side, limit, chain[0].price)
    &&& chain[0].queue.len() > 0
    &&& chain[0].queue[0].qty > 0
}

/// The quantity of one trade: all that both orders can give.
pub open spec fn trade_qty(remaining: Quantity, resting: Quantity) -> Quantity {
    if remaining < resting {
        remaining
    } else {
        resting
    }
}

/// The response that reports a trade of `exec_qty` to the owner of an
/// order, of which `leaves_qty` stay open.
pub open spec fn fill_response(
    symbol_id: SymbolId,
    key: OrderInfo,
    internal_order_id: OrderId,
    side: Side,
    price: Price,
    exec_qty: Quantity,
    leaves_qty: Quantity,
) -> ParticipantResponse {
    ParticipantResponse {
        response_type: ParticipantResponseType::Filled,
        participant_id: key.participant_id,
        symbol_id,
        participant_order_id: key.order_id,
        internal_order_id,
        side,
        price,
        exec_qty,
        leaves_qty,
    }
}

/// The market update that reports a trade of `qty` against the resting
/// order `maker` of `side` at `price`.
pub open spec fn trade_update(symbol_id: SymbolId, maker: Resting, side: Side, price: Price, qty: Quantity) -> MarketUpdate {
    MarketUpdate {
        update_type: MarketUpdateType::Trade,
        order_id: maker.internal_order_id,
        symbol_id,
        side,
        price,
        qty,
        priority: maker.priority,
    }
}

/// Matches `taker`, of which `remaining` is open, against the opposite
/// chain `chain`: while the best level offers a price the taker accepts,
/// its oldest order trades `trade_qty` at that level's price. Each trade
/// reports a fill to the taker, a fill to the resting order's owner and
/// one trade update.
pub open spec fn run_match(chain: Seq<Level>, taker: Taker, remaining: Quantity) -> MatchResult
    decreases remaining,
{
    if !can_match(chain, taker.side, taker.price, remaining) {
        MatchResult { chain, remaining, responses: Seq::empty(), updates: Seq::empty() }
    } else {
        let price = chain[0].price;
        let maker = chain[0].queue[0];
        let traded = trade_qty(remaining, maker.qty);
        let left = (remaining - traded) as u32;
        let rest = run_match(fill_head(chain, traded), taker, left);
        MatchResult {
            chain: rest.chain,
            remaining: rest.remaining,
            responses: seq![
                fill_response(taker.symbol_id, taker.key, taker.internal_order_id, taker.side, price, traded, left),
                fill_response(
                    taker.symbol_id,
                    maker.key,
                    maker.internal_order_id,
                    taker.side.spec_opposite(),
                    price,
                    traded,
                    (maker.qty - traded) as u32,
                ),
            ] + rest.responses,
            updates: seq![trade_update(taker.symbol_id, maker, taker.side.spec_opposite(), price, traded)] + rest.updates,
        }
    }
}

/// The response to a new order taken in.
pub open spec fn accepted_response(taker: Taker, qty: Quantity) -> ParticipantResponse {
    ParticipantResponse {
        response_type: ParticipantResponseType::Accepted,
        participant_id: taker.key.participant_id,
        symbol_id: taker.symbol_id,
        participant_order_id: taker.key.order_id,
        internal_order_id: taker.internal_order_id,
        side: taker.side,
        price: taker.price,
        exec_qty: 0,
        leaves_qty: qty,
    }
}

/// The response of kind `response_type` to a request that was refused:
/// it names the request and leaves everything else unset.
pub open spec fn refusal(response_type: ParticipantResponseType, symbol_id: SymbolId, key: OrderInfo) -> ParticipantResponse {
    ParticipantResponse {
        response_type,
        participant_id: key.participant_id,
        symbol_id,
        participant_order_id: key.order_id,
        internal_order_id: INVALID_ORDER_ID,
        side: Side::Invalid,
        price: INVALID_PRICE,
        exec_qty: INVALID_QUANTITY,
        leaves_qty: INVALID_QUANTITY,
    }
}

/// The market update for an order that came to rest.
pub open spec fn add_update(taker: Taker, qty: Quantity, priority: Priority) -> MarketUpdate {
    MarketUpdate {
        update_type: MarketUpdateType::Add,
        order_id: taker.internal_order_id,
        symbol_id: taker.symbol_id,
        side: taker.side,
        price: taker.price,
        qty,
        priority,
    }
}

/// The response to the owner of a withdrawn order.
pub open spec fn cancelled_response(symbol_id: SymbolId, side: Side, price: Price, order: Resting) -> ParticipantResponse {
    ParticipantResponse {
        response_type: ParticipantResponseType::Cancelled,
        participant_id: order.key.participant_id,
        symbol_id,
        participant_order_id: order.key.order_id,
        internal_order_id: order.internal_order_id,
        side,
        price,
        exec_qty: INVALID_QUANTITY,
        leaves_qty: order.qty,
    }
}

/// The market update for a withdrawn order.
pub open spec fn cancel_update(symbol_id: SymbolId, side: Side, price: Price, order: Resting) -> MarketUpdate {
    MarketUpdate {
        update_type: MarketUpdateType::Cancel,
        order_id: order.internal_order_id,
        symbol_id,
        side,
        price,
        qty: order.qty,
        priority: order.priority,
    }
}

/// Whether `side` is one that orders can have.
pub open spec fn is_book_side(side: Side) -> bool {
    side == Side::Buy || side == Side::Sell
}

/// The invariant of a level's queue: it is not empty, every order in it
/// has quantity open, a key within bounds and a priority between 1 and
/// its engine-assigned id, and priorities rise strictly from the head.
pub open spec fn queue_wf(queue: Seq<Resting>) -> bool {
    &&& queue.len() > 0
    &&& forall|j: int|
        0 <= j < queue.len() ==> {
            &&& (#[trigger] queue[j]).qty > 0
            &&& 1 <= queue[j].priority <= queue[j].internal_order_id
            &&& key_in_bounds(queue[j].key)
        }
    &&& forall|j: int, k: int| 0 <= j < k < queue.len() ==> (#[trigger] queue[j]).priority < (#[trigger] queue[k]).priority
}

/// The invariant of one side's chain: prices get strictly worse from the
/// front, and every queue is well formed.
pub open spec fn chain_wf(side: Side, chain: Seq<Level>) -> bool {
    &&& forall|i: int, j: int|
        0 <= i < j < chain.len() ==> better(side, (#[trigger] chain[i]).price, (#[trigger] chain[j]).price)
    &&& forall|i: int| 0 <= i < chain.len() ==> queue_wf((#[trigger] chain[i]).queue)
}

/// Whether every order of `chain` has an engine-assigned id below `bound`.
pub open spec fn ids_below(chain: Seq<Level>, bound: OrderId) -> bool {
    forall|i: int, j: int|
        0 <= i < chain.len() && 0 <= j < chain[i].queue.len() ==> (#[trigger] chain[i].queue[j]).internal_order_id < bound
}

/// The place that place `(s, i2, j2)` of a book had before the order at
/// `(side, i, j)` left it.
pub open spec fn spot_before_removal(sole: bool, side: Side, i: int, j: int, s: Side, i2: int, j2: int) -> (int, int) {
    if s != side {
        (i2, j2)
    } else if sole {
        (if i2 < i { i2 } else { i2 + 1 }, j2)
    } else {
        (i2, if i2 == i && j2 >= j { j2 + 1 } else { j2 })
    }
}

/// The place that place `(s, i2, j2)` of a book had before a new level
/// came in at place `k` of `side` (`fresh`), or before an order joined a
/// queue (`!fresh`).
pub open spec fn spot_before_rest(fresh: bool, side: Side, k: int, s: Side, i2: int, j2: int) -> (int, int) {
    if fresh && s == side && i2 > k {
        (i2 - 1, j2)
    } else {
        (i2, j2)
    }
}

impl BookModel {
    /// The book without orders.
    pub open spec fn empty(symbol_id: SymbolId) -> BookModel {
        BookModel { symbol_id, next_internal_order_id: 1, bids: Seq::empty(), asks: Seq::empty() }
    }

    /// The chain of `side`.
    pub open spec fn chain(self, side: Side) -> Seq<Level> {
        if side == Side::Buy {
            self.bids
        } else {
            self.asks
        }
    }

    /// The book with `chain` in place of the chain of `side`.
    pub open spec fn with_chain(self, side: Side, chain: Seq<Level>) -> BookModel {
        if side == Side::Buy {
            BookModel { bids: chain, ..self }
        } else {
            BookModel { asks: chain, ..self }
        }
    }

    /// Whether level `i` of `side` exists.
    pub open spec fn has_level(self, side: Side, i: int) -> bool {
        is_book_side(side) && 0 <= i < self.chain(side).len()
    }

    /// Whether an order rests at place `j` of level `i` of `side`.
    pub open spec fn has(self, side: Side, i: int, j: int) -> bool {
        self.has_level(side, i) && 0 <= j < self.chain(side)[i].queue.len()
    }

    /// The order at place `j` of level `i` of `side`.
    pub open spec fn resting(self, side: Side, i: int, j: int) -> Resting {
        self.chain(side)[i].queue[j]
    }

    /// Whether `key` names an order resting in the book.
    pub open spec fn is_live(self, key: OrderInfo) -> bool {
        exists|side: Side, i: int, j: int| #[trigger] self.has(side, i, j) && self.resting(side, i, j).key == key
    }

    /// Where the order that `key` names rests.
    pub open spec fn locate(self, key: OrderInfo) -> (Side, int, int) {
        choose|side: Side, i: int, j: int| #[trigger] self.has(side, i, j) && self.resting(side, i, j).key == key
    }

    /// Whether the table slot that `price` maps to holds a level at
    /// another price.
    pub open spec fn slot_conflict(self, price: Price) -> bool {
        exists|side: Side, i: int| #[trigger]
            self.has_level(side, i) && self.chain(side)[i].price != price && spec_price_to_index(
                self.chain(side)[i].price,
            ) == spec_price_to_index(price)
    }

    /// The best price of `side`, if any order rests there.
    pub open spec fn best_price(self, side: Side) -> Option<Price> {
        if self.chain(side).len() > 0 {
            Some(self.chain(side)[0].price)
        } else {
            None
        }
    }

    /// No two orders in the book share a key.
    pub open spec fn keys_unique(self) -> bool {
        forall|s1: Side, i1: int, j1: int, s2: Side, i2: int, j2: int|
            #[trigger] self.has(s1, i1, j1) && #[trigger] self.has(s2, i2, j2) && self.resting(s1, i1, j1).key
                == self.resting(s2, i2, j2).key ==> s1 == s2 && i1 == i2 && j1 == j2
    }

    /// No two levels in the book share a table slot.
    pub open spec fn slots_unique(self) -> bool {
        forall|s1: Side, i1: int, s2: Side, i2: int|
            #[trigger] self.has_level(s1, i1) && #[trigger] self.has_level(s2, i2) && spec_price_to_index(
                self.chain(s1)[i1].price,
            ) == spec_price_to_index(self.chain(s2)[i2].price) ==> s1 == s2 && i1 == i2
    }

    /// The book is not crossed: the best bid is below the best ask.
    pub open spec fn no_cross(self) -> bool {
        self.bids.len() > 0 && self.asks.len() > 0 ==> self.bids[0].price < self.asks[0].price
    }

    /// The invariant of a book.
    pub open spec fn wf(self) -> bool {
        &&& chain_wf(Side::Buy, self.bids)
        &&& chain_wf(Side::Sell, self.asks)
        &&& self.no_cross()
        &&& self.keys_unique()
        &&& self.slots_unique()
        &&& 1 <= self.next_internal_order_id
        &&& ids_below(self.bids, self.next_internal_order_id)
        &&& ids_below(self.asks, self.next_internal_order_id)
    }

    /// The book without the order at place `j` of level `i` of `side`.
    pub open spec fn without(self, side: Side, i: int, j: int) -> BookModel {
        self.with_chain(side, remove_at(self.chain(side), i, j))
    }

    /// The book after `traded` units of the oldest best-priced order of
    /// `side` traded.
    pub open spec fn filled(self, side: Side, traded: Quantity) -> BookModel {
        self.with_chain(side, fill_head(self.chain(side), traded))
    }

    /// The book after `taker`, of which `remaining` is open, was matched
    /// against the side opposite to its own.
    pub open spec fn matched(self, taker: Taker, remaining: Quantity) -> BookModel {
        self.with_chain(
            taker.side.spec_opposite(),
            run_match(self.chain(taker.side.spec_opposite()), taker, remaining).chain,
        )
    }

    /// The book with a new order resting on `side` at `price`.
    pub open spec fn rested(
        self,
        side: Side,
        price: Price,
        key: OrderInfo,
        internal_order_id: OrderId,
        qty: Quantity,
    ) -> BookModel {
        self.with_chain(side, rest_in(side, self.chain(side), price, key, internal_order_id, qty))
    }

    /// Whether a new order with these terms may come to rest: it has
    /// quantity open, its key is within bounds and free, its id is above
    /// those of its side and below the next one, the slot of its price is
    /// not held by another price, and its price crosses no resting order.
    pub open spec fn can_rest(
        self,
        side: Side,
        price: Price,
        key: OrderInfo,
        internal_order_id: OrderId,
        qty: Quantity,
    ) -> bool {
        &&& is_book_side(side)
        &&& qty > 0
        &&& key_in_bounds(key)
        &&& !self.is_live(key)
        &&& !self.slot_conflict(price)
        &&& 1 <= internal_order_id < self.next_internal_order_id
        &&& ids_below(self.chain(side), internal_order_id)
        &&& (self.chain(side.spec_opposite()).len() == 0 || !crosses(
            side,
            price,
            self.chain(side.spec_opposite())[0].price,
        ))
    }

    /// Where a new order at `price` comes to rest on `side`: the level and
    /// the place in its queue.
    pub open spec fn rest_spot(self, side: Side, price: Price) -> (int, int) {
        let chain = self.chain(side);
        if has_price(chain, price) {
            (level_index(chain, price), chain[level_index(chain, price)].queue.len() as int)
        } else {
            (insert_pos(side, chain, price), 0)
        }
    }

    /// The book once a new order was taken in and matched, before what is
    /// left of it comes to rest.
    pub open spec fn traded(self, key: OrderInfo, side: Side, price: Price, qty: Quantity) -> BookModel {
        self.matched(self.taker(key, side, price), qty).with_next_id()
    }

    /// The book once the id that the next accepted order gets is used up.
    pub open spec fn with_next_id(self) -> BookModel {
        BookModel { next_internal_order_id: (self.next_internal_order_id + 1) as u64, ..self }
    }

    /// The priority that the next order resting at `price` gets.
    pub open spec fn next_priority(self, price: Price) -> Priority {
        if has_price(self.bids, price) {
            next_priority_in(self.bids, price)
        } else {
            next_priority_in(self.asks, price)
        }
    }

    /// Whether a new order named `key` at `price` is refused: its key is
    /// out of bounds or live, the slot of its price holds a level at
    /// another price, or the engine has no id left to give.
    pub open spec fn refuses(self, key: OrderInfo, price: Price) -> bool {
        ||| !key_in_bounds(key)
        ||| self.is_live(key)
        ||| self.slot_conflict(price)
        ||| self.next_internal_order_id == INVALID_ORDER_ID
    }

    /// Why a new order named `key` at `price` is refused, if it is: its
    /// key is live (`DuplicateOrder`), or its key is out of bounds, the
    /// slot of its price holds a level at another price or the engine has
    /// no id left to give (`CapacityExceeded`).
    pub open spec fn refusal_reason(self, key: OrderInfo, price: Price) -> Option<ArenaError> {
        if !key_in_bounds(key) {
            Some(ArenaError::CapacityExceeded)
        } else if self.is_live(key) {
            Some(ArenaError::DuplicateOrder)
        } else if self.slot_conflict(price) || self.next_internal_order_id == INVALID_ORDER_ID {
            Some(ArenaError::CapacityExceeded)
        } else {
            None
        }
    }

    /// The incoming order that a new request becomes once it is taken in.
    pub open spec fn taker(self, key: OrderInfo, side: Side, price: Price) -> Taker {
        Taker { symbol_id: self.symbol_id, key, internal_order_id: self.next_internal_order_id, side, price }
    }

    /// What `add` does: a refused order changes nothing and is answered
    /// `Rejected`. An order taken in is answered `Accepted`, gets the next
    /// id, is matched against the opposite side, and what is left of it
    /// comes to rest on its own side, announced by an `Add` update.
    pub open spec fn add(self, key: OrderInfo, side: Side, price: Price, qty: Quantity) -> AddResult {
        if self.refuses(key, price) {
            AddResult {
                book: self,
                responses: seq![refusal(ParticipantResponseType::Rejected, self.symbol_id, key)],
                updates: Seq::empty(),
            }
        } else {
            let taker = self.taker(key, side, price);
            let matched = run_match(self.chain(side.spec_opposite()), taker, qty);
            let traded = self.traded(key, side, price, qty);
            let responses = seq![accepted_response(taker, qty)] + matched.responses;
            if matched.remaining > 0 {
                AddResult {
                    book: traded.rested(side, price, key, taker.internal_order_id, matched.remaining),
                    responses,
                    updates: matched.updates.push(
                        add_update(taker, matched.remaining, next_priority_in(traded.chain(side), price)),
                    ),
                }
            } else {
                AddResult { book: traded, responses, updates: matched.updates }
            }
        }
    }

    /// What `cancel` does: a key that names no resting order changes
    /// nothing and is answered `CancelRejected`. Otherwise the order
    /// leaves the book, answered `Cancelled` and announced by a `Cancel`
    /// update, both with the terms it last had.
    pub open spec fn cancel(self, key: OrderInfo) -> CancelResult {
        if !self.is_live(key) {
            CancelResult {
                book: self,
                response: refusal(ParticipantResponseType::CancelRejected, self.symbol_id, key),
                update: None,
            }
        } else {
            let (side, i, j) = self.locate(key);
            let price = self.chain(side)[i].price;
            let order = self.resting(side, i, j);
            CancelResult {
                book: self.with_chain(side, remove_at(self.chain(side), i, j)),
                response: cancelled_response(self.symbol_id, side, price, order),
                update: Some(cancel_update(self.symbol_id, side, price, order)),
            }
        }
    }
}

} // verus!
