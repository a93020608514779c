//! The engine: one order book per symbol and the two outbound queues.
//!
//! The engine decides; it does not transport. `run` takes one request,
//! lets the book of its symbol work and queues what the book emitted.
//! Whoever drives the engine hands requests in and carries the queued
//! events away.

use vstd::prelude::*;
use crate::common::{Quantity, Side, SymbolId, MAX_SYMBOL};
use crate::common::{INVALID_ORDER_ID, INVALID_PRICE, INVALID_QUANTITY};
use crate::market_data::market_update::MarketUpdate;
use crate::order_server::participants_request::{ParticipantRequest, ParticipantRequestType};
use crate::order_server::participants_response::{ParticipantResponse, ParticipantResponseType};
use crate::matching_engine::order::OrderInfo;
use crate::matching_engine::orderbook::OrderBook;
use crate::matching_engine::book_model::{BookModel, is_book_side, refusal};

verus! {

/// The engine as its books and the events queued for sending, oldest
/// first.
pub struct EngineModel {
    pub books: Seq<BookModel>,
    pub responses: Seq<ParticipantResponse>,
    pub updates: Seq<MarketUpdate>,
}

/// The key by which `request` names its order.
pub open spec fn request_key(request: ParticipantRequest) -> OrderInfo {
    OrderInfo { participant_id: request.participant_id, order_id: request.order_id }
}

impl EngineModel {
    /// Whether the engine trades `symbol_id`.
    pub open spec fn trades(self, symbol_id: SymbolId) -> bool {
        symbol_id < self.books.len()
    }

    /// The invariant of an engine: the book of each symbol is well formed
    /// and carries that symbol's id.
    pub open spec fn wf(self) -> bool {
        &&& self.books.len() == MAX_SYMBOL
        &&& forall|i: int|
            0 <= i < self.books.len() ==> (#[trigger] self.books[i]).wf() && self.books[i].symbol_id == i
    }

    /// Whether `run` accepts `request`: a new order for a traded symbol
    /// has a side.
    pub open spec fn admits(self, request: ParticipantRequest) -> bool {
        request.request_type == ParticipantRequestType::New && self.trades(request.symbol_id) ==> is_book_side(
            request.side,
        )
    }

    /// What `run` does with one request. A new order goes to `add` and a
    /// cancel to `cancel` of the book of the request's symbol, and what
    /// the book emitted is queued behind what was queued before. A
    /// request for a symbol that is not traded is answered `Rejected` or
    /// `CancelRejected`. A request of no kind is passed over.
    pub open spec fn run(self, request: ParticipantRequest, qty: Quantity) -> EngineModel {
        let key = request_key(request);
        let symbol = request.symbol_id as int;
        match request.request_type {
            ParticipantRequestType::New => if self.trades(request.symbol_id) {
                let added = self.books[symbol].add(key, request.side, request.price, qty);
                EngineModel {
                    books: self.books.update(symbol, added.book),
                    responses: self.responses + added.responses,
                    updates: self.updates + added.updates,
                }
            } else {
                EngineModel {
                    responses: self.responses.push(
                        refusal(ParticipantResponseType::Rejected, request.symbol_id, key),
                    ),
                    ..self
                }
            },
            ParticipantRequestType::Cancel => if self.trades(request.symbol_id) {
                let cancelled = self.books[symbol].cancel(key);
                EngineModel {
                    books: self.books.update(symbol, cancelled.book),
                    responses: self.responses.push(cancelled.response),
                    updates: match cancelled.update {
                        Some(update) => self.updates.push(update),
                        None => self.updates,
                    },
                }
            } else {
                EngineModel {
                    responses: self.responses.push(
                        refusal(ParticipantResponseType::CancelRejected, request.symbol_id, key),
                    ),
                    ..self
                }
            },
            ParticipantRequestType::Invalid => self,
        }
    }
}

/// The matching engine.
pub struct MatchingEngine {
    books: Vec<OrderBook>,
    participants_response: Vec<ParticipantResponse>,
    market_data_updates: Vec<MarketUpdate>,
}

impl View for MatchingEngine {
    type V = EngineModel;

    closed spec fn view(&self) -> EngineModel {
        EngineModel {
            books: Seq::new(self.books@.len(), |i: int| self.books@[i]@),
            responses: self.participants_response@,
            updates: self.market_data_updates@,
        }
    }
}

impl MatchingEngine {
    /// The engine's invariant: its books are well formed, one for each
    /// symbol.
    pub closed spec fn wf(&self) -> bool {
        &&& self@.wf()
        &&& forall|i: int| 0 <= i < self.books@.len() ==> (#[trigger] self.books@[i]).wf()
    }

    /// A well-formed engine has a well-formed model.
    pub proof fn lemma_wf(&self)
        requires
            self.wf(),
        ensures
            self@.wf(),
    {
    }

    /// Returns an engine with an empty book for each of the `MAX_SYMBOL`
    /// symbols and nothing queued.
    pub fn new() -> (engine: MatchingEngine)
        ensures
            engine.wf(),
            engine@.books == Seq::new(MAX_SYMBOL as nat, |i: int| BookModel::empty(i as u32)),
            engine@.responses == Seq::<ParticipantResponse>::empty(),
            engine@.updates == Seq::<MarketUpdate>::empty(),
    {
        let mut books: Vec<OrderBook> = Vec::new();
        let mut symbol: u32 = 0;
        while symbol < MAX_SYMBOL as u32
            invariant
                symbol <= MAX_SYMBOL,
                books@.len() == symbol,
                forall|i: int|
                    0 <= i < books@.len() ==> (#[trigger] books@[i]).wf() && books@[i]@ == BookModel::empty(i as u32),
            decreases MAX_SYMBOL - symbol,
        {
            books.push(OrderBook::new(symbol));
            symbol = symbol + 1;
        }
        let engine = MatchingEngine { books, participants_response: Vec::new(), market_data_updates: Vec::new() };
        proof {
            assert(engine@.books =~= Seq::new(MAX_SYMBOL as nat, |i: int| BookModel::empty(i as u32)));
            assert forall|i: int| 0 <= i < engine@.books.len() implies (#[trigger] engine@.books[i]).wf()
                && engine@.books[i].symbol_id == i by {
                engine.books@[i].lemma_wf();
            }
        }
        engine
    }

    /// Queues `response` for the participant it is addressed to.
    pub fn send_participant_response(&mut self, response: &ParticipantResponse)
        requires
            old(self).wf(),
        ensures
            final(self).wf(),
            final(self)@ == (EngineModel { responses: old(self)@.responses.push(*response), ..old(self)@ }),
    {
        self.participants_response.push(*response);
    }

    /// Queues `update` for the market-data feed.
    pub fn send_market_update(&mut self, update: &MarketUpdate)
        requires
            old(self).wf(),
        ensures
            final(self).wf(),
            final(self)@ == (EngineModel { updates: old(self)@.updates.push(*update), ..old(self)@ }),
    {
        self.market_data_updates.push(*update);
    }

    /// Handles one request, with the quantity that comes beside a new
    /// order: the book of the request's symbol takes it in and what the
    /// book emits is queued.
    pub fn run(&mut self, request: &ParticipantRequest, qty: Quantity)
        requires
            old(self).wf(),
            old(self)@.admits(*request),
        ensures
            final(self).wf(),
            final(self)@ == old(self)@.run(*request, qty),
    {
        let key = OrderInfo { participant_id: request.participant_id, order_id: request.order_id };
        let traded = request.symbol_id < MAX_SYMBOL as u32;
        let symbol = request.symbol_id as usize;
        let ghost before = self@;
        let ghost books0 = self.books@;
        match request.request_type {
            ParticipantRequestType::New => {
                if traded {
                    proof {
                        assert(before.books[symbol as int] == books0[symbol as int]@);
                    }
                    let (responses, updates) = self.books[symbol].add(key, request.side, request.price, qty);
                    proof {
                        self.books@[symbol as int].lemma_wf();
                        assert(self@.books =~= before.books.update(symbol as int, self.books@[symbol as int]@));
                        before.books[symbol as int].lemma_add_symbol(key, request.side, request.price, qty);
                    }
                    self.send_all(&responses, &updates);
                } else {
                    let response = rejection(ParticipantResponseType::Rejected, request.symbol_id, key);
                    self.send_participant_response(&response);
                }
            },
            ParticipantRequestType::Cancel => {
                if traded {
                    proof {
                        assert(before.books[symbol as int] == books0[symbol as int]@);
                    }
                    let (response, update) = self.books[symbol].cancel(key);
                    proof {
                        self.books@[symbol as int].lemma_wf();
                        assert(self@.books =~= before.books.update(symbol as int, self.books@[symbol as int]@));
                    }
                    self.send_participant_response(&response);
                    match update {
                        Some(update) => {
                            self.send_market_update(&update);
                        },
                        None => {},
                    }
                } else {
                    let response = rejection(ParticipantResponseType::CancelRejected, request.symbol_id, key);
                    self.send_participant_response(&response);
                }
            },
            ParticipantRequestType::Invalid => {},
        }
    }

    /// Queues `responses` and `updates`, each in its order.
    fn send_all(&mut self, responses: &Vec<ParticipantResponse>, updates: &Vec<MarketUpdate>)
        requires
            old(self).wf(),
        ensures
            final(self).wf(),
            final(self)@ == (EngineModel {
                responses: old(self)@.responses + responses@,
                updates: old(self)@.updates + updates@,
                ..old(self)@
            }),
    {
        let ghost before = self@;
        let mut i: usize = 0;
        while i < responses.len()
            invariant
                self.wf(),
                i <= responses@.len(),
                self@ == (EngineModel { responses: before.responses + responses@.take(i as int), ..before }),
            decreases responses@.len() - i,
        {
            self.send_participant_response(&responses[i]);
            proof {
                assert(before.responses + responses@.take(i as int + 1) =~= (before.responses + responses@.take(
                    i as int,
                )).push(responses@[i as int]));
            }
            i = i + 1;
        }
        proof {
            assert(responses@.take(i as int) =~= responses@);
        }
        let ghost middle = self@;
        let mut j: usize = 0;
        while j < updates.len()
            invariant
                self.wf(),
                j <= updates@.len(),
                self@ == (EngineModel { updates: middle.updates + updates@.take(j as int), ..middle }),
            decreases updates@.len() - j,
        {
            self.send_market_update(&updates[j]);
            proof {
                assert(middle.updates + updates@.take(j as int + 1) =~= (middle.updates + updates@.take(j as int)).push(
                    updates@[j as int],
                ));
            }
            j = j + 1;
        }
        proof {
            assert(updates@.take(j as int) =~= updates@);
        }
    }

    /// Hands over the participant responses queued so far, oldest first,
    /// and leaves the queue empty.
    pub fn take_participant_responses(&mut self) -> (responses: Vec<ParticipantResponse>)
        requires
            old(self).wf(),
        ensures
            final(self).wf(),
            responses@ == old(self)@.responses,
            final(self)@ == (EngineModel { responses: Seq::empty(), ..old(self)@ }),
    {
        let mut responses: Vec<ParticipantResponse> = Vec::new();
        std::mem::swap(&mut responses, &mut self.participants_response);
        responses
    }

    /// Hands over the market updates queued so far, oldest first, and
    /// leaves the queue empty.
    pub fn take_market_updates(&mut self) -> (updates: Vec<MarketUpdate>)
        requires
            old(self).wf(),
        ensures
            final(self).wf(),
            updates@ == old(self)@.updates,
            final(self)@ == (EngineModel { updates: Seq::empty(), ..old(self)@ }),
    {
        let mut updates: Vec<MarketUpdate> = Vec::new();
        std::mem::swap(&mut updates, &mut self.market_data_updates);
        updates
    }

    /// Returns the book of `symbol_id`.
    pub fn book(&self, symbol_id: SymbolId) -> (book: &OrderBook)
        requires
            self.wf(),
            self@.trades(symbol_id),
        ensures
            book.wf(),
            book@ == self@.books[symbol_id as int],
    {
        &self.books[symbol_id as usize]
    }
}

/// Returns the response of kind `response_type` to a request that was
/// refused: it names the request and leaves everything else unset.
pub fn rejection(response_type: ParticipantResponseType, symbol_id: SymbolId, key: OrderInfo) -> (response:
    ParticipantResponse)
    ensures
        response == refusal(response_type, symbol_id, key),
{
    ParticipantResponse {
        response_type,
        participant_id: key.participant_id,
        symbol_id,
        participant_order_id: key.order_id,
        internal_order_id: INVALID_ORDER_ID,
        side: Side::Invalid,
        price: INVALID_PRICE,
        exec_qty: INVALID_QUANTITY,
        leaves_qty: INVALID_QUANTITY,
    }
}

} // verus!
