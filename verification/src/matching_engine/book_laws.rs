//! Laws of the order book, stated over its model and proved.

use vstd::prelude::*;
use crate::common::{Side, Price, Quantity};
use crate::market_data::market_update::{MarketUpdate, MarketUpdateType};
use crate::order_server::participants_response::ParticipantResponseType;
use crate::matching_engine::order::OrderInfo;
use crate::matching_engine::book_model::{BookModel, Level, Resting, Taker, is_book_side, better, chain_wf, queue_wf, can_match, run_match, fill_head, trade_qty, trade_update, add_update, has_price};

verus! {

/// One request to a book.
pub enum BookOp {
    /// A new order with these terms.
    Add { key: OrderInfo, side: Side, price: Price, qty: Quantity },
    /// The withdrawal of the order that `key` names.
    Cancel { key: OrderInfo },
}

/// Whether a book takes `op`: a new order has a side.
pub open spec fn op_admitted(op: BookOp) -> bool {
    match op {
        BookOp::Add { side, .. } => is_book_side(side),
        BookOp::Cancel { .. } => true,
    }
}

/// The book after `op`.
pub open spec fn apply(book: BookModel, op: BookOp) -> BookModel {
    match op {
        BookOp::Add { key, side, price, qty } => book.add(key, side, price, qty).book,
        BookOp::Cancel { key } => book.cancel(key).book,
    }
}

/// The book after the requests `ops`, taken in order.
pub open spec fn replay(book: BookModel, ops: Seq<BookOp>) -> BookModel
    decreases ops.len(),
{
    if ops.len() == 0 {
        book
    } else {
        apply(replay(book, ops.drop_last()), ops.last())
    }
}

/// The sum of the quantities that `updates` report.
pub open spec fn traded_total(updates: Seq<MarketUpdate>) -> int
    decreases updates.len(),
{
    if updates.len() == 0 {
        0
    } else {
        updates[0].qty + traded_total(updates.skip(1))
    }
}

/// The sum of the quantities open in `queue`.
pub open spec fn queue_total(queue: Seq<Resting>) -> int
    decreases queue.len(),
{
    if queue.len() == 0 {
        0
    } else {
        queue[0].qty + queue_total(queue.skip(1))
    }
}

/// The sum of the quantities open in `chain`.
pub open spec fn chain_total(chain: Seq<Level>) -> int
    decreases chain.len(),
{
    if chain.len() == 0 {
        0
    } else {
        queue_total(chain[0].queue) + chain_total(chain.skip(1))
    }
}

/// A book without orders is well formed.
pub proof fn law_empty_wf(symbol_id: u32)
    ensures
        BookModel::empty(symbol_id).wf(),
{
}

/// Whatever requests a well-formed book has taken, it is well formed.
pub proof fn law_replay_wf(book: BookModel, ops: Seq<BookOp>)
    requires
        book.wf(),
        forall|k: int| 0 <= k < ops.len() ==> op_admitted(#[trigger] ops[k]),
    ensures
        replay(book, ops).wf(),
    decreases ops.len(),
{
    if ops.len() > 0 {
        law_replay_wf(book, ops.drop_last());
        let before = replay(book, ops.drop_last());
        assert(op_admitted(ops[ops.len() - 1]));
        match ops.last() {
            BookOp::Add { key, side, price, qty } => {
                before.lemma_add_wf(key, side, price, qty);
            },
            BookOp::Cancel { key } => {
                before.lemma_cancel_wf(key);
            },
        }
    }
}

/// Walking the bids of a well-formed book from the best one yields
/// strictly falling prices; walking its asks, strictly rising prices.
pub proof fn law_prices_ordered(book: BookModel)
    requires
        book.wf(),
    ensures
        forall|i: int, j: int| 0 <= i < j < book.bids.len() ==> book.bids[i].price > book.bids[j].price,
        forall|i: int, j: int| 0 <= i < j < book.asks.len() ==> book.asks[i].price < book.asks[j].price,
{
    assert forall|i: int, j: int| 0 <= i < j < book.bids.len() implies book.bids[i].price > book.bids[j].price by {
        assert(better(Side::Buy, book.bids[i].price, book.bids[j].price));
    }
    assert forall|i: int, j: int| 0 <= i < j < book.asks.len() implies book.asks[i].price < book.asks[j].price by {
        assert(better(Side::Sell, book.asks[i].price, book.asks[j].price));
    }
}

/// A well-formed book is not crossed: its best bid is below its best
/// ask, and so is every bid below every ask.
pub proof fn law_not_crossed(book: BookModel)
    requires
        book.wf(),
    ensures
        book.best_price(Side::Buy).is_some() && book.best_price(Side::Sell).is_some() ==> book.best_price(
            Side::Buy,
        ).unwrap() < book.best_price(Side::Sell).unwrap(),
        forall|i: int, j: int|
            0 <= i < book.bids.len() && 0 <= j < book.asks.len() ==> book.bids[i].price < book.asks[j].price,
{
    assert forall|i: int, j: int| 0 <= i < book.bids.len() && 0 <= j < book.asks.len() implies book.bids[i].price
        < book.asks[j].price by {
        book.lemma_sides_apart(i, j);
    }
}

/// Priorities rise along every queue of a well-formed book, from the
/// oldest order to the youngest.
pub proof fn law_priorities_ordered(book: BookModel, side: Side, i: int)
    requires
        book.wf(),
        book.has_level(side, i),
    ensures
        forall|a: int, b: int|
            0 <= a < b < book.chain(side)[i].queue.len() ==> book.chain(side)[i].queue[a].priority < book.chain(
                side,
            )[i].queue[b].priority,
{
    let queue = book.chain(side)[i].queue;
    assert(queue_wf(queue));
    assert forall|a: int, b: int| 0 <= a < b < queue.len() implies queue[a].priority < queue[b].priority by {}
}

/// An order that comes to rest joins the tail of the queue at its price
/// with a priority above that of every order it finds there, and the
/// `Add` update announces it with that priority.
pub proof fn law_priority_rises(book: BookModel, key: OrderInfo, side: Side, price: Price, qty: Quantity)
    requires
        book.wf(),
        is_book_side(side),
        !book.refuses(key, price),
        run_match(book.chain(side.spec_opposite()), book.taker(key, side, price), qty).remaining > 0,
    ensures
        ({
            let result = book.add(key, side, price, qty);
            let left = run_match(book.chain(side.spec_opposite()), book.taker(key, side, price), qty).remaining;
            let (i, j) = book.traded(key, side, price, qty).rest_spot(side, price);
            let queue = result.book.chain(side)[i].queue;
            &&& result.book.has(side, i, j)
            &&& result.book.chain(side)[i].price == price
            &&& j == queue.len() - 1
            &&& queue[j].key == key
            &&& queue[j].internal_order_id == book.next_internal_order_id
            &&& queue[j].qty == left
            &&& forall|b: int| 0 <= b < j ==> (#[trigger] queue[b]).priority < queue[j].priority
            &&& result.updates.len() > 0
            &&& result.updates.last() == add_update(book.taker(key, side, price), left, queue[j].priority)
        }),
{
    let result = book.add(key, side, price, qty);
    let left = run_match(book.chain(side.spec_opposite()), book.taker(key, side, price), qty).remaining;
    let traded = book.traded(key, side, price, qty);
    book.lemma_traded_wf(key, side, price, qty);
    traded.lemma_rested_wf(side, price, key, book.next_internal_order_id, left);
    traded.lemma_rested_spots(side, price, key, book.next_internal_order_id, left);
    let (i, j) = traded.rest_spot(side, price);
    assert(result.book == traded.rested(side, price, key, book.next_internal_order_id, left));
    let queue = result.book.chain(side)[i].queue;
    assert(result.book.has_level(side, i));
    assert(queue_wf(queue));
    assert forall|b: int| 0 <= b < j implies (#[trigger] queue[b]).priority < queue[j].priority by {}
}

/// A trade is made with the oldest order of the best opposite level: no
/// order of that level has a lower priority and no level a better price.
pub proof fn law_match_takes_oldest(chain: Seq<Level>, taker: Taker, remaining: Quantity)
    requires
        is_book_side(taker.side),
        chain_wf(taker.side.spec_opposite(), chain),
        can_match(chain, taker.side, taker.price, remaining),
    ensures
        run_match(chain, taker, remaining).updates.len() > 0,
        run_match(chain, taker, remaining).updates[0] == trade_update(
            taker.symbol_id,
            chain[0].queue[0],
            taker.side.spec_opposite(),
            chain[0].price,
            trade_qty(remaining, chain[0].queue[0].qty),
        ),
        forall|b: int| 0 <= b < chain[0].queue.len() ==> chain[0].queue[0].priority <= (#[trigger] chain[0].queue[b]).priority,
        forall|i: int| 0 <= i < chain.len() ==> !better(taker.side.spec_opposite(), (#[trigger] chain[i]).price, chain[0].price),
{
    assert(queue_wf(chain[0].queue));
    assert forall|b: int| 0 <= b < chain[0].queue.len() implies chain[0].queue[0].priority <= (
    #[trigger] chain[0].queue[b]).priority by {
        if b > 0 {
            assert(chain[0].queue[0].priority < chain[0].queue[b].priority);
        }
    }
    assert forall|i: int| 0 <= i < chain.len() implies !better(
        taker.side.spec_opposite(),
        (#[trigger] chain[i]).price,
        chain[0].price,
    ) by {
        if i > 0 {
            assert(better(taker.side.spec_opposite(), chain[0].price, chain[i].price));
        }
    }
}

/// In one trade both orders execute the same quantity, the one that the
/// trade update reports, and each has exactly that much less open.
pub proof fn law_trade_conserves(chain: Seq<Level>, taker: Taker, remaining: Quantity)
    requires
        can_match(chain, taker.side, taker.price, remaining),
    ensures
        ({
            let result = run_match(chain, taker, remaining);
            let maker = chain[0].queue[0];
            let traded = trade_qty(remaining, maker.qty);
            let after = fill_head(chain, traded);
            let rest = run_match(after, taker, (remaining - traded) as u32);
            &&& 0 < traded <= remaining
            &&& traded <= maker.qty
            &&& result.responses.len() >= 2
            &&& result.updates.len() >= 1
            &&& result.responses[0].exec_qty == traded
            &&& result.responses[1].exec_qty == traded
            &&& result.updates[0].qty == traded
            &&& result.responses[0].leaves_qty == remaining - traded
            &&& result.responses[1].leaves_qty == maker.qty - traded
            &&& traded < maker.qty ==> after[0].queue[0] == (Resting { qty: (maker.qty - traded) as u32, ..maker })
            &&& result.responses.skip(2) == rest.responses
            &&& result.updates.skip(1) == rest.updates
            &&& result.remaining == rest.remaining
            &&& result.chain == rest.chain
        }),
{
    let result = run_match(chain, taker, remaining);
    let maker = chain[0].queue[0];
    let traded = trade_qty(remaining, maker.qty);
    let rest = run_match(fill_head(chain, traded), taker, (remaining - traded) as u32);
    assert(result.responses.skip(2) =~= rest.responses);
    assert(result.updates.skip(1) =~= rest.updates);
}

/// Matching reports every trade three times with one quantity: in a
/// fill for the incoming order, in a fill for the resting order and in
/// a trade update.
pub proof fn law_fills_pair_up(chain: Seq<Level>, taker: Taker, remaining: Quantity)
    ensures
        ({
            let result = run_match(chain, taker, remaining);
            &&& result.responses.len() == 2 * result.updates.len()
            &&& forall|k: int|
                0 <= k < result.updates.len() ==> {
                    &&& (#[trigger] result.updates[k]).update_type == MarketUpdateType::Trade
                    &&& result.responses[2 * k].response_type == ParticipantResponseType::Filled
                    &&& result.responses[2 * k + 1].response_type == ParticipantResponseType::Filled
                    &&& result.responses[2 * k].participant_id == taker.key.participant_id
                    &&& result.responses[2 * k].participant_order_id == taker.key.order_id
                    &&& result.responses[2 * k].exec_qty == result.updates[k].qty
                    &&& result.responses[2 * k + 1].exec_qty == result.updates[k].qty
                    &&& result.responses[2 * k + 1].internal_order_id == result.updates[k].order_id
                }
        }),
    decreases remaining,
{
    let result = run_match(chain, taker, remaining);
    if can_match(chain, taker.side, taker.price, remaining) {
        let traded = trade_qty(remaining, chain[0].queue[0].qty);
        let rest = run_match(fill_head(chain, traded), taker, (remaining - traded) as u32);
        law_fills_pair_up(fill_head(chain, traded), taker, (remaining - traded) as u32);
        assert forall|k: int| 0 <= k < result.updates.len() implies {
            &&& (#[trigger] result.updates[k]).update_type == MarketUpdateType::Trade
            &&& result.responses[2 * k].response_type == ParticipantResponseType::Filled
            &&& result.responses[2 * k + 1].response_type == ParticipantResponseType::Filled
            &&& result.responses[2 * k].participant_id == taker.key.participant_id
            &&& result.responses[2 * k].participant_order_id == taker.key.order_id
            &&& result.responses[2 * k].exec_qty == result.updates[k].qty
            &&& result.responses[2 * k + 1].exec_qty == result.updates[k].qty
            &&& result.responses[2 * k + 1].internal_order_id == result.updates[k].order_id
        } by {
            if k > 0 {
                assert(result.updates[k] == rest.updates[k - 1]);
                assert(result.responses[2 * k] == rest.responses[2 * (k - 1)]);
                assert(result.responses[2 * k + 1] == rest.responses[2 * (k - 1) + 1]);
            }
        }
    }
}

/// Matching conserves quantity: what the trade updates report adds up to
/// what the incoming order has less open, and to what the opposite side
/// has less open.
pub proof fn law_quantity_conserved(chain: Seq<Level>, taker: Taker, remaining: Quantity)
    ensures
        ({
            let result = run_match(chain, taker, remaining);
            &&& traded_total(result.updates) == remaining - result.remaining
            &&& chain_total(chain) - chain_total(result.chain) == remaining - result.remaining
        }),
    decreases remaining,
{
    let result = run_match(chain, taker, remaining);
    if can_match(chain, taker.side, taker.price, remaining) {
        let maker = chain[0].queue[0];
        let traded = trade_qty(remaining, maker.qty);
        let after = fill_head(chain, traded);
        let rest = run_match(after, taker, (remaining - traded) as u32);
        law_quantity_conserved(after, taker, (remaining - traded) as u32);
        assert(result.updates.skip(1) =~= rest.updates);
        assert(chain_total(after) == chain_total(chain) - traded) by {
            let queue = chain[0].queue;
            assert(chain_total(chain) == queue_total(queue) + chain_total(chain.skip(1)));
            assert(queue_total(queue) == maker.qty + queue_total(queue.skip(1)));
            if traded == maker.qty {
                if queue.len() == 1 {
                    assert(after =~= chain.skip(1));
                    assert(queue_total(queue.skip(1)) == 0);
                } else {
                    assert(after.skip(1) =~= chain.skip(1));
                    assert(after[0].queue =~= queue.skip(1));
                    assert(chain_total(after) == queue_total(after[0].queue) + chain_total(after.skip(1)));
                }
            } else {
                assert(after.skip(1) =~= chain.skip(1));
                assert(after[0].queue.skip(1) =~= queue.skip(1));
                assert(chain_total(after) == queue_total(after[0].queue) + chain_total(after.skip(1)));
                assert(queue_total(after[0].queue) == after[0].queue[0].qty + queue_total(after[0].queue.skip(1)));
            }
        }
    }
}

/// A second cancel of the same order is rejected, emits no update and
/// changes nothing; the first one is answered `Cancelled` exactly when
/// the order rests in the book.
pub proof fn law_cancel_twice(book: BookModel, key: OrderInfo)
    requires
        book.wf(),
    ensures
        ({
            let first = book.cancel(key);
            let second = first.book.cancel(key);
            &&& book.is_live(key) <==> first.response.response_type == ParticipantResponseType::Cancelled
            &&& !book.is_live(key) <==> first.response.response_type == ParticipantResponseType::CancelRejected
            &&& second.response.response_type == ParticipantResponseType::CancelRejected
            &&& second.update.is_none()
            &&& second.book == first.book
        }),
{
    if book.is_live(key) {
        let (side, i, j) = book.locate(key);
        book.lemma_without_wf(side, i, j);
    }
}

/// An order that comes to rest whole and is cancelled at once leaves the
/// levels and queues of the book as they were before it came.
pub proof fn law_rest_then_cancel(book: BookModel, key: OrderInfo, side: Side, price: Price, qty: Quantity)
    requires
        book.wf(),
        is_book_side(side),
        !book.refuses(key, price),
        qty > 0,
        !can_match(book.chain(side.spec_opposite()), side, price, qty),
    ensures
        ({
            let added = book.add(key, side, price, qty);
            let cancelled = added.book.cancel(key);
            &&& added.responses.len() == 1
            &&& added.responses[0].response_type == ParticipantResponseType::Accepted
            &&& cancelled.response.response_type == ParticipantResponseType::Cancelled
            &&& cancelled.response.leaves_qty == qty
            &&& cancelled.book.bids == book.bids
            &&& cancelled.book.asks == book.asks
        }),
{
    let added = book.add(key, side, price, qty);
    let traded = book.traded(key, side, price, qty);
    let id = book.next_internal_order_id;
    book.lemma_traded_wf(key, side, price, qty);
    assert(traded.chain(side) == book.chain(side));
    assert(traded.chain(side.spec_opposite()) == book.chain(side.spec_opposite()));
    traded.lemma_rested_wf(side, price, key, id, qty);
    traded.lemma_rested_spots(side, price, key, id, qty);
    let rested = traded.rested(side, price, key, id, qty);
    assert(added.book == rested);
    let (i, j) = traded.rest_spot(side, price);
    let (s2, i2, j2) = rested.locate(key);
    assert(rested.has(s2, i2, j2) && rested.resting(s2, i2, j2).key == key);
    assert(rested.has(side, i, j) && rested.resting(side, i, j).key == key);
    assert((s2, i2, j2) == (side, i, j));
    let chain = traded.chain(side);
    let chain2 = rested.chain(side);
    if has_price(chain, price) {
        assert(chain2[i].queue.remove(j) =~= chain[i].queue);
        assert(chain2.update(i, Level { price: chain2[i].price, queue: chain2[i].queue.remove(j) }) =~= chain);
    } else {
        assert(chain2.remove(i) =~= chain);
    }
}

} // verus!
