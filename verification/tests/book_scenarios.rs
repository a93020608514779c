use order_matching::common::{Side, INVALID_ORDER_ID, INVALID_PRICE, INVALID_QUANTITY, MAX_PRICE_LEVELS};
use order_matching::market_data::market_update::{MarketUpdate, MarketUpdateType};
use order_matching::matching_engine::order::OrderInfo;
use order_matching::matching_engine::orderbook::OrderBook;
use order_matching::order_server::participants_response::{ParticipantResponse, ParticipantResponseType};

fn key(participant_id: u32, order_id: u64) -> OrderInfo {
    OrderInfo { participant_id, order_id }
}

fn fill(
    participant_id: u32,
    order_id: u64,
    internal_order_id: u64,
    side: Side,
    price: u64,
    exec_qty: u32,
    leaves_qty: u32,
) -> ParticipantResponse {
    ParticipantResponse {
        response_type: ParticipantResponseType::Filled,
        participant_id,
        symbol_id: 7,
        participant_order_id: order_id,
        internal_order_id,
        side,
        price,
        exec_qty,
        leaves_qty,
    }
}

#[test]
fn first_buy_rests_and_becomes_best_bid() {
    let mut book = OrderBook::new(7);
    let (responses, updates) = book.add(key(1, 1), Side::Buy, 100, 10);
    assert_eq!(
        responses,
        vec![ParticipantResponse {
            response_type: ParticipantResponseType::Accepted,
            participant_id: 1,
            symbol_id: 7,
            participant_order_id: 1,
            internal_order_id: 1,
            side: Side::Buy,
            price: 100,
            exec_qty: 0,
            leaves_qty: 10,
        }]
    );
    assert_eq!(
        updates,
        vec![MarketUpdate {
            update_type: MarketUpdateType::Add,
            order_id: 1,
            symbol_id: 7,
            side: Side::Buy,
            price: 100,
            qty: 10,
            priority: 1,
        }]
    );
    assert_eq!(book.best_bid_idx(), 100);
    assert_eq!(book.best_ask_idx(), MAX_PRICE_LEVELS);
    let level = book.get_order_at_price(100).unwrap();
    assert_eq!(level.price, 100);
    assert_eq!(level.side, Side::Buy);
    assert_eq!(level.head_order_info, key(1, 1));
}

#[test]
fn smaller_sell_fills_against_resting_buy() {
    let mut book = OrderBook::new(7);
    book.add(key(1, 1), Side::Buy, 100, 10);
    let (responses, updates) = book.add(key(2, 1), Side::Sell, 100, 4);
    assert_eq!(responses.len(), 3);
    assert_eq!(responses[0].response_type, ParticipantResponseType::Accepted);
    assert_eq!(responses[0].internal_order_id, 2);
    assert_eq!(responses[1], fill(2, 1, 2, Side::Sell, 100, 4, 0));
    assert_eq!(responses[2], fill(1, 1, 1, Side::Buy, 100, 4, 6));
    assert_eq!(
        updates,
        vec![MarketUpdate {
            update_type: MarketUpdateType::Trade,
            order_id: 1,
            symbol_id: 7,
            side: Side::Buy,
            price: 100,
            qty: 4,
            priority: 1,
        }]
    );
    assert_eq!(book.get_participant_order(key(2, 1)), None);
    assert_eq!(book.get_participant_order(key(1, 1)).unwrap().qty, 6);
    assert_eq!(book.best_bid_idx(), 100);
    assert_eq!(book.best_ask_idx(), MAX_PRICE_LEVELS);
}

#[test]
fn equal_sell_consumes_resting_buy_and_empties_the_side() {
    let mut book = OrderBook::new(7);
    book.add(key(1, 1), Side::Buy, 100, 10);
    let (responses, updates) = book.add(key(3, 1), Side::Sell, 100, 10);
    assert_eq!(responses.len(), 3);
    assert_eq!(responses[1], fill(3, 1, 2, Side::Sell, 100, 10, 0));
    assert_eq!(responses[2], fill(1, 1, 1, Side::Buy, 100, 10, 0));
    assert_eq!(updates.len(), 1);
    assert_eq!(updates[0].update_type, MarketUpdateType::Trade);
    assert_eq!(book.get_participant_order(key(1, 1)), None);
    assert_eq!(book.get_order_at_price(100), None);
    assert_eq!(book.best_bid_idx(), MAX_PRICE_LEVELS);
    assert_eq!(book.best_ask_idx(), MAX_PRICE_LEVELS);
}

#[test]
fn cancel_of_unknown_order_is_rejected() {
    let mut book = OrderBook::new(7);
    let (response, update) = book.cancel(key(9, 77));
    assert_eq!(
        response,
        ParticipantResponse {
            response_type: ParticipantResponseType::CancelRejected,
            participant_id: 9,
            symbol_id: 7,
            participant_order_id: 77,
            internal_order_id: INVALID_ORDER_ID,
            side: Side::Invalid,
            price: INVALID_PRICE,
            exec_qty: INVALID_QUANTITY,
            leaves_qty: INVALID_QUANTITY,
        }
    );
    assert_eq!(update, None);
}
