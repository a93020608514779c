use order_matching::common::{Side, INVALID_ORDER_ID, INVALID_PRICE, INVALID_QUANTITY, MAX_PRICE_LEVELS, MAX_SYMBOL};
use order_matching::market_data::market_update::{MarketUpdate, MarketUpdateType};
use order_matching::matching_engine::matching_engine::{rejection, MatchingEngine};
use order_matching::matching_engine::order::OrderInfo;
use order_matching::order_server::participants_request::{ParticipantRequest, ParticipantRequestType};
use order_matching::order_server::participants_response::{ParticipantResponse, ParticipantResponseType};

fn new_order(participant_id: u32, symbol_id: u32, order_id: u64, side: Side, price: u64) -> ParticipantRequest {
    ParticipantRequest { request_type: ParticipantRequestType::New, participant_id, symbol_id, order_id, side, price }
}

fn cancel_of(participant_id: u32, symbol_id: u32, order_id: u64) -> ParticipantRequest {
    ParticipantRequest {
        request_type: ParticipantRequestType::Cancel,
        participant_id,
        symbol_id,
        order_id,
        side: Side::Invalid,
        price: INVALID_PRICE,
    }
}

#[test]
fn new_engine_has_an_empty_book_for_each_symbol() {
    let mut engine = MatchingEngine::new();
    for symbol_id in 0..MAX_SYMBOL as u32 {
        let book = engine.book(symbol_id);
        assert_eq!(book.symbol_id(), symbol_id);
        assert_eq!(book.best_bid_idx(), MAX_PRICE_LEVELS);
        assert_eq!(book.best_ask_idx(), MAX_PRICE_LEVELS);
    }
    assert!(engine.take_participant_responses().is_empty());
    assert!(engine.take_market_updates().is_empty());
}

#[test]
fn requests_reach_the_book_of_their_symbol() {
    let mut engine = MatchingEngine::new();
    engine.run(&new_order(1, 2, 1, Side::Buy, 100), 10);
    engine.run(&new_order(1, 5, 1, Side::Sell, 100), 10);
    assert_eq!(engine.book(2).level_prices(Side::Buy), vec![100]);
    assert_eq!(engine.book(2).level_prices(Side::Sell), Vec::<u64>::new());
    assert_eq!(engine.book(5).level_prices(Side::Sell), vec![100]);
    assert_eq!(engine.book(5).level_prices(Side::Buy), Vec::<u64>::new());
    assert_eq!(engine.book(0).best_bid_idx(), MAX_PRICE_LEVELS);
    let responses = engine.take_participant_responses();
    assert_eq!(responses.len(), 2);
    assert_eq!((responses[0].symbol_id, responses[0].internal_order_id), (2, 1));
    assert_eq!((responses[1].symbol_id, responses[1].internal_order_id), (5, 1));
    let updates = engine.take_market_updates();
    assert_eq!(updates.len(), 2);
    assert_eq!((updates[0].symbol_id, updates[0].side), (2, Side::Buy));
    assert_eq!((updates[1].symbol_id, updates[1].side), (5, Side::Sell));
}

#[test]
fn events_queue_in_the_order_of_the_requests() {
    let mut engine = MatchingEngine::new();
    engine.run(&new_order(1, 0, 1, Side::Buy, 100), 10);
    engine.run(&new_order(2, 0, 1, Side::Sell, 100), 4);
    engine.run(&cancel_of(1, 0, 1), 0);
    engine.run(&cancel_of(1, 0, 1), 0);
    let kinds: Vec<ParticipantResponseType> =
        engine.take_participant_responses().iter().map(|r| r.response_type).collect();
    assert_eq!(
        kinds,
        vec![
            ParticipantResponseType::Accepted,
            ParticipantResponseType::Accepted,
            ParticipantResponseType::Filled,
            ParticipantResponseType::Filled,
            ParticipantResponseType::Cancelled,
            ParticipantResponseType::CancelRejected,
        ]
    );
    let updates = engine.take_market_updates();
    let kinds: Vec<(MarketUpdateType, u32)> = updates.iter().map(|u| (u.update_type, u.qty)).collect();
    assert_eq!(
        kinds,
        vec![(MarketUpdateType::Add, 10), (MarketUpdateType::Trade, 4), (MarketUpdateType::Cancel, 6)]
    );
    assert!(engine.take_participant_responses().is_empty());
    assert!(engine.take_market_updates().is_empty());
}

#[test]
fn request_for_an_unknown_symbol_is_refused() {
    let mut engine = MatchingEngine::new();
    engine.run(&new_order(1, MAX_SYMBOL as u32, 1, Side::Buy, 100), 10);
    engine.run(&cancel_of(1, 900, 4), 0);
    let responses = engine.take_participant_responses();
    assert_eq!(
        responses,
        vec![
            rejection(
                ParticipantResponseType::Rejected,
                MAX_SYMBOL as u32,
                OrderInfo { participant_id: 1, order_id: 1 }
            ),
            rejection(ParticipantResponseType::CancelRejected, 900, OrderInfo { participant_id: 1, order_id: 4 }),
        ]
    );
    assert!(engine.take_market_updates().is_empty());
}

#[test]
fn request_of_no_kind_is_passed_over() {
    let mut engine = MatchingEngine::new();
    engine.run(&ParticipantRequest::default(), 5);
    let unset = ParticipantRequest { symbol_id: 1, ..ParticipantRequest::default() };
    engine.run(&unset, 5);
    assert!(engine.take_participant_responses().is_empty());
    assert!(engine.take_market_updates().is_empty());
    assert_eq!(engine.book(1).best_bid_idx(), MAX_PRICE_LEVELS);
}

#[test]
fn rejection_names_the_request_and_nothing_else() {
    assert_eq!(
        rejection(ParticipantResponseType::CancelRejected, 6, OrderInfo { participant_id: 9, order_id: 77 }),
        ParticipantResponse {
            response_type: ParticipantResponseType::CancelRejected,
            participant_id: 9,
            symbol_id: 6,
            participant_order_id: 77,
            internal_order_id: INVALID_ORDER_ID,
            side: Side::Invalid,
            price: INVALID_PRICE,
            exec_qty: INVALID_QUANTITY,
            leaves_qty: INVALID_QUANTITY,
        }
    );
}

#[test]
fn events_handed_to_the_engine_are_queued_as_they_are() {
    let mut engine = MatchingEngine::new();
    let response = ParticipantResponse { participant_id: 4, ..ParticipantResponse::default() };
    let update = MarketUpdate { qty: 12, ..MarketUpdate::default() };
    engine.send_participant_response(&response);
    engine.send_market_update(&update);
    engine.send_market_update(&MarketUpdate::default());
    assert_eq!(engine.take_participant_responses(), vec![response]);
    assert_eq!(engine.take_market_updates(), vec![update, MarketUpdate::default()]);
}
