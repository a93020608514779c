use order_matching::common::{Side, INVALID_ORDER_ID, INVALID_PRICE, INVALID_QUANTITY, MAX_ORDER_IDS, MAX_PARTICIPANTS_NUMBER, MAX_PRICE_LEVELS};
use order_matching::market_data::market_update::{MarketUpdate, MarketUpdateType};
use order_matching::matching_engine::arena::ArenaError;
use order_matching::matching_engine::order::{Order, OrderInfo};
use order_matching::matching_engine::orderbook::{is_better, is_crossing, OrderBook};
use order_matching::order_server::participants_response::{ParticipantResponse, ParticipantResponseType};

fn named(participant_id: u32, order_id: u64) -> OrderInfo {
    OrderInfo { participant_id, order_id }
}

fn rejected(participant_id: u32, order_id: u64) -> ParticipantResponse {
    ParticipantResponse {
        response_type: ParticipantResponseType::Rejected,
        participant_id,
        symbol_id: 3,
        participant_order_id: order_id,
        internal_order_id: INVALID_ORDER_ID,
        side: Side::Invalid,
        price: INVALID_PRICE,
        exec_qty: INVALID_QUANTITY,
        leaves_qty: INVALID_QUANTITY,
    }
}

fn priorities_at(book: &OrderBook, price: u64) -> Vec<u64> {
    book.orders_at_price(price).iter().map(|order| order.priority).collect()
}

fn owners_at(book: &OrderBook, price: u64) -> Vec<OrderInfo> {
    book.orders_at_price(price).iter().map(|order| order.order_info).collect()
}

#[test]
fn priorities_rise_with_arrival_at_one_price() {
    let mut book = OrderBook::new(3);
    for order_id in 1..=5u64 {
        let (_, updates) = book.add(named(1, order_id), Side::Sell, 250, 10);
        assert_eq!(updates.len(), 1);
        assert_eq!(updates[0].update_type, MarketUpdateType::Add);
        assert_eq!(updates[0].priority, order_id);
    }
    assert_eq!(priorities_at(&book, 250), vec![1, 2, 3, 4, 5]);
    assert_eq!(book.get_next_priority(250), 6);
    assert_eq!(book.get_next_priority(251), 1);
}

#[test]
fn priority_goes_on_from_the_youngest_after_a_cancel() {
    let mut book = OrderBook::new(3);
    book.add(named(1, 1), Side::Buy, 90, 1);
    book.add(named(1, 2), Side::Buy, 90, 1);
    book.add(named(1, 3), Side::Buy, 90, 1);
    book.cancel(named(1, 2));
    assert_eq!(book.get_next_priority(90), 4);
    book.cancel(named(1, 3));
    assert_eq!(book.get_next_priority(90), 2);
    let (_, updates) = book.add(named(1, 4), Side::Buy, 90, 1);
    assert_eq!(updates[0].priority, 2);
    assert_eq!(priorities_at(&book, 90), vec![1, 2]);
}

#[test]
fn matching_takes_the_oldest_order_first() {
    let mut book = OrderBook::new(3);
    book.add(named(1, 1), Side::Sell, 100, 5);
    book.add(named(2, 1), Side::Sell, 100, 5);
    book.add(named(3, 1), Side::Sell, 100, 5);
    let (responses, updates) = book.add(named(4, 1), Side::Buy, 100, 7);
    assert_eq!(updates.len(), 2);
    assert_eq!(updates[0].order_id, 1);
    assert_eq!(updates[0].priority, 1);
    assert_eq!(updates[0].qty, 5);
    assert_eq!(updates[1].order_id, 2);
    assert_eq!(updates[1].priority, 2);
    assert_eq!(updates[1].qty, 2);
    assert_eq!(responses.len(), 5);
    assert_eq!(responses[2].participant_id, 1);
    assert_eq!(responses[2].leaves_qty, 0);
    assert_eq!(responses[4].participant_id, 2);
    assert_eq!(responses[4].leaves_qty, 3);
    assert_eq!(owners_at(&book, 100), vec![named(2, 1), named(3, 1)]);
    assert_eq!(book.get_participant_order(named(2, 1)).unwrap().qty, 3);
}

#[test]
fn bid_prices_fall_and_ask_prices_rise_from_the_best() {
    let mut book = OrderBook::new(3);
    let bids = [50u64, 70, 60, 10, 65, 70, 5];
    for (n, price) in bids.iter().enumerate() {
        book.add(named(1, n as u64), Side::Buy, *price, 1);
    }
    let asks = [120u64, 100, 110, 200, 105, 100, 80];
    for (n, price) in asks.iter().enumerate() {
        book.add(named(2, n as u64), Side::Sell, *price, 1);
    }
    assert_eq!(book.level_prices(Side::Buy), vec![70, 65, 60, 50, 10, 5]);
    assert_eq!(book.level_prices(Side::Sell), vec![80, 100, 105, 110, 120, 200]);
    assert_eq!(book.best_bid_idx(), 70);
    assert_eq!(book.best_ask_idx(), 80);
}

#[test]
fn level_ring_links_wrap_around() {
    let mut book = OrderBook::new(3);
    book.add(named(1, 1), Side::Buy, 50, 1);
    let alone = book.get_order_at_price(50).unwrap();
    assert_eq!((alone.prev_idx, alone.next_idx), (50, 50));
    book.add(named(1, 2), Side::Buy, 70, 1);
    book.add(named(1, 3), Side::Buy, 60, 1);
    let best = book.get_order_at_price(70).unwrap();
    let middle = book.get_order_at_price(60).unwrap();
    let worst = book.get_order_at_price(50).unwrap();
    assert_eq!((best.prev_idx, best.next_idx), (50, 60));
    assert_eq!((middle.prev_idx, middle.next_idx), (70, 50));
    assert_eq!((worst.prev_idx, worst.next_idx), (60, 70));
    book.cancel(named(1, 3));
    let best = book.get_order_at_price(70).unwrap();
    let worst = book.get_order_at_price(50).unwrap();
    assert_eq!((best.prev_idx, best.next_idx), (50, 50));
    assert_eq!((worst.prev_idx, worst.next_idx), (70, 70));
    assert_eq!(book.get_order_at_price(60), None);
}

#[test]
fn order_ring_links_wrap_around() {
    let mut book = OrderBook::new(3);
    book.add(named(1, 1), Side::Sell, 40, 1);
    let alone = book.get_participant_order(named(1, 1)).unwrap();
    assert_eq!(alone.prev_order_info, named(1, 1));
    assert_eq!(alone.next_order_info, named(1, 1));
    book.add(named(2, 1), Side::Sell, 40, 1);
    book.add(named(3, 1), Side::Sell, 40, 1);
    let head = book.get_participant_order(named(1, 1)).unwrap();
    let middle = book.get_participant_order(named(2, 1)).unwrap();
    let tail = book.get_participant_order(named(3, 1)).unwrap();
    assert_eq!((head.prev_order_info, head.next_order_info), (named(3, 1), named(2, 1)));
    assert_eq!((middle.prev_order_info, middle.next_order_info), (named(1, 1), named(3, 1)));
    assert_eq!((tail.prev_order_info, tail.next_order_info), (named(2, 1), named(1, 1)));
    book.cancel(named(1, 1));
    assert_eq!(book.get_order_at_price(40).unwrap().head_order_info, named(2, 1));
    let head = book.get_participant_order(named(2, 1)).unwrap();
    let tail = book.get_participant_order(named(3, 1)).unwrap();
    assert_eq!((head.prev_order_info, head.next_order_info), (named(3, 1), named(3, 1)));
    assert_eq!((tail.prev_order_info, tail.next_order_info), (named(2, 1), named(2, 1)));
}

#[test]
fn each_trade_executes_one_quantity_on_both_sides() {
    let mut book = OrderBook::new(3);
    book.add(named(1, 1), Side::Buy, 100, 3);
    book.add(named(1, 2), Side::Buy, 99, 4);
    book.add(named(1, 3), Side::Buy, 98, 5);
    let before: Vec<Order> = [100u64, 99, 98].iter().flat_map(|p| book.orders_at_price(*p)).collect();
    let (responses, updates) = book.add(named(2, 1), Side::Sell, 98, 10);
    assert_eq!(updates.len(), 3);
    assert_eq!(responses.len(), 1 + 2 * updates.len());
    let mut open = 10u32;
    for (k, update) in updates.iter().enumerate() {
        let incoming = responses[1 + 2 * k];
        let resting = responses[2 + 2 * k];
        assert_eq!(update.update_type, MarketUpdateType::Trade);
        assert_eq!(incoming.exec_qty, update.qty);
        assert_eq!(resting.exec_qty, update.qty);
        assert_eq!(incoming.participant_id, 2);
        assert_eq!(resting.internal_order_id, update.order_id);
        assert_eq!(resting.leaves_qty, before[k].qty - update.qty);
        open -= update.qty;
        assert_eq!(incoming.leaves_qty, open);
    }
    let traded: Vec<(u64, u32)> = updates.iter().map(|u| (u.price, u.qty)).collect();
    assert_eq!(traded, vec![(100, 3), (99, 4), (98, 3)]);
    assert_eq!(open, 0);
    assert_eq!(book.get_participant_order(named(1, 3)).unwrap().qty, 2);
    assert_eq!(book.get_participant_order(named(2, 1)), None);
    assert_eq!(book.level_prices(Side::Buy), vec![98]);
    assert_eq!(book.level_prices(Side::Sell), Vec::<u64>::new());
}

#[test]
fn what_is_left_of_an_order_rests_after_matching() {
    let mut book = OrderBook::new(3);
    book.add(named(1, 1), Side::Sell, 100, 3);
    book.add(named(1, 2), Side::Sell, 102, 4);
    let (responses, updates) = book.add(named(2, 1), Side::Buy, 101, 10);
    assert_eq!(responses.len(), 3);
    assert_eq!(responses[1].exec_qty, 3);
    assert_eq!(responses[1].leaves_qty, 7);
    assert_eq!(responses[1].price, 100);
    assert_eq!(
        updates[1],
        MarketUpdate {
            update_type: MarketUpdateType::Add,
            order_id: 3,
            symbol_id: 3,
            side: Side::Buy,
            price: 101,
            qty: 7,
            priority: 1,
        }
    );
    assert_eq!(book.level_prices(Side::Buy), vec![101]);
    assert_eq!(book.level_prices(Side::Sell), vec![102]);
    let rests = book.get_participant_order(named(2, 1)).unwrap();
    assert_eq!((rests.qty, rests.price, rests.internal_order_id), (7, 101, 3));
}

#[test]
fn the_book_is_never_crossed() {
    let mut book = OrderBook::new(3);
    let mut next = 0u64;
    let mut seed = 12345u64;
    for _ in 0..400 {
        seed = seed.wrapping_mul(6364136223846793005).wrapping_add(1442695040888963407);
        let price = 100 + (seed >> 33) % 20;
        let qty = 1 + ((seed >> 20) % 9) as u32;
        let side = if (seed >> 9) % 2 == 0 { Side::Buy } else { Side::Sell };
        if (seed >> 5) % 4 == 0 && next > 0 {
            book.cancel(named(1, (seed >> 40) % next));
        } else {
            book.add(named(1, next), side, price, qty);
            next += 1;
        }
        let bids = book.level_prices(Side::Buy);
        let asks = book.level_prices(Side::Sell);
        assert!(bids.windows(2).all(|w| w[0] > w[1]));
        assert!(asks.windows(2).all(|w| w[0] < w[1]));
        assert_eq!(book.best_price(Side::Buy), bids.first().copied());
        assert_eq!(book.best_price(Side::Sell), asks.first().copied());
        if let (Some(bid), Some(ask)) = (book.best_price(Side::Buy), book.best_price(Side::Sell)) {
            assert!(bid < ask);
        }
        for price in bids.iter().chain(asks.iter()) {
            let queue = book.orders_at_price(*price);
            assert!(!queue.is_empty());
            assert!(queue.windows(2).all(|w| w[0].priority < w[1].priority));
            assert!(queue.iter().all(|order| order.qty > 0));
        }
    }
}

#[test]
fn second_cancel_is_rejected_and_changes_nothing() {
    let mut book = OrderBook::new(3);
    book.add(named(1, 1), Side::Buy, 100, 10);
    book.add(named(1, 2), Side::Buy, 100, 20);
    book.add(named(1, 3), Side::Sell, 105, 30);
    let bids_before = book.level_prices(Side::Buy);
    let asks_before = book.level_prices(Side::Sell);
    let (accepted, _) = book.add(named(5, 9), Side::Buy, 101, 4);
    assert_eq!(accepted[0].response_type, ParticipantResponseType::Accepted);
    let (first, first_update) = book.cancel(named(5, 9));
    assert_eq!(
        first,
        ParticipantResponse {
            response_type: ParticipantResponseType::Cancelled,
            participant_id: 5,
            symbol_id: 3,
            participant_order_id: 9,
            internal_order_id: 4,
            side: Side::Buy,
            price: 101,
            exec_qty: INVALID_QUANTITY,
            leaves_qty: 4,
        }
    );
    assert_eq!(
        first_update,
        Some(MarketUpdate {
            update_type: MarketUpdateType::Cancel,
            order_id: 4,
            symbol_id: 3,
            side: Side::Buy,
            price: 101,
            qty: 4,
            priority: 1,
        })
    );
    let after_first = (book.level_prices(Side::Buy), book.level_prices(Side::Sell), book.orders_at_price(100));
    let (second, second_update) = book.cancel(named(5, 9));
    assert_eq!(second.response_type, ParticipantResponseType::CancelRejected);
    assert_eq!(second.internal_order_id, INVALID_ORDER_ID);
    assert_eq!(second.price, INVALID_PRICE);
    assert_eq!(second_update, None);
    let after_second = (book.level_prices(Side::Buy), book.level_prices(Side::Sell), book.orders_at_price(100));
    assert_eq!(after_first, after_second);
    assert_eq!(book.level_prices(Side::Buy), bids_before);
    assert_eq!(book.level_prices(Side::Sell), asks_before);
    assert_eq!(book.get_participant_order(named(5, 9)), None);
    assert_eq!(book.get_order_at_price(101), None);
}

#[test]
fn duplicate_key_is_rejected_without_a_trace() {
    let mut book = OrderBook::new(3);
    book.add(named(1, 1), Side::Buy, 100, 10);
    assert_eq!(book.check_add(named(1, 1), 100), Err(ArenaError::DuplicateOrder));
    let (responses, updates) = book.add(named(1, 1), Side::Sell, 100, 10);
    assert_eq!(responses, vec![rejected(1, 1)]);
    assert!(updates.is_empty());
    assert_eq!(book.get_participant_order(named(1, 1)).unwrap().qty, 10);
    let (responses, _) = book.add(named(1, 2), Side::Buy, 100, 10);
    assert_eq!(responses[0].internal_order_id, 2);
}

#[test]
fn key_out_of_bounds_is_rejected() {
    let mut book = OrderBook::new(3);
    let far_participant = named(MAX_PARTICIPANTS_NUMBER as u32, 0);
    let far_order = named(0, MAX_ORDER_IDS as u64);
    assert_eq!(book.check_add(far_participant, 100), Err(ArenaError::CapacityExceeded));
    assert_eq!(book.check_add(far_order, 100), Err(ArenaError::CapacityExceeded));
    let (responses, updates) = book.add(far_participant, Side::Buy, 100, 1);
    assert_eq!(responses, vec![rejected(MAX_PARTICIPANTS_NUMBER as u32, 0)]);
    assert!(updates.is_empty());
    let (responses, _) = book.add(far_order, Side::Buy, 100, 1);
    assert_eq!(responses, vec![rejected(0, MAX_ORDER_IDS as u64)]);
    assert_eq!(book.best_bid_idx(), MAX_PRICE_LEVELS);
    let last = named(MAX_PARTICIPANTS_NUMBER as u32 - 1, MAX_ORDER_IDS as u64 - 1);
    assert_eq!(book.check_add(last, 100), Ok(()));
    let (responses, _) = book.add(last, Side::Buy, 100, 1);
    assert_eq!(responses[0].response_type, ParticipantResponseType::Accepted);
    assert_eq!(responses[0].internal_order_id, 1);
    assert_eq!(book.get_participant_order(last).unwrap().qty, 1);
}

#[test]
fn price_in_a_taken_slot_is_rejected() {
    let mut book = OrderBook::new(3);
    book.add(named(1, 1), Side::Buy, 100, 10);
    assert_eq!(book.check_add(named(1, 2), 356), Err(ArenaError::CapacityExceeded));
    let (responses, updates) = book.add(named(1, 2), Side::Buy, 356, 10);
    assert_eq!(responses, vec![rejected(1, 2)]);
    assert!(updates.is_empty());
    let (responses, _) = book.add(named(1, 3), Side::Sell, 612, 10);
    assert_eq!(responses, vec![rejected(1, 3)]);
    assert_eq!(book.level_prices(Side::Buy), vec![100]);
    assert_eq!(book.get_order_at_price(356), None);
    book.cancel(named(1, 1));
    let (responses, _) = book.add(named(1, 2), Side::Buy, 356, 10);
    assert_eq!(responses[0].response_type, ParticipantResponseType::Accepted);
    assert_eq!(book.best_bid_idx(), 100);
    assert_eq!(book.get_order_at_price(356).unwrap().price, 356);
    assert_eq!(book.get_order_at_price(100), None);
}

#[test]
fn ids_start_at_one_and_are_never_reused() {
    let mut book = OrderBook::new(3);
    assert_eq!(book.generate_new_order_id(), 1);
    let (responses, _) = book.add(named(1, 1), Side::Buy, 100, 10);
    assert_eq!(responses[0].internal_order_id, 2);
    book.cancel(named(1, 1));
    let (responses, _) = book.add(named(1, 1), Side::Buy, 100, 10);
    assert_eq!(responses[0].internal_order_id, 3);
    let (responses, _) = book.add(named(1, 1), Side::Buy, 100, 10);
    assert_eq!(responses[0].response_type, ParticipantResponseType::Rejected);
    let (responses, _) = book.add(named(1, 2), Side::Buy, 100, 10);
    assert_eq!(responses[0].internal_order_id, 4);
}

#[test]
fn no_trade_beyond_the_limit() {
    let mut book = OrderBook::new(3);
    book.add(named(1, 1), Side::Sell, 101, 5);
    let (responses, updates) = book.add(named(2, 1), Side::Buy, 100, 5);
    assert_eq!(responses.len(), 1);
    assert_eq!(updates.len(), 1);
    assert_eq!(updates[0].update_type, MarketUpdateType::Add);
    assert_eq!(book.level_prices(Side::Buy), vec![100]);
    assert_eq!(book.level_prices(Side::Sell), vec![101]);
    let (responses, updates) = book.add(named(3, 1), Side::Sell, 100, 2);
    assert_eq!(responses.len(), 3);
    assert_eq!(updates.len(), 1);
    assert_eq!((updates[0].price, updates[0].qty, updates[0].side), (100, 2, Side::Buy));
}

#[test]
fn order_without_quantity_is_accepted_and_does_not_rest() {
    let mut book = OrderBook::new(3);
    book.add(named(1, 1), Side::Sell, 100, 5);
    let (responses, updates) = book.add(named(2, 1), Side::Buy, 100, 0);
    assert_eq!(responses.len(), 1);
    assert_eq!(responses[0].response_type, ParticipantResponseType::Accepted);
    assert_eq!(responses[0].leaves_qty, 0);
    assert!(updates.is_empty());
    assert_eq!(book.get_participant_order(named(2, 1)), None);
    assert_eq!(book.get_participant_order(named(1, 1)).unwrap().qty, 5);
}

#[test]
fn matching_alone_reports_what_is_left() {
    let mut book = OrderBook::new(3);
    book.add(named(1, 1), Side::Buy, 100, 5);
    book.add(named(1, 2), Side::Buy, 99, 5);
    let mut responses = Vec::new();
    let mut updates = Vec::new();
    let left = book.check_for_match(named(2, 1), Side::Sell, 100, 8, 77, &mut responses, &mut updates);
    assert_eq!(left, 3);
    assert_eq!(responses.len(), 2);
    assert_eq!(responses[0].internal_order_id, 77);
    assert_eq!(updates.len(), 1);
    assert_eq!(book.level_prices(Side::Buy), vec![99]);
    let left = book.check_for_match(named(2, 1), Side::Sell, 100, 3, 77, &mut responses, &mut updates);
    assert_eq!(left, 3);
    assert_eq!(responses.len(), 2);
}

#[test]
fn best_level_moves_on_when_it_empties() {
    let mut book = OrderBook::new(3);
    book.add(named(1, 1), Side::Sell, 100, 5);
    book.add(named(1, 2), Side::Sell, 101, 5);
    book.add(named(1, 3), Side::Sell, 102, 5);
    assert_eq!(book.best_ask_idx(), 100);
    book.cancel(named(1, 1));
    assert_eq!(book.best_ask_idx(), 101);
    book.cancel(named(1, 3));
    assert_eq!(book.best_ask_idx(), 101);
    assert_eq!(book.level_prices(Side::Sell), vec![101]);
    book.cancel(named(1, 2));
    assert_eq!(book.best_ask_idx(), MAX_PRICE_LEVELS);
    assert_eq!(book.symbol_id(), 3);
}

#[test]
fn price_comparisons_follow_the_side() {
    assert!(is_better(Side::Buy, 101, 100));
    assert!(!is_better(Side::Buy, 100, 100));
    assert!(!is_better(Side::Buy, 99, 100));
    assert!(is_better(Side::Sell, 99, 100));
    assert!(!is_better(Side::Sell, 100, 100));
    assert!(!is_better(Side::Sell, 101, 100));
    assert!(is_crossing(Side::Buy, 100, 100));
    assert!(is_crossing(Side::Buy, 100, 99));
    assert!(!is_crossing(Side::Buy, 100, 101));
    assert!(is_crossing(Side::Sell, 100, 100));
    assert!(is_crossing(Side::Sell, 100, 101));
    assert!(!is_crossing(Side::Sell, 100, 99));
}
