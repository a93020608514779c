use order_matching::common::Side;
use order_matching::market_data::market_update::{MarketUpdate, MarketUpdateType};
use order_matching::matching_engine::order::{Order, OrderAtPrice, OrderInfo};
use order_matching::order_server::participants_request::{ParticipantRequest, ParticipantRequestType};
use order_matching::order_server::participants_response::{ParticipantResponse, ParticipantResponseType};
use order_matching::text::push_decimal;

fn numeral(n: u64) -> String {
    let mut line = String::from("n=");
    push_decimal(&mut line, n);
    line
}

#[test]
fn numerals_are_decimal_without_leading_zeros() {
    assert_eq!(numeral(0), "n=0");
    assert_eq!(numeral(7), "n=7");
    assert_eq!(numeral(9), "n=9");
    assert_eq!(numeral(10), "n=10");
    assert_eq!(numeral(105), "n=105");
    assert_eq!(numeral(1234567890), "n=1234567890");
    assert_eq!(numeral(u64::MAX), "n=18446744073709551615");
    for n in [11u64, 99, 100, 1000, 40960, 999999, 18446744073709551614] {
        assert_eq!(numeral(n), format!("n={}", n));
    }
}

#[test]
fn market_update_line() {
    let update = MarketUpdate {
        update_type: MarketUpdateType::Trade,
        order_id: 12,
        symbol_id: 3,
        side: Side::Sell,
        price: 1005,
        qty: 40,
        priority: 7,
    };
    assert_eq!(update.to_line(), "MarketUpdate [type: TRADE, order:12, symb:3, side:SELL, price:1005, qty:40, prio:7]");
    assert_eq!(
        MarketUpdate::default().to_line(),
        "MarketUpdate [type: INVALID, order:18446744073709551615, symb:4294967295, side:INVALID, \
         price:18446744073709551615, qty:4294967295, prio:18446744073709551615]"
    );
}

#[test]
fn participant_request_line() {
    let request = ParticipantRequest {
        request_type: ParticipantRequestType::New,
        participant_id: 8,
        symbol_id: 0,
        order_id: 31,
        side: Side::Buy,
        price: 250,
    };
    assert_eq!(request.to_line(), "ParticipantRequest [type: NEW, ptid:8, symb:0, order:31, side:BUY, price:250]");
    assert_eq!(
        ParticipantRequest::default().to_line(),
        "ParticipantRequest [type: INVALID, ptid:4294967295, symb:4294967295, order:18446744073709551615, \
         side:INVALID, price:18446744073709551615]"
    );
}

#[test]
fn participant_response_line() {
    let response = ParticipantResponse {
        response_type: ParticipantResponseType::CancelRejected,
        participant_id: 8,
        symbol_id: 1,
        participant_order_id: 31,
        internal_order_id: 900,
        side: Side::Buy,
        price: 250,
        exec_qty: 4,
        leaves_qty: 6,
    };
    assert_eq!(
        response.to_line(),
        "ParticipantResponse [type: CANCEL-REJECTED, ptid: 8, symb: 1, poid: 31, ioid: 900, side: BUY, \
         exec_qty: 4, leaves_qty: 6, price: 250]"
    );
    let accepted = ParticipantResponse { response_type: ParticipantResponseType::Accepted, ..response };
    assert!(accepted.to_line().starts_with("ParticipantResponse [type: NEW, ptid: 8,"));
}

#[test]
fn order_lines() {
    let key = OrderInfo { participant_id: 2, order_id: 5 };
    assert_eq!(key.to_line(), "Participant ID: 2, Order ID: 5");
    let mut line = String::from("-> ");
    key.push_line(&mut line);
    assert_eq!(line, "-> Participant ID: 2, Order ID: 5");
    let order = Order {
        symbol_id: 1,
        order_info: key,
        internal_order_id: 77,
        side: Side::Buy,
        price: 100,
        qty: 10,
        priority: 3,
        prev_order_info: OrderInfo { participant_id: 4, order_id: 6 },
        next_order_info: OrderInfo { participant_id: 7, order_id: 8 },
    };
    assert_eq!(
        order.to_line(),
        "Order [symb: 1, order: Participant ID: 2, Order ID: 5, ioid: 77, side: BUY, price: 100, qty: 10, \
         priority: 3, prev: Participant ID: 4, Order ID: 6, next:Participant ID: 7, Order ID: 8]"
    );
    let level = OrderAtPrice { side: Side::Sell, price: 100, head_order_info: key, prev_idx: 256, next_idx: 0 };
    assert_eq!(
        level.to_line(),
        "Order [side: SELL, price: 100, head_order: Participant ID: 2, Order ID: 5, prev_id: 256, next_id: 0]"
    );
}
