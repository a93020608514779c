use order_matching::common::{
    Side, INVALID_ORDER_ID, INVALID_PARTICIPANT_ID, INVALID_PRICE, INVALID_PRIORITY, INVALID_QUANTITY,
    INVALID_SYMBOL_ID, MAX_MARKET_UPDATES, MAX_ORDER_IDS, MAX_PARTICIPANTS_NUMBER, MAX_PARTICIPANTS_UPDATES,
    MAX_PRICE_LEVELS, MAX_SYMBOL,
};
use order_matching::market_data::market_update::{MarketUpdate, MarketUpdateType};
use order_matching::matching_engine::order::{Order, OrderAtPrice, OrderInfo};
use order_matching::order_server::participants_request::{ParticipantRequest, ParticipantRequestType};
use order_matching::order_server::participants_response::{ParticipantResponse, ParticipantResponseType};

#[test]
fn sentinels_are_the_largest_values() {
    assert_eq!(INVALID_ORDER_ID, u64::MAX);
    assert_eq!(INVALID_SYMBOL_ID, u32::MAX);
    assert_eq!(INVALID_PARTICIPANT_ID, u32::MAX);
    assert_eq!(INVALID_PRICE, u64::MAX);
    assert_eq!(INVALID_QUANTITY, u32::MAX);
    assert_eq!(INVALID_PRIORITY, u64::MAX);
}

#[test]
fn capacity_bounds_have_their_declared_values() {
    assert_eq!(MAX_SYMBOL, 8);
    assert_eq!(MAX_PARTICIPANTS_UPDATES, 262144);
    assert_eq!(MAX_MARKET_UPDATES, 262144);
    assert_eq!(MAX_PARTICIPANTS_NUMBER, 256);
    assert_eq!(MAX_ORDER_IDS, 1048576);
    assert_eq!(MAX_PRICE_LEVELS, 256);
}

#[test]
fn sides_have_labels_and_opposites() {
    assert_eq!(Side::Buy.label(), "BUY");
    assert_eq!(Side::Sell.label(), "SELL");
    assert_eq!(Side::Invalid.label(), "INVALID");
    assert_eq!(Side::Buy.opposite(), Side::Sell);
    assert_eq!(Side::Sell.opposite(), Side::Buy);
    assert_eq!(Side::Invalid.opposite(), Side::Invalid);
}

#[test]
fn kinds_have_labels() {
    assert_eq!(MarketUpdateType::Add.label(), "ADD");
    assert_eq!(MarketUpdateType::Modify.label(), "MODIFY");
    assert_eq!(MarketUpdateType::Cancel.label(), "CANCEL");
    assert_eq!(MarketUpdateType::Trade.label(), "TRADE");
    assert_eq!(MarketUpdateType::Invalid.label(), "INVALID");
    assert_eq!(ParticipantRequestType::New.label(), "NEW");
    assert_eq!(ParticipantRequestType::Cancel.label(), "CANCEL");
    assert_eq!(ParticipantRequestType::Invalid.label(), "INVALID");
    assert_eq!(ParticipantResponseType::Accepted.label(), "NEW");
    assert_eq!(ParticipantResponseType::Cancelled.label(), "CANCELLED");
    assert_eq!(ParticipantResponseType::Filled.label(), "FILLED");
    assert_eq!(ParticipantResponseType::CancelRejected.label(), "CANCEL-REJECTED");
    assert_eq!(ParticipantResponseType::Rejected.label(), "REJECTED");
    assert_eq!(ParticipantResponseType::Invalid.label(), "INVALID");
}

#[test]
fn default_market_update_is_unset() {
    assert_eq!(
        MarketUpdate::default(),
        MarketUpdate {
            update_type: MarketUpdateType::Invalid,
            order_id: u64::MAX,
            symbol_id: u32::MAX,
            side: Side::Invalid,
            price: u64::MAX,
            qty: u32::MAX,
            priority: u64::MAX,
        }
    );
}

#[test]
fn default_request_is_unset() {
    assert_eq!(
        ParticipantRequest::default(),
        ParticipantRequest {
            request_type: ParticipantRequestType::Invalid,
            participant_id: u32::MAX,
            symbol_id: u32::MAX,
            order_id: u64::MAX,
            side: Side::Invalid,
            price: u64::MAX,
        }
    );
}

#[test]
fn default_response_is_unset() {
    assert_eq!(
        ParticipantResponse::default(),
        ParticipantResponse {
            response_type: ParticipantResponseType::Invalid,
            participant_id: u32::MAX,
            symbol_id: u32::MAX,
            participant_order_id: u64::MAX,
            internal_order_id: u64::MAX,
            side: Side::Invalid,
            price: u64::MAX,
            exec_qty: u32::MAX,
            leaves_qty: u32::MAX,
        }
    );
}

#[test]
fn default_order_records_are_unset() {
    let nobody = OrderInfo { participant_id: u32::MAX, order_id: u64::MAX };
    assert_eq!(OrderInfo::default(), nobody);
    assert_eq!(
        Order::default(),
        Order {
            symbol_id: u32::MAX,
            order_info: nobody,
            internal_order_id: u64::MAX,
            side: Side::Invalid,
            price: u64::MAX,
            qty: u32::MAX,
            priority: u64::MAX,
            prev_order_info: nobody,
            next_order_info: nobody,
        }
    );
    assert_eq!(
        OrderAtPrice::default(),
        OrderAtPrice {
            side: Side::Invalid,
            price: u64::MAX,
            head_order_info: nobody,
            prev_idx: MAX_PRICE_LEVELS,
            next_idx: MAX_PRICE_LEVELS,
        }
    );
}
