use order_matching::common::{Side, MAX_ORDER_IDS, MAX_PARTICIPANTS_NUMBER, MAX_PRICE_LEVELS};
use order_matching::matching_engine::arena::{price_to_index, ArenaError, LevelTable, OrderTable};
use order_matching::matching_engine::order::{
    create_order_at_price_level_hash_map, create_order_hash_map, create_participant_order_hash_map, Order,
    OrderAtPrice, OrderInfo,
};

fn order(participant_id: u32, order_id: u64, qty: u32) -> Order {
    Order {
        symbol_id: 1,
        order_info: OrderInfo { participant_id, order_id },
        internal_order_id: 40 + order_id,
        side: Side::Buy,
        price: 55,
        qty,
        priority: 1,
        prev_order_info: OrderInfo { participant_id, order_id },
        next_order_info: OrderInfo { participant_id, order_id },
    }
}

fn level(price: u64, next_idx: usize) -> OrderAtPrice {
    OrderAtPrice {
        side: Side::Sell,
        price,
        head_order_info: OrderInfo { participant_id: 1, order_id: 2 },
        prev_idx: 9,
        next_idx,
    }
}

#[test]
fn price_maps_to_its_remainder() {
    assert_eq!(price_to_index(0), 0);
    assert_eq!(price_to_index(100), 100);
    assert_eq!(price_to_index(255), 255);
    assert_eq!(price_to_index(256), 0);
    assert_eq!(price_to_index(356), 100);
    assert_eq!(price_to_index(u64::MAX), 255);
}

#[test]
fn fresh_tables_have_their_declared_shape() {
    assert!(create_order_hash_map().is_empty());
    let levels = create_order_at_price_level_hash_map();
    assert_eq!(levels.len(), MAX_PRICE_LEVELS);
    assert!(levels.iter().all(|slot| slot.is_none()));
    let rows = create_participant_order_hash_map();
    assert_eq!(rows.len(), MAX_PARTICIPANTS_NUMBER);
    assert!(rows.iter().all(|row| row.is_empty()));
}

#[test]
fn stored_order_is_found_under_its_key() {
    let mut table = OrderTable::new();
    let first = order(3, 7, 10);
    let second = order(3, 2, 20);
    assert_eq!(table.lookup_order(first.order_info), None);
    assert_eq!(table.allocate_order(first), Ok(first.order_info));
    assert_eq!(table.allocate_order(second), Ok(second.order_info));
    assert_eq!(table.lookup_order(first.order_info), Some(first));
    assert_eq!(table.lookup_order(second.order_info), Some(second));
    assert_eq!(table.lookup_order(OrderInfo { participant_id: 3, order_id: 5 }), None);
    assert_eq!(table.lookup_order(OrderInfo { participant_id: 4, order_id: 7 }), None);
    assert_eq!(table.lookup_order(OrderInfo { participant_id: 3, order_id: 8 }), None);
}

#[test]
fn order_table_refuses_duplicates_and_keys_out_of_bounds() {
    let mut table = OrderTable::new();
    let first = order(3, 7, 10);
    assert_eq!(table.allocate_order(first), Ok(first.order_info));
    assert_eq!(table.allocate_order(order(3, 7, 99)), Err(ArenaError::DuplicateOrder));
    assert_eq!(table.lookup_order(first.order_info), Some(first));
    assert_eq!(
        table.allocate_order(order(MAX_PARTICIPANTS_NUMBER as u32, 0, 1)),
        Err(ArenaError::CapacityExceeded)
    );
    assert_eq!(table.allocate_order(order(0, MAX_ORDER_IDS as u64, 1)), Err(ArenaError::CapacityExceeded));
    assert_eq!(table.allocate_order(order(u32::MAX, u64::MAX, 1)), Err(ArenaError::CapacityExceeded));
    let last = order(MAX_PARTICIPANTS_NUMBER as u32 - 1, MAX_ORDER_IDS as u64 - 1, 1);
    assert_eq!(table.allocate_order(last), Ok(last.order_info));
    assert_eq!(table.lookup_order(last.order_info), Some(last));
}

#[test]
fn updated_order_replaces_the_stored_one() {
    let mut table = OrderTable::new();
    let first = order(3, 7, 10);
    assert_eq!(table.update_order(first), Err(ArenaError::UnknownOrder));
    assert_eq!(table.lookup_order(first.order_info), None);
    table.allocate_order(first).unwrap();
    let changed = Order { qty: 4, priority: 9, ..first };
    assert_eq!(table.update_order(changed), Ok(first.order_info));
    assert_eq!(table.lookup_order(first.order_info), Some(changed));
    assert_eq!(table.update_order(order(200, 0, 1)), Err(ArenaError::UnknownOrder));
    assert_eq!(table.update_order(order(u32::MAX, 0, 1)), Err(ArenaError::UnknownOrder));
}

#[test]
fn released_order_is_gone_and_its_key_free() {
    let mut table = OrderTable::new();
    let first = order(3, 7, 10);
    let other = order(3, 8, 11);
    assert_eq!(table.release_order(first.order_info), Err(ArenaError::UnknownOrder));
    table.allocate_order(first).unwrap();
    table.allocate_order(other).unwrap();
    assert_eq!(table.release_order(first.order_info), Ok(first));
    assert_eq!(table.lookup_order(first.order_info), None);
    assert_eq!(table.lookup_order(other.order_info), Some(other));
    assert_eq!(table.release_order(first.order_info), Err(ArenaError::UnknownOrder));
    let again = order(3, 7, 77);
    assert_eq!(table.allocate_order(again), Ok(again.order_info));
    assert_eq!(table.lookup_order(first.order_info), Some(again));
}

#[test]
fn stored_level_is_found_in_the_slot_of_its_price() {
    let mut table = LevelTable::new();
    let first = level(300, 3);
    assert_eq!(table.level_at(44), None);
    assert_eq!(table.lookup_level(300), None);
    assert_eq!(table.allocate_level(first), Ok(44));
    assert_eq!(table.level_at(44), Some(first));
    assert_eq!(table.lookup_level(300), Some(first));
    assert_eq!(table.lookup_level(44), None);
    assert_eq!(table.lookup_level(556), None);
    assert_eq!(table.level_at(45), None);
}

#[test]
fn level_table_refuses_a_taken_slot() {
    let mut table = LevelTable::new();
    let first = level(300, 3);
    table.allocate_level(first).unwrap();
    assert_eq!(table.allocate_level(level(44, 1)), Err(ArenaError::CapacityExceeded));
    assert_eq!(table.allocate_level(level(300, 1)), Err(ArenaError::CapacityExceeded));
    assert_eq!(table.level_at(44), Some(first));
    assert_eq!(table.allocate_level(level(301, 1)), Ok(45));
}

#[test]
fn updated_level_replaces_the_stored_one() {
    let mut table = LevelTable::new();
    let first = level(300, 3);
    assert_eq!(table.update_level(first), Err(ArenaError::UnknownOrder));
    assert_eq!(table.level_at(44), None);
    table.allocate_level(first).unwrap();
    let changed = OrderAtPrice { next_idx: 200, prev_idx: 100, ..first };
    assert_eq!(table.update_level(changed), Ok(44));
    assert_eq!(table.level_at(44), Some(changed));
    assert_eq!(table.lookup_level(300), Some(changed));
}

#[test]
fn released_level_frees_its_slot() {
    let mut table = LevelTable::new();
    let first = level(300, 3);
    assert_eq!(table.release_level(44), None);
    table.allocate_level(first).unwrap();
    table.allocate_level(level(301, 3)).unwrap();
    assert_eq!(table.release_level(44), Some(first));
    assert_eq!(table.level_at(44), None);
    assert_eq!(table.level_at(45), Some(level(301, 3)));
    assert_eq!(table.release_level(44), None);
    assert_eq!(table.allocate_level(level(44, 0)), Ok(44));
}

#[test]
fn many_orders_pass_through_the_pool() {
    let mut table = OrderTable::new();
    for round in 0..3u32 {
        for order_id in 0..2000u64 {
            let record = order(round, order_id, 1 + order_id as u32);
            assert_eq!(table.allocate_order(record), Ok(record.order_info));
        }
        for order_id in 0..2000u64 {
            let record = order(round, order_id, 1 + order_id as u32);
            assert_eq!(table.lookup_order(record.order_info), Some(record));
            if order_id % 2 == 0 {
                assert_eq!(table.release_order(record.order_info), Ok(record));
            }
        }
    }
    assert_eq!(table.lookup_order(OrderInfo { participant_id: 1, order_id: 4 }), None);
    assert_eq!(table.lookup_order(OrderInfo { participant_id: 1, order_id: 5 }), Some(order(1, 5, 6)));
}
