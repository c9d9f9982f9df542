use exchange_core::amount::{Amount, SCALE};
use exchange_core::errors::EngineError;
use exchange_core::order::{OrderSide, OrderStatus, OrderType, Trade};
use exchange_core::store::{BookingStore, EscrowStore, OrderStore, TradeLog};

fn amt(n: u128) -> Amount {
    Amount::from_units(n * SCALE)
}

fn trade(bid: u64, ask: u64, qty: u128) -> Trade {
    Trade {
        bid_id: bid,
        ask_id: ask,
        symbol: String::from("BTC/USD"),
        price: amt(10),
        quantity: amt(qty),
        timestamp: 1,
    }
}

#[test]
fn bulk_insert_empty_returns_zero() {
    let mut log = TradeLog::new();
    let n = log.bulk_insert(Vec::new());
    assert_eq!(n, 0);
    assert_eq!(log.rows.len(), 0);
}

#[test]
fn bulk_insert_appends_all() {
    let mut log = TradeLog::new();
    let n = log.bulk_insert(vec![trade(1, 2, 1), trade(3, 4, 2)]);
    assert_eq!(n, 2);
    assert_eq!(log.rows.len(), 2);
    assert_eq!(log.rows[0].bid_id, 1);
    assert_eq!(log.rows[1].bid_id, 3);
}

#[test]
fn bulk_insert_batched_counts_all_chunks() {
    let mut log = TradeLog::new();
    let batch = vec![
        trade(1, 2, 1),
        trade(3, 4, 1),
        trade(5, 6, 1),
        trade(7, 8, 1),
        trade(9, 10, 1),
    ];
    let n = log.bulk_insert_batched(batch, 2);
    assert_eq!(n, 5);
    assert_eq!(log.rows.len(), 5);
    // order is preserved across chunks
    let bids: Vec<u64> = log.rows.iter().map(|t| t.bid_id).collect();
    assert_eq!(bids, vec![1, 3, 5, 7, 9]);
}

#[test]
fn save_order_allocates_fresh_ids() {
    let mut orders = OrderStore::new();
    let a = orders.save_order(
        7,
        false,
        String::from("BTC/USD"),
        OrderSide::Buy,
        OrderType::Limit,
        amt(10),
        amt(2),
        None,
        5,
    );
    let b = orders.save_order(
        8,
        false,
        String::from("BTC/USD"),
        OrderSide::Sell,
        OrderType::Limit,
        amt(10),
        amt(2),
        Some(3),
        6,
    );
    assert_eq!(a, 0);
    assert_eq!(b, 1);
    assert_eq!(orders.rows[0].status, OrderStatus::OPEN);
    assert_eq!(orders.rows[0].filled_amount.units, 0);
    assert_eq!(orders.rows[1].bank_id, Some(3));
}

#[test]
fn update_filled_is_idempotent() {
    let mut orders = OrderStore::new();
    let id = orders.save_order(
        7,
        false,
        String::from("BTC/USD"),
        OrderSide::Buy,
        OrderType::Limit,
        amt(10),
        amt(4),
        None,
        5,
    );
    let r1 = orders.update_filled_amount_and_status(id, amt(2), OrderStatus::PARTIALLYFILLED);
    assert!(r1.is_ok());
    let snapshot: Vec<(u128, OrderStatus)> = orders
        .rows
        .iter()
        .map(|r| (r.filled_amount.units, r.status))
        .collect();
    // re-applying the same write changes nothing
    let r2 = orders.update_filled_amount_and_status(id, amt(2), OrderStatus::PARTIALLYFILLED);
    assert!(r2.is_ok());
    let snapshot2: Vec<(u128, OrderStatus)> = orders
        .rows
        .iter()
        .map(|r| (r.filled_amount.units, r.status))
        .collect();
    assert_eq!(snapshot, snapshot2);
}

#[test]
fn update_filled_is_monotone() {
    let mut orders = OrderStore::new();
    let id = orders.save_order(
        7,
        false,
        String::from("BTC/USD"),
        OrderSide::Buy,
        OrderType::Limit,
        amt(10),
        amt(4),
        None,
        5,
    );
    assert!(orders
        .update_filled_amount_and_status(id, amt(3), OrderStatus::PARTIALLYFILLED)
        .is_ok());
    // a decrease is refused
    assert_eq!(
        orders.update_filled_amount_and_status(id, amt(2), OrderStatus::PARTIALLYFILLED),
        Err(EngineError::Conflict)
    );
    // an overfill is refused
    assert_eq!(
        orders.update_filled_amount_and_status(id, amt(5), OrderStatus::FILLED),
        Err(EngineError::Conflict)
    );
    // a status that disagrees with the fill is refused
    assert_eq!(
        orders.update_filled_amount_and_status(id, amt(4), OrderStatus::OPEN),
        Err(EngineError::Conflict)
    );
    // a full fill lands FILLED
    assert!(orders
        .update_filled_amount_and_status(id, amt(4), OrderStatus::FILLED)
        .is_ok());
    assert_eq!(orders.rows[0].status, OrderStatus::FILLED);
    // an unknown id is NotFound
    assert_eq!(
        orders.update_filled_amount_and_status(99, amt(1), OrderStatus::OPEN),
        Err(EngineError::NotFound)
    );
}

#[test]
fn find_matching_orders_filters_exactly() {
    let mut orders = OrderStore::new();
    let s1 = orders.save_order(
        1,
        false,
        String::from("BTC/USD"),
        OrderSide::Sell,
        OrderType::Limit,
        amt(10),
        amt(1),
        None,
        1,
    );
    let _other_pair = orders.save_order(
        2,
        false,
        String::from("ETH/USD"),
        OrderSide::Sell,
        OrderType::Limit,
        amt(10),
        amt(1),
        None,
        2,
    );
    let _other_price = orders.save_order(
        3,
        false,
        String::from("BTC/USD"),
        OrderSide::Sell,
        OrderType::Limit,
        amt(11),
        amt(1),
        None,
        3,
    );
    let _same_side = orders.save_order(
        4,
        false,
        String::from("BTC/USD"),
        OrderSide::Buy,
        OrderType::Limit,
        amt(10),
        amt(1),
        None,
        4,
    );
    let s2 = orders.save_order(
        5,
        false,
        String::from("BTC/USD"),
        OrderSide::Sell,
        OrderType::Limit,
        amt(10),
        amt(1),
        None,
        5,
    );
    // a filled row is not a candidate
    let s3 = orders.save_order(
        6,
        false,
        String::from("BTC/USD"),
        OrderSide::Sell,
        OrderType::Limit,
        amt(10),
        amt(1),
        None,
        6,
    );
    orders
        .update_filled_amount_and_status(s3, amt(1), OrderStatus::FILLED)
        .unwrap();
    let idxs = orders.find_matching_orders(&String::from("BTC/USD"), &amt(10), OrderSide::Buy);
    let ids: Vec<u64> = idxs.iter().map(|&i| orders.rows[i].id).collect();
    assert_eq!(ids, vec![s1, s2]);
}

#[test]
fn escrow_lifecycle_transitions() {
    let mut escrows = EscrowStore::new();
    assert!(escrows.create_escrow(1, amt(2), OrderStatus::OPEN, 5).is_ok());
    // one escrow per order
    assert_eq!(
        escrows.create_escrow(1, amt(2), OrderStatus::OPEN, 6),
        Err(EngineError::Conflict)
    );
    // OPEN -> PENDING, PENDING -> PENDING, PENDING -> COMPLETED
    assert!(escrows.update_status(1, OrderStatus::PENDING).is_ok());
    assert!(escrows.update_status(1, OrderStatus::PENDING).is_ok());
    assert!(escrows.update_status(1, OrderStatus::COMPLETED).is_ok());
    // COMPLETED is final
    assert_eq!(
        escrows.update_status(1, OrderStatus::PENDING),
        Err(EngineError::Conflict)
    );
    // unknown order
    assert_eq!(
        escrows.update_status(9, OrderStatus::PENDING),
        Err(EngineError::NotFound)
    );
    // OPEN cannot jump straight to COMPLETED
    assert!(escrows.create_escrow(2, amt(1), OrderStatus::OPEN, 7).is_ok());
    assert_eq!(
        escrows.update_status(2, OrderStatus::COMPLETED),
        Err(EngineError::Conflict)
    );
    // a dispute from PENDING
    assert!(escrows.update_status(2, OrderStatus::PENDING).is_ok());
    assert!(escrows.update_status(2, OrderStatus::DISPUTED).is_ok());
}

#[test]
fn bookings_append_only() {
    let mut bookings = BookingStore::new();
    let a = bookings.save_coin_booking(10, 1, 2, 5);
    let b = bookings.save_coin_booking(11, 3, 4, 6);
    assert_eq!(a, 0);
    assert_eq!(b, 1);
    assert_eq!(bookings.rows.len(), 2);
    assert_eq!(bookings.rows[0].buyer_id, 1);
    assert_eq!(bookings.rows[1].seller_id, 4);
}
