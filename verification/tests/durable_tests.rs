use exchange_core::admission::{create_order, validate_wallet_balance, Wallet};
use exchange_core::amount::{Amount, SCALE};
use exchange_core::durable::{match_new_order, plan_fills, Candidate};
use exchange_core::errors::EngineError;
use exchange_core::order::{OrderSide, OrderStatus, OrderType};
use exchange_core::store::{BookingStore, EscrowStore, OrderStore};

fn amt(n: u128) -> Amount {
    Amount::from_units(n * SCALE)
}

fn cand(order_id: u64, user_id: u64, amount: u128, filled: u128) -> Candidate {
    Candidate {
        order_id,
        user_id,
        amount: amt(amount),
        filled: amt(filled),
    }
}

#[test]
fn plan_skips_same_user_and_stops_when_full() {
    // new order: user 1, needs 5
    let cands = vec![
        cand(10, 1, 4, 0), // same user: skipped
        cand(11, 2, 3, 0), // takes 3
        cand(12, 3, 10, 8), // takes its remaining 2: new order full
        cand(13, 4, 5, 0), // nothing left
    ];
    let fills = plan_fills(1, amt(5), &cands);
    let units: Vec<u128> = fills.iter().map(|a| a.units).collect();
    assert_eq!(units, vec![0, 3 * SCALE, 2 * SCALE, 0]);
}

#[test]
fn plan_respects_candidate_remainder() {
    let cands = vec![cand(10, 2, 10, 7)];
    let fills = plan_fills(1, amt(5), &cands);
    assert_eq!(fills[0].units, 3 * SCALE);
}

fn seed_sell(
    orders: &mut OrderStore,
    escrows: &mut EscrowStore,
    user: u64,
    px: u128,
    qty: u128,
    now: u64,
) -> u64 {
    let id = orders.save_order(
        user,
        false,
        String::from("BTC/USD"),
        OrderSide::Sell,
        OrderType::Limit,
        amt(px),
        amt(qty),
        None,
        now,
    );
    escrows
        .create_escrow(id, amt(qty), OrderStatus::OPEN, now)
        .unwrap();
    id
}

#[test]
fn durable_simple_cross() {
    // Scenario: SELL(uid=1, qty=2) then BUY(uid=2, qty=2) at one price
    let mut orders = OrderStore::new();
    let mut escrows = EscrowStore::new();
    let mut bookings = BookingStore::new();
    let sell = seed_sell(&mut orders, &mut escrows, 1, 100, 2, 1);
    let buy = orders.save_order(
        2,
        false,
        String::from("BTC/USD"),
        OrderSide::Buy,
        OrderType::Limit,
        amt(100),
        amt(2),
        None,
        2,
    );
    let matched = match_new_order(&mut orders, &mut escrows, &mut bookings, buy, 3).unwrap();
    assert_eq!(matched, 1);
    assert_eq!(orders.rows[sell as usize].status, OrderStatus::FILLED);
    assert_eq!(orders.rows[buy as usize].status, OrderStatus::FILLED);
    assert_eq!(orders.rows[sell as usize].filled_amount.units, 2 * SCALE);
    assert_eq!(bookings.rows.len(), 1);
    assert_eq!(bookings.rows[0].buyer_id, 2);
    assert_eq!(bookings.rows[0].seller_id, 1);
    assert_eq!(bookings.rows[0].order_id, buy);
    // the seller's escrow moved to PENDING
    assert_eq!(escrows.rows[0].status, OrderStatus::PENDING);
}

#[test]
fn durable_partial_fill() {
    // SELL qty=5 then BUY qty=3: sell PARTIALLYFILLED at 3, buy FILLED
    let mut orders = OrderStore::new();
    let mut escrows = EscrowStore::new();
    let mut bookings = BookingStore::new();
    let sell = seed_sell(&mut orders, &mut escrows, 1, 50, 5, 1);
    let buy = orders.save_order(
        2,
        false,
        String::from("BTC/USD"),
        OrderSide::Buy,
        OrderType::Limit,
        amt(50),
        amt(3),
        None,
        2,
    );
    match_new_order(&mut orders, &mut escrows, &mut bookings, buy, 3).unwrap();
    assert_eq!(orders.rows[sell as usize].filled_amount.units, 3 * SCALE);
    assert_eq!(orders.rows[sell as usize].status, OrderStatus::PARTIALLYFILLED);
    assert_eq!(orders.rows[buy as usize].status, OrderStatus::FILLED);
}

#[test]
fn durable_no_match_at_other_price() {
    // the durable matcher pairs exact prices only
    let mut orders = OrderStore::new();
    let mut escrows = EscrowStore::new();
    let mut bookings = BookingStore::new();
    let sell = seed_sell(&mut orders, &mut escrows, 1, 101, 1, 1);
    let buy = orders.save_order(
        2,
        false,
        String::from("BTC/USD"),
        OrderSide::Buy,
        OrderType::Limit,
        amt(100),
        amt(1),
        None,
        2,
    );
    let matched = match_new_order(&mut orders, &mut escrows, &mut bookings, buy, 3).unwrap();
    assert_eq!(matched, 0);
    assert_eq!(orders.rows[sell as usize].status, OrderStatus::OPEN);
    assert_eq!(orders.rows[buy as usize].status, OrderStatus::OPEN);
    assert!(bookings.rows.is_empty());
}

#[test]
fn durable_self_match_prevented() {
    let mut orders = OrderStore::new();
    let mut escrows = EscrowStore::new();
    let mut bookings = BookingStore::new();
    let sell = seed_sell(&mut orders, &mut escrows, 1, 10, 1, 1);
    let buy = orders.save_order(
        1,
        false,
        String::from("BTC/USD"),
        OrderSide::Buy,
        OrderType::Limit,
        amt(10),
        amt(1),
        None,
        2,
    );
    let matched = match_new_order(&mut orders, &mut escrows, &mut bookings, buy, 3).unwrap();
    assert_eq!(matched, 0);
    assert_eq!(orders.rows[sell as usize].status, OrderStatus::OPEN);
    assert_eq!(orders.rows[buy as usize].status, OrderStatus::OPEN);
}

#[test]
fn durable_creation_order_priority() {
    // two resting sells; the earlier one fills first
    let mut orders = OrderStore::new();
    let mut escrows = EscrowStore::new();
    let mut bookings = BookingStore::new();
    let s1 = seed_sell(&mut orders, &mut escrows, 1, 10, 1, 1);
    let s2 = seed_sell(&mut orders, &mut escrows, 2, 10, 1, 2);
    let buy = orders.save_order(
        3,
        false,
        String::from("BTC/USD"),
        OrderSide::Buy,
        OrderType::Limit,
        amt(10),
        amt(1),
        None,
        3,
    );
    match_new_order(&mut orders, &mut escrows, &mut bookings, buy, 4).unwrap();
    assert_eq!(orders.rows[s1 as usize].status, OrderStatus::FILLED);
    assert_eq!(orders.rows[s2 as usize].status, OrderStatus::OPEN);
}

#[test]
fn admission_insufficient_balance() {
    // Scenario: wallet balance 1, sell of 2 is refused; nothing persists
    let mut orders = OrderStore::new();
    let mut escrows = EscrowStore::new();
    let mut bookings = BookingStore::new();
    let wallet = Wallet {
        id: 1,
        user_id: 1,
        crypto_id: String::from("BTC/USD"),
        balance: amt(1),
        wallet_address: None,
        version: 0,
    };
    let r = create_order(
        &mut orders,
        &mut escrows,
        &mut bookings,
        1,
        String::from("BTC/USD"),
        OrderSide::Sell,
        amt(10),
        amt(2),
        None,
        Some(&wallet),
        1,
    );
    assert!(matches!(r, Err(EngineError::InsufficientBalance { .. })));
    assert!(orders.rows.is_empty());
    assert!(escrows.rows.is_empty());
}

#[test]
fn admission_persists_and_matches() {
    let mut orders = OrderStore::new();
    let mut escrows = EscrowStore::new();
    let mut bookings = BookingStore::new();
    let wallet = Wallet {
        id: 1,
        user_id: 1,
        crypto_id: String::from("BTC/USD"),
        balance: amt(5),
        wallet_address: None,
        version: 0,
    };
    let sell = create_order(
        &mut orders,
        &mut escrows,
        &mut bookings,
        1,
        String::from("BTC/USD"),
        OrderSide::Sell,
        amt(100),
        amt(2),
        None,
        Some(&wallet),
        1,
    )
    .unwrap();
    assert_eq!(escrows.rows.len(), 1);
    assert_eq!(escrows.rows[0].order_id, sell);
    assert_eq!(escrows.rows[0].status, OrderStatus::OPEN);
    let buy = create_order(
        &mut orders,
        &mut escrows,
        &mut bookings,
        2,
        String::from("BTC/USD"),
        OrderSide::Buy,
        amt(100),
        amt(2),
        None,
        None,
        2,
    )
    .unwrap();
    assert_eq!(orders.rows[sell as usize].status, OrderStatus::FILLED);
    assert_eq!(orders.rows[buy as usize].status, OrderStatus::FILLED);
    assert_eq!(bookings.rows.len(), 1);
    assert_eq!(escrows.rows[0].status, OrderStatus::PENDING);
}

#[test]
fn admission_validation_errors() {
    let mut orders = OrderStore::new();
    let mut escrows = EscrowStore::new();
    let mut bookings = BookingStore::new();
    // empty symbol
    let r = create_order(
        &mut orders,
        &mut escrows,
        &mut bookings,
        1,
        String::new(),
        OrderSide::Buy,
        amt(10),
        amt(1),
        None,
        None,
        1,
    );
    assert_eq!(r, Err(EngineError::Validation));
    // zero amount
    let r = create_order(
        &mut orders,
        &mut escrows,
        &mut bookings,
        1,
        String::from("BTC/USD"),
        OrderSide::Buy,
        amt(10),
        Amount::zero(),
        None,
        None,
        1,
    );
    assert_eq!(r, Err(EngineError::Validation));
    // sell without a wallet
    let r = create_order(
        &mut orders,
        &mut escrows,
        &mut bookings,
        1,
        String::from("BTC/USD"),
        OrderSide::Sell,
        amt(10),
        amt(1),
        None,
        None,
        1,
    );
    assert_eq!(r, Err(EngineError::NotFound));
    assert!(orders.rows.is_empty());
}

#[test]
fn wallet_balance_gate() {
    let w = Wallet {
        id: 1,
        user_id: 1,
        crypto_id: String::from("BTC"),
        balance: amt(3),
        wallet_address: None,
        version: 0,
    };
    assert!(validate_wallet_balance(Some(&w), &amt(3)).is_ok());
    assert_eq!(
        validate_wallet_balance(Some(&w), &amt(4)),
        Err(EngineError::InsufficientBalance {
            available: amt(3),
            required: amt(4)
        })
    );
    assert_eq!(validate_wallet_balance(None, &amt(1)), Err(EngineError::NotFound));
}
