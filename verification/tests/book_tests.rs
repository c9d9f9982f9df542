use exchange_core::amount::{Amount, SCALE};
use exchange_core::book::SymbolBook;
use exchange_core::order::{BookOrder, Order, OrderSide, OrderType};
use exchange_core::orderbook::OrderBook;

fn amt(units_whole: u128) -> Amount {
    Amount::from_units(units_whole * SCALE)
}

fn entry(id: u64, user: u64, side: OrderSide, px: u128, qty: u128, ts: u64) -> BookOrder {
    BookOrder {
        id,
        user_id: user,
        side,
        order_type: OrderType::Limit,
        price: amt(px),
        quantity: amt(qty),
        timestamp: ts,
    }
}

#[test]
fn simple_cross_fills_both() {
    // Scenario: SELL(uid=1, px=100, qty=2) then BUY(uid=2, px=100, qty=2)
    let mut book = SymbolBook::new(String::from("BTC/USD"));
    book.add_order(entry(1, 1, OrderSide::Sell, 100, 2, 1));
    book.add_order(entry(2, 2, OrderSide::Buy, 100, 2, 2));
    let trades = book.match_orders(99);
    assert_eq!(trades.len(), 1);
    assert_eq!(trades[0].bid_id, 2);
    assert_eq!(trades[0].ask_id, 1);
    assert_eq!(trades[0].price.units, 100 * SCALE);
    assert_eq!(trades[0].quantity.units, 2 * SCALE);
    assert_eq!(trades[0].timestamp, 99);
    assert_eq!(trades[0].symbol, "BTC/USD");
    // both fully filled and popped
    assert!(book.best_bid().is_none());
    assert!(book.best_ask().is_none());
}

#[test]
fn partial_fill_leaves_remainder() {
    // SELL(px=50, qty=5) then BUY(px=50, qty=3): trade qty=3, sell rests with 2
    let mut book = SymbolBook::new(String::from("BTC/USD"));
    book.add_order(entry(1, 1, OrderSide::Sell, 50, 5, 1));
    book.add_order(entry(2, 2, OrderSide::Buy, 50, 3, 2));
    let trades = book.match_orders(7);
    assert_eq!(trades.len(), 1);
    assert_eq!(trades[0].quantity.units, 3 * SCALE);
    assert_eq!(trades[0].price.units, 50 * SCALE);
    assert!(book.best_bid().is_none());
    let rest = book.best_ask().unwrap();
    assert_eq!(rest.id, 1);
    assert_eq!(rest.quantity.units, 2 * SCALE);
}

#[test]
fn no_cross_rests_both() {
    // SELL at 101, BUY at 100: nothing trades, both rest
    let mut book = SymbolBook::new(String::from("BTC/USD"));
    book.add_order(entry(1, 1, OrderSide::Sell, 101, 1, 1));
    book.add_order(entry(2, 2, OrderSide::Buy, 100, 1, 2));
    let trades = book.match_orders(1);
    assert!(trades.is_empty());
    assert_eq!(book.best_bid().unwrap().id, 2);
    assert_eq!(book.best_ask().unwrap().id, 1);
}

#[test]
fn self_match_prevented() {
    // SELL(uid=1) and BUY(uid=1) at the same price: no trade, both rest
    let mut book = SymbolBook::new(String::from("BTC/USD"));
    book.add_order(entry(1, 1, OrderSide::Sell, 10, 1, 1));
    book.add_order(entry(2, 1, OrderSide::Buy, 10, 1, 2));
    let trades = book.match_orders(5);
    assert!(trades.is_empty());
    assert!(book.best_bid().is_some());
    assert!(book.best_ask().is_some());
}

#[test]
fn self_match_skips_to_next_eligible() {
    // asks: uid=1 then uid=2 at the same price; buy from uid=1 takes uid=2's
    let mut book = SymbolBook::new(String::from("BTC/USD"));
    book.add_order(entry(1, 1, OrderSide::Sell, 10, 1, 1));
    book.add_order(entry(2, 2, OrderSide::Sell, 10, 1, 2));
    book.add_order(entry(3, 1, OrderSide::Buy, 10, 1, 3));
    let trades = book.match_orders(5);
    assert_eq!(trades.len(), 1);
    assert_eq!(trades[0].ask_id, 2);
    assert_eq!(trades[0].bid_id, 3);
    // uid=1's sell still rests
    assert_eq!(book.best_ask().unwrap().id, 1);
}

#[test]
fn price_time_priority() {
    // SELL A(t=1) and SELL B(t=2) at px=10; a buy takes A, not B
    let mut book = SymbolBook::new(String::from("BTC/USD"));
    book.add_order(entry(1, 1, OrderSide::Sell, 10, 1, 1));
    book.add_order(entry(2, 2, OrderSide::Sell, 10, 1, 2));
    book.add_order(entry(3, 3, OrderSide::Buy, 10, 1, 3));
    let trades = book.match_orders(4);
    assert_eq!(trades.len(), 1);
    assert_eq!(trades[0].ask_id, 1);
    assert_eq!(book.best_ask().unwrap().id, 2);
}

#[test]
fn same_timestamp_matches_in_insertion_order() {
    // two sells with one timestamp: the first inserted keeps priority
    let mut book = SymbolBook::new(String::from("BTC/USD"));
    book.add_order(entry(1, 1, OrderSide::Sell, 10, 1, 5));
    book.add_order(entry(2, 2, OrderSide::Sell, 10, 1, 5));
    book.add_order(entry(3, 3, OrderSide::Buy, 10, 1, 6));
    let trades = book.match_orders(7);
    assert_eq!(trades.len(), 1);
    assert_eq!(trades[0].ask_id, 1);
}

#[test]
fn buy_at_exact_ask_price_matches() {
    // equality crosses: a buy at exactly the best ask trades
    let mut book = SymbolBook::new(String::from("BTC/USD"));
    book.add_order(entry(1, 1, OrderSide::Sell, 42, 1, 1));
    book.add_order(entry(2, 2, OrderSide::Buy, 42, 1, 2));
    let trades = book.match_orders(3);
    assert_eq!(trades.len(), 1);
    assert_eq!(trades[0].price.units, 42 * SCALE);
}

#[test]
fn trade_price_is_makers() {
    // resting sell at 99, aggressive buy at 101: trade at the maker's 99
    let mut book = SymbolBook::new(String::from("BTC/USD"));
    book.add_order(entry(1, 1, OrderSide::Sell, 99, 1, 1));
    book.add_order(entry(2, 2, OrderSide::Buy, 101, 1, 2));
    let trades = book.match_orders(3);
    assert_eq!(trades.len(), 1);
    assert_eq!(trades[0].price.units, 99 * SCALE);
}

#[test]
fn book_never_crossed_after_matching() {
    let mut book = SymbolBook::new(String::from("BTC/USD"));
    book.add_order(entry(1, 1, OrderSide::Sell, 10, 3, 1));
    book.add_order(entry(2, 2, OrderSide::Sell, 11, 2, 2));
    book.add_order(entry(3, 3, OrderSide::Buy, 12, 4, 3));
    book.add_order(entry(4, 4, OrderSide::Buy, 9, 2, 4));
    let _ = book.match_orders(5);
    if let (Some(b), Some(a)) = (book.best_bid(), book.best_ask()) {
        assert!(b.price.units < a.price.units);
    }
}

#[test]
fn fills_never_exceed_order_amount() {
    // one big buy sweeps several sells; total traded equals the buy amount
    let mut book = SymbolBook::new(String::from("BTC/USD"));
    book.add_order(entry(1, 1, OrderSide::Sell, 10, 2, 1));
    book.add_order(entry(2, 2, OrderSide::Sell, 11, 2, 2));
    book.add_order(entry(3, 3, OrderSide::Sell, 12, 2, 3));
    book.add_order(entry(4, 4, OrderSide::Buy, 12, 5, 4));
    let trades = book.match_orders(5);
    let total: u128 = trades
        .iter()
        .filter(|t| t.bid_id == 4)
        .map(|t| t.quantity.units)
        .sum();
    assert_eq!(total, 5 * SCALE);
    assert!(book.best_bid().is_none());
    assert_eq!(book.best_ask().unwrap().id, 3);
    assert_eq!(book.best_ask().unwrap().quantity.units, 1 * SCALE);
}

#[test]
fn add_then_cancel_restores_book() {
    let mut book = SymbolBook::new(String::from("BTC/USD"));
    book.add_order(entry(1, 1, OrderSide::Sell, 10, 1, 1));
    book.add_order(entry(2, 2, OrderSide::Buy, 9, 1, 2));
    let bids_before: Vec<u64> = book.bids.iter().map(|o| o.id).collect();
    let asks_before: Vec<u64> = book.asks.iter().map(|o| o.id).collect();
    book.add_order(entry(3, 3, OrderSide::Buy, 9, 2, 3));
    assert!(book.cancel(3));
    let bids_after: Vec<u64> = book.bids.iter().map(|o| o.id).collect();
    let asks_after: Vec<u64> = book.asks.iter().map(|o| o.id).collect();
    assert_eq!(bids_before, bids_after);
    assert_eq!(asks_before, asks_after);
    assert!(!book.cancel(3));
}

#[test]
fn orderbook_routes_by_symbol() {
    let mut ob = OrderBook::new();
    let o1 = Order {
        id: 1,
        user_id: 1,
        side: OrderSide::Sell,
        order_type: OrderType::Limit,
        symbol: String::from("BTC/USD"),
        price: amt(100),
        quantity: amt(1),
        timestamp: 1,
    };
    let o2 = Order {
        id: 2,
        user_id: 2,
        side: OrderSide::Buy,
        order_type: OrderType::Limit,
        symbol: String::from("ETH/USD"),
        price: amt(100),
        quantity: amt(1),
        timestamp: 2,
    };
    let o3 = Order {
        id: 3,
        user_id: 3,
        side: OrderSide::Buy,
        order_type: OrderType::Limit,
        symbol: String::from("BTC/USD"),
        price: amt(100),
        quantity: amt(1),
        timestamp: 3,
    };
    ob.add_order(o1);
    ob.add_order(o2);
    ob.add_order(o3);
    let btc = String::from("BTC/USD");
    let eth = String::from("ETH/USD");
    assert_eq!(ob.best_ask(&btc).unwrap().id, 1);
    assert_eq!(ob.best_bid(&eth).unwrap().id, 2);
    let trades = ob.match_orders(9);
    assert_eq!(trades.len(), 1);
    assert_eq!(trades[0].symbol, "BTC/USD");
    assert_eq!(trades[0].bid_id, 3);
    assert_eq!(trades[0].ask_id, 1);
    // the lone ETH bid still rests
    assert_eq!(ob.best_bid(&eth).unwrap().id, 2);
    assert!(ob.cancel(2));
    assert!(ob.best_bid(&eth).is_none());
}

#[test]
fn try_new_validates_inputs() {
    let ok = Order::try_new(
        1,
        1,
        OrderSide::Buy,
        OrderType::Limit,
        String::from("BTC/USD"),
        Some(amt(10)),
        amt(1),
        1,
    );
    assert!(ok.is_ok());
    let missing_price = Order::try_new(
        1,
        1,
        OrderSide::Buy,
        OrderType::Limit,
        String::from("BTC/USD"),
        None,
        amt(1),
        1,
    );
    assert!(missing_price.is_err());
    let zero_qty = Order::try_new(
        1,
        1,
        OrderSide::Buy,
        OrderType::Limit,
        String::from("BTC/USD"),
        Some(amt(10)),
        Amount::zero(),
        1,
    );
    assert!(zero_qty.is_err());
    let empty_symbol = Order::try_new(
        1,
        1,
        OrderSide::Buy,
        OrderType::Limit,
        String::new(),
        Some(amt(10)),
        amt(1),
        1,
    );
    assert!(empty_symbol.is_err());
}
