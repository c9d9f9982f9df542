//! Order, trade and status types shared by the in-memory book and the
//! durable order-lifecycle layer.

use vstd::prelude::*;
use crate::amount::Amount;
use crate::errors::EngineError;

verus! {

/// Side of an order: a bid (buy) or an ask (sell).
#[derive(Clone, Copy, Debug, PartialEq, Eq, Structural)]
pub enum OrderSide {
    Buy,
    Sell,
}

/// Kind of order; the engine specifies limit orders only, the other
/// variants are reserved.
#[derive(Clone, Copy, Debug, PartialEq, Eq, Structural)]
pub enum OrderType {
    Limit,
    Market,
    Stoploss,
}

/// Alternative order-kind vocabulary kept for the persisted row layer.
#[derive(Clone, Copy, Debug, PartialEq, Eq, Structural)]
pub enum OrderTypes {
    Limit,
    Market,
    Stop,
}

/// Lifecycle status of a persisted order or escrow row.
#[derive(Clone, Copy, Debug, PartialEq, Eq, Structural)]
pub enum OrderStatus {
    OPEN,
    PARTIALLYFILLED,
    FILLED,
    CANCELED,
    PENDING,
    COMPLETED,
    DISPUTED,
}

impl OrderType {
    /// Uppercase label of the order kind as stored in durable rows.
    pub open spec fn spec_label(self) -> Seq<char> {
        match self {
            OrderType::Limit => "LIMIT"@,
            OrderType::Market => "MARKET"@,
            OrderType::Stoploss => "STOPLOSS"@,
        }
    }

    /// Uppercase label of the order kind as stored in durable rows.
    pub fn label(&self) -> (r: &'static str)
        ensures
            r@ == self.spec_label(),
    {
        match self {
            OrderType::Limit => "LIMIT",
            OrderType::Market => "MARKET",
            OrderType::Stoploss => "STOPLOSS",
        }
    }
}

/// Status a fill leaves an order in: filled when nothing remains, partially
/// filled when something was matched, open when nothing was.
pub open spec fn spec_status_for(amount: nat, filled: nat) -> OrderStatus {
    if filled >= amount {
        OrderStatus::FILLED
    } else if filled > 0 {
        OrderStatus::PARTIALLYFILLED
    } else {
        OrderStatus::OPEN
    }
}

/// Computes the status implied by a filled amount, per the book-keeping
/// invariant: FILLED iff `filled == amount`, PARTIALLYFILLED iff
/// `0 < filled < amount`, OPEN iff `filled == 0`.
pub fn status_for(amount: &Amount, filled: &Amount) -> (r: OrderStatus)
    requires
        filled.units <= amount.units,
    ensures
        r == spec_status_for(amount.units as nat, filled.units as nat),
{
    if filled.units >= amount.units {
        OrderStatus::FILLED
    } else if filled.units > 0 {
        OrderStatus::PARTIALLYFILLED
    } else {
        OrderStatus::OPEN
    }
}

/// An order as submitted to the book: carries its trading-pair symbol.
#[derive(Debug)]
pub struct Order {
    pub id: u64,
    pub user_id: u64,
    pub side: OrderSide,
    pub order_type: OrderType,
    pub symbol: String,
    pub price: Amount,
    pub quantity: Amount,
    pub timestamp: u64,
}

/// A resting order inside one symbol's book; the symbol is held once by
/// the per-symbol book, so entries stay `Copy`.
#[derive(Clone, Copy, Debug, PartialEq, Eq, Structural)]
pub struct BookOrder {
    pub id: u64,
    pub user_id: u64,
    pub side: OrderSide,
    pub order_type: OrderType,
    pub price: Amount,
    pub quantity: Amount,
    pub timestamp: u64,
}

impl Order {
    /// Validates and builds an order from raw submission fields.
    ///
    /// Rejects a missing price on a limit order, a non-positive price or
    /// quantity, and an empty symbol, exactly the inputs the book's
    /// preconditions exclude.
    pub fn try_new(
        id: u64,
        user_id: u64,
        side: OrderSide,
        order_type: OrderType,
        symbol: String,
        price: Option<Amount>,
        quantity: Amount,
        timestamp: u64,
    ) -> (r: Result<Order, EngineError>)
        ensures
            (price matches Some(p) && p.units > 0 && quantity.units > 0 && symbol@.len() > 0)
                <==> r is Ok,
            r matches Ok(o) ==> o.id == id && o.user_id == user_id && o.side == side
                && o.order_type == order_type && o.symbol@ == symbol@
                && o.price == price->Some_0 && o.quantity == quantity && o.timestamp == timestamp,
            r is Err ==> (r matches Err(e) && e == EngineError::Validation),
    {
        match price {
            None => Err(EngineError::Validation),
            Some(p) => {
                if p.units == 0 || quantity.units == 0 || symbol.as_str().is_empty() {
                    Err(EngineError::Validation)
                } else {
                    Ok(Order { id, user_id, side, order_type, symbol, price: p, quantity, timestamp })
                }
            },
        }
    }

    /// The book-entry form of this order, without the symbol.
    pub open spec fn entry_spec(&self) -> BookOrder {
        BookOrder {
            id: self.id,
            user_id: self.user_id,
            side: self.side,
            order_type: self.order_type,
            price: self.price,
            quantity: self.quantity,
            timestamp: self.timestamp,
        }
    }

    /// The book-entry form of this order, without the symbol.
    pub fn entry(&self) -> (r: BookOrder)
        ensures
            r == self.entry_spec(),
    {
        BookOrder {
            id: self.id,
            user_id: self.user_id,
            side: self.side,
            order_type: self.order_type,
            price: self.price,
            quantity: self.quantity,
            timestamp: self.timestamp,
        }
    }
}

/// An executed crossing: the bid, the ask, and the price and quantity dealt.
#[derive(Debug)]
pub struct Trade {
    pub bid_id: u64,
    pub ask_id: u64,
    pub symbol: String,
    pub price: Amount,
    pub quantity: Amount,
    pub timestamp: u64,
}

impl Trade {
    /// Assembles a trade record from its parts.
    pub fn new(
        bid_id: u64,
        ask_id: u64,
        symbol: String,
        price: Amount,
        quantity: Amount,
        timestamp: u64,
    ) -> (r: Trade)
        ensures
            r.bid_id == bid_id,
            r.ask_id == ask_id,
            r.symbol@ == symbol@,
            r.price == price,
            r.quantity == quantity,
            r.timestamp == timestamp,
    {
        Trade { bid_id, ask_id, symbol, price, quantity, timestamp }
    }
}

} // verus!
