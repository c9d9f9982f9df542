//! The per-connection session: a state machine from connect through
//! authentication and command dispatch to close, and the decoding of
//! inbound command frames into plain admission requests.
//!
//! The connection driver performs the I/O — socket reads, replies,
//! registration with the broadcaster — and feeds every observation
//! back here as an event; the machine decides the next state and the
//! action owed.

use vstd::prelude::*;
use vstd::string::StringExecFns;
use vstd::string::StringSliceAdditionalSpecFns;
use crate::amount::{Amount, decimal_val, parse_amount, valid_decimal};
use crate::errors::EngineError;
use crate::order::{OrderSide, OrderType};

verus! {

/// The authenticated identity a credential yields.
#[derive(Clone, Copy, Debug, PartialEq, Eq, Structural)]
pub struct Principal {
    pub id: u64,
    pub is_admin: bool,
}

/// Where a session stands.
#[derive(Clone, Copy, Debug, PartialEq, Eq, Structural)]
pub enum SessionState {
    /// Socket accepted, protocol upgrade pending.
    Connected,
    /// Upgraded; the first frame must carry a credential.
    AuthPending,
    /// Registered and serving commands.
    Active { principal: Principal },
    /// Torn down.
    Closed,
}

/// The command class of an inbound frame.
#[derive(Clone, Copy, Debug, PartialEq, Eq, Structural)]
pub enum FrameKind {
    /// An order submission (`create_order` or `trade`).
    CreateOrder,
    /// The reserved `match` placeholder.
    MatchPlaceholder,
    /// Anything else.
    Unknown,
}

/// What the session observes.
#[derive(Clone, Copy, Debug, PartialEq, Eq, Structural)]
pub enum SessionEvent {
    /// The protocol upgrade completed.
    Upgraded,
    /// The first frame arrived and the credential check yielded this.
    Auth { principal: Option<Principal> },
    /// A command frame arrived while active.
    Frame { kind: FrameKind },
    /// The frame could not be parsed at all.
    Malformed,
    /// The socket closed or timed out.
    Disconnected,
}

/// What the driver owes after a step.
#[derive(Clone, Copy, Debug, PartialEq, Eq, Structural)]
pub enum SessionAction {
    /// Nothing.
    Idle,
    /// Send an error frame with this code and close the socket.
    RejectAndClose { code: u16 },
    /// Register with the broadcaster and send the initial state
    /// snapshot.
    RegisterAndSendState,
    /// Run the admission path for the decoded order and reply once.
    AdmitOrder,
    /// Reply with an error frame with this code; the session stays.
    ReplyError { code: u16 },
    /// Deregister from the broadcaster and drop the outbound queue.
    Deregister,
}

/// The session transition table: authenticate, register, dispatch,
/// deregister.  An authentication failure closes with a 401; an
/// unknown frame type earns a 400 reply and the session stays; a
/// malformed frame earns a 400 reply; a disconnect while registered
/// demands deregistration.
pub open spec fn spec_session_step(s: SessionState, e: SessionEvent) -> (SessionState, SessionAction) {
    match (s, e) {
        (SessionState::Connected, SessionEvent::Upgraded) => (
            SessionState::AuthPending,
            SessionAction::Idle,
        ),
        (SessionState::Connected, SessionEvent::Disconnected) => (
            SessionState::Closed,
            SessionAction::Idle,
        ),
        (SessionState::AuthPending, SessionEvent::Auth { principal }) => match principal {
            Some(p) => (
                SessionState::Active { principal: p },
                SessionAction::RegisterAndSendState,
            ),
            None => (SessionState::Closed, SessionAction::RejectAndClose { code: 401 }),
        },
        (SessionState::AuthPending, SessionEvent::Malformed) => (
            SessionState::Closed,
            SessionAction::RejectAndClose { code: 400 },
        ),
        (SessionState::AuthPending, SessionEvent::Disconnected) => (
            SessionState::Closed,
            SessionAction::Idle,
        ),
        (SessionState::Active { principal }, SessionEvent::Frame { kind }) => match kind {
            FrameKind::CreateOrder => (
                SessionState::Active { principal },
                SessionAction::AdmitOrder,
            ),
            FrameKind::MatchPlaceholder => (
                SessionState::Active { principal },
                SessionAction::Idle,
            ),
            FrameKind::Unknown => (
                SessionState::Active { principal },
                SessionAction::ReplyError { code: 400 },
            ),
        },
        (SessionState::Active { principal }, SessionEvent::Malformed) => (
            SessionState::Active { principal },
            SessionAction::ReplyError { code: 400 },
        ),
        (SessionState::Active { .. }, SessionEvent::Disconnected) => (
            SessionState::Closed,
            SessionAction::Deregister,
        ),
        _ => (s, SessionAction::Idle),
    }
}

/// Advances the session by one observed event.
pub fn session_step(s: SessionState, e: SessionEvent) -> (r: (SessionState, SessionAction))
    ensures
        r == spec_session_step(s, e),
{
    match (s, e) {
        (SessionState::Connected, SessionEvent::Upgraded) => (
            SessionState::AuthPending,
            SessionAction::Idle,
        ),
        (SessionState::Connected, SessionEvent::Disconnected) => (
            SessionState::Closed,
            SessionAction::Idle,
        ),
        (SessionState::AuthPending, SessionEvent::Auth { principal }) => match principal {
            Some(p) => (
                SessionState::Active { principal: p },
                SessionAction::RegisterAndSendState,
            ),
            None => (SessionState::Closed, SessionAction::RejectAndClose { code: 401 }),
        },
        (SessionState::AuthPending, SessionEvent::Malformed) => (
            SessionState::Closed,
            SessionAction::RejectAndClose { code: 400 },
        ),
        (SessionState::AuthPending, SessionEvent::Disconnected) => (
            SessionState::Closed,
            SessionAction::Idle,
        ),
        (SessionState::Active { principal }, SessionEvent::Frame { kind }) => match kind {
            FrameKind::CreateOrder => (
                SessionState::Active { principal },
                SessionAction::AdmitOrder,
            ),
            FrameKind::MatchPlaceholder => (
                SessionState::Active { principal },
                SessionAction::Idle,
            ),
            FrameKind::Unknown => (
                SessionState::Active { principal },
                SessionAction::ReplyError { code: 400 },
            ),
        },
        (SessionState::Active { principal }, SessionEvent::Malformed) => (
            SessionState::Active { principal },
            SessionAction::ReplyError { code: 400 },
        ),
        (SessionState::Active { principal }, SessionEvent::Disconnected) => {
            let _ = principal;
            (SessionState::Closed, SessionAction::Deregister)
        },
        (other, _) => (other, SessionAction::Idle),
    }
}

/// Classifies a frame's `type` field: `create_order` and `trade`
/// submit an order, `match` is the reserved placeholder, anything
/// else is unknown.
pub fn classify_frame(frame_type: &String) -> (r: FrameKind)
    ensures
        r == FrameKind::CreateOrder <==> (frame_type@ == "create_order"@ || frame_type@
            == "trade"@),
        r == FrameKind::MatchPlaceholder <==> (frame_type@ == "match"@ && frame_type@
            != "create_order"@ && frame_type@ != "trade"@),
{
    proof {
        reveal_strlit("create_order");
        reveal_strlit("trade");
        reveal_strlit("match");
    }
    let create = String::from_str("create_order");
    let trade = String::from_str("trade");
    let mtch = String::from_str("match");
    if *frame_type == create || *frame_type == trade {
        FrameKind::CreateOrder
    } else if *frame_type == mtch {
        FrameKind::MatchPlaceholder
    } else {
        FrameKind::Unknown
    }
}

/// Reads a wire side field: `buy` or `sell`.
pub fn parse_side(s: &String) -> (r: Option<OrderSide>)
    ensures
        s@ == "buy"@ ==> r == Some(OrderSide::Buy),
        s@ == "sell"@ ==> r == Some(OrderSide::Sell),
        s@ != "buy"@ && s@ != "sell"@ ==> r is None,
{
    proof {
        reveal_strlit("buy");
        reveal_strlit("sell");
        assert("buy"@.len() == 3);
        assert("sell"@.len() == 4);
        assert("buy"@ != "sell"@);
    }
    let buy = String::from_str("buy");
    let sell = String::from_str("sell");
    if *s == buy {
        Some(OrderSide::Buy)
    } else if *s == sell {
        Some(OrderSide::Sell)
    } else {
        None
    }
}

/// An order submission against a named wallet, as the administrative
/// surface shapes it.
#[derive(Debug)]
pub struct OrderRequest {
    pub user_id: i64,
    pub wallet_id: i64,
    pub symbol: String,
    pub price: Amount,
    pub quantity: Amount,
    pub side: OrderSide,
}

/// An order submission as decoded from a command frame, ready for the
/// admission path.
#[derive(Debug)]
pub struct CreateOrderPayload {
    pub user_id: u64,
    pub symbol: String,
    pub side: OrderSide,
    pub order_type: OrderType,
    pub price: Amount,
    pub quantity: Amount,
    pub bank_id: Option<u64>,
}

/// Decodes the plain fields of a `create_order`/`trade` frame into an
/// admission request: the user id must be non-negative, the side
/// `buy` or `sell`, and price and amount valid wire decimals.
/// Exactly the frames meeting all of that decode.
pub fn decode_order_frame(
    user_id: i64,
    symbol: String,
    side_str: &String,
    price_str: &str,
    amount_str: &str,
    bank_id: Option<i64>,
) -> (r: Result<CreateOrderPayload, EngineError>)
    ensures
        (user_id >= 0 && (side_str@ == "buy"@ || side_str@ == "sell"@) && valid_decimal(
            price_str.spec_bytes(),
        ) && valid_decimal(amount_str.spec_bytes()) && (bank_id matches Some(b) ==> b >= 0)) <==> r
            is Ok,
        r matches Ok(p) ==> ({
            &&& p.user_id == user_id as u64
            &&& p.symbol@ == symbol@
            &&& (side_str@ == "buy"@ ==> p.side == OrderSide::Buy)
            &&& (side_str@ == "sell"@ ==> p.side == OrderSide::Sell)
            &&& p.order_type == OrderType::Limit
            &&& p.price.units as nat == decimal_val(price_str.spec_bytes())
            &&& p.quantity.units as nat == decimal_val(amount_str.spec_bytes())
            &&& (bank_id is None ==> p.bank_id is None)
            &&& (bank_id matches Some(b) ==> p.bank_id == Some(b as u64))
        }),
        r matches Err(e) ==> e == EngineError::Validation,
{
    if user_id < 0 {
        return Err(EngineError::Validation);
    }
    let side = match parse_side(side_str) {
        Some(s) => s,
        None => {
            return Err(EngineError::Validation);
        },
    };
    let price = match parse_amount(price_str) {
        Some(a) => a,
        None => {
            return Err(EngineError::Validation);
        },
    };
    let quantity = match parse_amount(amount_str) {
        Some(a) => a,
        None => {
            return Err(EngineError::Validation);
        },
    };
    let bank = match bank_id {
        None => None,
        Some(b) => {
            if b < 0 {
                return Err(EngineError::Validation);
            }
            Some(b as u64)
        },
    };
    Ok(CreateOrderPayload {
        user_id: user_id as u64,
        symbol,
        side,
        order_type: OrderType::Limit,
        price,
        quantity,
        bank_id: bank,
    })
}

} // verus!
