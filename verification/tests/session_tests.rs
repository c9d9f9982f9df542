use exchange_core::amount::SCALE;
use exchange_core::auth::{validate_login, validate_register, LoginRequest, RegisterRequest};
use exchange_core::errors::EngineError;
use exchange_core::order::OrderSide;
use exchange_core::session::{
    classify_frame, decode_order_frame, parse_side, session_step, FrameKind, Principal,
    SessionAction, SessionEvent, SessionState,
};

#[test]
fn session_happy_path() {
    let p = Principal { id: 7, is_admin: false };
    let (s, a) = session_step(SessionState::Connected, SessionEvent::Upgraded);
    assert_eq!(s, SessionState::AuthPending);
    assert_eq!(a, SessionAction::Idle);
    let (s, a) = session_step(s, SessionEvent::Auth { principal: Some(p) });
    assert_eq!(s, SessionState::Active { principal: p });
    assert_eq!(a, SessionAction::RegisterAndSendState);
    let (s, a) = session_step(s, SessionEvent::Frame { kind: FrameKind::CreateOrder });
    assert_eq!(s, SessionState::Active { principal: p });
    assert_eq!(a, SessionAction::AdmitOrder);
    let (s, a) = session_step(s, SessionEvent::Frame { kind: FrameKind::MatchPlaceholder });
    assert_eq!(s, SessionState::Active { principal: p });
    assert_eq!(a, SessionAction::Idle);
    let (s, a) = session_step(s, SessionEvent::Disconnected);
    assert_eq!(s, SessionState::Closed);
    assert_eq!(a, SessionAction::Deregister);
}

#[test]
fn session_auth_failure_closes_with_401() {
    let (s, a) = session_step(SessionState::AuthPending, SessionEvent::Auth { principal: None });
    assert_eq!(s, SessionState::Closed);
    assert_eq!(a, SessionAction::RejectAndClose { code: 401 });
}

#[test]
fn session_bad_frames_reply_400() {
    let p = Principal { id: 1, is_admin: true };
    let active = SessionState::Active { principal: p };
    let (s, a) = session_step(active, SessionEvent::Frame { kind: FrameKind::Unknown });
    assert_eq!(s, active);
    assert_eq!(a, SessionAction::ReplyError { code: 400 });
    let (s, a) = session_step(active, SessionEvent::Malformed);
    assert_eq!(s, active);
    assert_eq!(a, SessionAction::ReplyError { code: 400 });
    // a closed session absorbs everything
    let (s, a) = session_step(SessionState::Closed, SessionEvent::Malformed);
    assert_eq!(s, SessionState::Closed);
    assert_eq!(a, SessionAction::Idle);
}

#[test]
fn frame_classification() {
    assert_eq!(classify_frame(&String::from("create_order")), FrameKind::CreateOrder);
    assert_eq!(classify_frame(&String::from("trade")), FrameKind::CreateOrder);
    assert_eq!(classify_frame(&String::from("match")), FrameKind::MatchPlaceholder);
    assert_eq!(classify_frame(&String::from("ping")), FrameKind::Unknown);
    assert_eq!(classify_frame(&String::from("")), FrameKind::Unknown);
}

#[test]
fn side_parsing() {
    assert_eq!(parse_side(&String::from("buy")), Some(OrderSide::Buy));
    assert_eq!(parse_side(&String::from("sell")), Some(OrderSide::Sell));
    assert_eq!(parse_side(&String::from("BUY")), None);
    assert_eq!(parse_side(&String::from("hold")), None);
}

#[test]
fn decode_order_frame_accepts_valid() {
    let p = decode_order_frame(
        9,
        String::from("BTC/USD"),
        &String::from("sell"),
        "100.5",
        "2",
        Some(4),
    )
    .unwrap();
    assert_eq!(p.user_id, 9);
    assert_eq!(p.symbol, "BTC/USD");
    assert_eq!(p.side, OrderSide::Sell);
    assert_eq!(p.price.units, 100 * SCALE + SCALE / 2);
    assert_eq!(p.quantity.units, 2 * SCALE);
    assert_eq!(p.bank_id, Some(4));
}

#[test]
fn decode_order_frame_rejects_bad_fields() {
    let bad_side = decode_order_frame(
        1,
        String::from("BTC/USD"),
        &String::from("short"),
        "1",
        "1",
        None,
    );
    assert_eq!(bad_side.unwrap_err(), EngineError::Validation);
    let bad_price = decode_order_frame(
        1,
        String::from("BTC/USD"),
        &String::from("buy"),
        "1.2.3",
        "1",
        None,
    );
    assert_eq!(bad_price.unwrap_err(), EngineError::Validation);
    let bad_amount =
        decode_order_frame(1, String::from("BTC/USD"), &String::from("buy"), "1", "", None);
    assert_eq!(bad_amount.unwrap_err(), EngineError::Validation);
    let bad_user =
        decode_order_frame(-1, String::from("BTC/USD"), &String::from("buy"), "1", "1", None);
    assert_eq!(bad_user.unwrap_err(), EngineError::Validation);
}

#[test]
fn error_codes_mirror_http() {
    assert_eq!(EngineError::Validation.code(), 400);
    assert_eq!(EngineError::Auth.code(), 401);
    assert_eq!(EngineError::NotFound.code(), 404);
    assert_eq!(EngineError::Conflict.code(), 409);
    assert_eq!(EngineError::Persistence.code(), 500);
    assert_eq!(EngineError::Protocol.code(), 400);
}

#[test]
fn register_validation() {
    let good = RegisterRequest {
        email: String::from("trader@example.com"),
        username: String::from("bob"),
        password: String::from("secret1"),
    };
    assert!(validate_register(&good).is_ok());
    let bad_email = RegisterRequest {
        email: String::from("not-an-email"),
        username: String::from("bob"),
        password: String::from("secret1"),
    };
    assert_eq!(validate_register(&bad_email), Err(EngineError::Validation));
    let short_name = RegisterRequest {
        email: String::from("trader@example.com"),
        username: String::from("ab"),
        password: String::from("secret1"),
    };
    assert_eq!(validate_register(&short_name), Err(EngineError::Validation));
    let six_char_password = RegisterRequest {
        email: String::from("trader@example.com"),
        username: String::from("bob"),
        password: String::from("secr3t"),
    };
    assert!(validate_register(&six_char_password).is_ok());
    let too_short_password = RegisterRequest {
        email: String::from("trader@example.com"),
        username: String::from("bob"),
        password: String::from("12345"),
    };
    assert_eq!(
        validate_register(&too_short_password),
        Err(EngineError::Validation)
    );
}

#[test]
fn login_validation() {
    let good = LoginRequest {
        email: String::from("trader@example.com"),
        password: String::from("secret1"),
    };
    assert!(validate_login(&good).is_ok());
    let bad = LoginRequest {
        email: String::from("@@"),
        password: String::from("secret1"),
    };
    assert_eq!(validate_login(&bad), Err(EngineError::Validation));
}
