use exchange_core::admission::{admission_step, AdmissionEvent, AdmissionState};

#[test]
fn admission_machine_buy_path() {
    let s = AdmissionState::Validating;
    let s = admission_step(s, AdmissionEvent::Validated { ok: true }, false);
    assert_eq!(s, AdmissionState::Persisting);
    let s = admission_step(s, AdmissionEvent::Persisted { order_id: Some(7) }, false);
    assert_eq!(s, AdmissionState::Matching { order_id: 7 });
    let s = admission_step(s, AdmissionEvent::Matched { ok: true }, false);
    assert_eq!(s, AdmissionState::Done { order_id: 7 });
}

#[test]
fn admission_machine_sell_path_checks_balance() {
    let s = AdmissionState::Validating;
    let s = admission_step(s, AdmissionEvent::Validated { ok: true }, true);
    assert_eq!(s, AdmissionState::CheckingBalance);
    let s = admission_step(s, AdmissionEvent::BalanceChecked { ok: true }, true);
    assert_eq!(s, AdmissionState::Persisting);
    let s = admission_step(s, AdmissionEvent::Persisted { order_id: Some(3) }, true);
    assert_eq!(s, AdmissionState::CreatingEscrow { order_id: 3 });
    let s = admission_step(s, AdmissionEvent::EscrowCreated { ok: true }, true);
    assert_eq!(s, AdmissionState::Matching { order_id: 3 });
}

#[test]
fn admission_machine_rejects_before_persist_without_cleanup() {
    let s = admission_step(
        AdmissionState::Validating,
        AdmissionEvent::Validated { ok: false },
        false,
    );
    assert_eq!(s, AdmissionState::Rejected);
    let s = admission_step(
        AdmissionState::CheckingBalance,
        AdmissionEvent::BalanceChecked { ok: false },
        true,
    );
    assert_eq!(s, AdmissionState::Rejected);
    let s = admission_step(
        AdmissionState::Persisting,
        AdmissionEvent::Persisted { order_id: None },
        true,
    );
    assert_eq!(s, AdmissionState::Rejected);
}

#[test]
fn admission_machine_demands_cancel_after_persist() {
    // a failure once the row exists must mark it CANCELED first
    let s = admission_step(
        AdmissionState::CreatingEscrow { order_id: 5 },
        AdmissionEvent::EscrowCreated { ok: false },
        true,
    );
    assert_eq!(s, AdmissionState::CancelingOrder { order_id: 5 });
    let s = admission_step(s, AdmissionEvent::CancelWritten, true);
    assert_eq!(s, AdmissionState::Rejected);
    let s = admission_step(
        AdmissionState::Matching { order_id: 9 },
        AdmissionEvent::Matched { ok: false },
        false,
    );
    assert_eq!(s, AdmissionState::CancelingOrder { order_id: 9 });
}
