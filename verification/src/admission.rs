//! The admission path: validates a submitted order, checks the
//! seller's wallet balance, persists the row, opens the escrow for a
//! sell, and invokes the durable matcher.
//!
//! The storage driver mirrors the same sequence against the real
//! database; the decision of what to do when one of its steps fails is
//! the admission state machine at the end of this module.

use vstd::prelude::*;
use crate::amount::Amount;
use crate::durable::{
    escrow_ready, fills_count, fills_total, lemma_escrow_index_same, match_new_order,
    planned_fills, row_filled_like,
};
use crate::errors::EngineError;
use crate::order::{OrderSide, OrderStatus, OrderType, spec_status_for};
use crate::store::{
    BookingStore, Escrow, EscrowStore, MinimalOrder, OrderStore, escrow_index, is_match_row,
    lemma_escrow_index, lemma_row_index, row_index,
};

verus! {

/// A user's wallet for one asset, consulted read-only at admission.
pub struct Wallet {
    pub id: u64,
    pub user_id: u64,
    pub crypto_id: String,
    pub balance: Amount,
    pub wallet_address: Option<String>,
    pub version: i32,
}

/// Validates the raw submission fields: a positive amount, a positive
/// price, and a non-empty symbol.
pub fn validate_order_inputs(trading_pair: &String, price: &Amount, amount: &Amount) -> (r: Result<
    (),
    EngineError,
>)
    ensures
        (trading_pair@.len() > 0 && price.units > 0 && amount.units > 0) <==> r is Ok,
        r is Err ==> r == Err::<(), EngineError>(EngineError::Validation),
{
    if trading_pair.as_str().is_empty() || price.units == 0 || amount.units == 0 {
        Err(EngineError::Validation)
    } else {
        Ok(())
    }
}

/// The balance gate for a sell: the wallet must exist and cover the
/// amount; a missing wallet and an insufficient balance are told
/// apart exactly.
pub fn validate_wallet_balance(wallet: Option<&Wallet>, amount: &Amount) -> (r: Result<
    (),
    EngineError,
>)
    ensures
        wallet is None ==> r == Err::<(), EngineError>(EngineError::NotFound),
        wallet matches Some(w) ==> (w.balance.units < amount.units ==> r == Err::<(), EngineError>(
            (EngineError::InsufficientBalance { available: w.balance, required: *amount }),
        )) && (w.balance.units >= amount.units ==> r is Ok),
{
    match wallet {
        None => Err(EngineError::NotFound),
        Some(w) => {
            if w.balance.units < amount.units {
                Err(EngineError::InsufficientBalance { available: w.balance, required: *amount })
            } else {
                Ok(())
            }
        },
    }
}

/// Admits one order: validates it, gates a sell on the wallet
/// balance, persists the row OPEN and unfilled, opens the sell's
/// escrow, and runs the durable matcher; the new order's id comes
/// back.
///
/// The well-formedness requirements on the stores are the system
/// invariants the admission path itself maintains: fresh ids have no
/// escrow yet, and every open sell row at any pair and price keeps a
/// live escrow.
pub fn create_order(
    orders: &mut OrderStore,
    escrows: &mut EscrowStore,
    bookings: &mut BookingStore,
    user_id: u64,
    trading_pair: String,
    side: OrderSide,
    price: Amount,
    amount: Amount,
    bank_id: Option<u64>,
    wallet: Option<&Wallet>,
    now: u64,
) -> (r: Result<u64, EngineError>)
    requires
        old(orders).wf(),
        old(escrows).wf(),
        old(orders).next_id < u64::MAX,
        old(escrows).next_id < u64::MAX,
        old(bookings).next_id + old(orders).rows@.len() + 1 <= u64::MAX,
        forall|j: int|
            0 <= j < old(escrows).rows@.len() ==> (#[trigger] old(escrows).rows@[j]).order_id < old(orders).next_id,
        forall|i: int|
            0 <= i < old(orders).rows@.len() && (#[trigger] old(orders).rows@[i]).side
                is Sell && old(orders).rows@[i].status == OrderStatus::OPEN ==> escrow_ready(
                old(escrows).rows@,
                old(orders).rows@[i].id,
            ),
    ensures
        final(orders).wf(),
        final(escrows).wf(),
        !(trading_pair@.len() > 0 && price.units > 0 && amount.units > 0) ==> r == Err::<
            u64,
            EngineError,
        >(EngineError::Validation) && *final(orders) == *old(orders) && *final(escrows) == *old(escrows) && *final(bookings) == *old(bookings),
        (trading_pair@.len() > 0 && price.units > 0 && amount.units > 0 && side is Sell && wallet
            is None) ==> r == Err::<u64, EngineError>(EngineError::NotFound) && *final(orders)
            == *old(orders) && *final(escrows) == *old(escrows) && *final(bookings) == *old(bookings),
        (trading_pair@.len() > 0 && price.units > 0 && amount.units > 0 && side is Sell) ==> (
        wallet matches Some(w) ==> (w.balance.units < amount.units ==> r == Err::<u64, EngineError>(
            (EngineError::InsufficientBalance { available: w.balance, required: amount }),
        ) && *final(orders) == *old(orders) && *final(escrows) == *old(escrows) && *final(bookings) == *old(bookings))),
        (trading_pair@.len() > 0 && price.units > 0 && amount.units > 0 && (side is Buy || (
        wallet matches Some(w) && w.balance.units >= amount.units))) ==> ({
            let nid = old(orders).next_id;
            let nk = old(orders).rows@.len() as int;
            let nrow = (MinimalOrder {
                id: nid,
                user_id,
                is_maker: false,
                trading_pair,
                side,
                order_type: OrderType::Limit,
                price,
                amount,
                filled_amount: (Amount { units: 0 }),
                status: OrderStatus::OPEN,
                bank_id,
                created_at: now,
                updated_at: now,
            });
            let rows1 = old(orders).rows@.push(nrow);
            let fills = planned_fills(rows1, nid);
            let total = fills_total(fills);
            &&& r == Ok::<u64, EngineError>(nid)
            &&& final(orders).rows@.len() == old(orders).rows@.len() + 1
            &&& final(orders).next_id == old(orders).next_id + 1
            &&& (total > 0 ==> final(orders).rows@[nk] == (MinimalOrder {
                filled_amount: (Amount { units: total as u128 }),
                status: spec_status_for(amount.units as nat, total),
                ..nrow
            }))
            &&& (total == 0 ==> final(orders).rows@[nk] == nrow)
            &&& (forall|l: int|
                0 <= l < old(orders).rows@.len() ==> (#[trigger] final(orders).rows@[l]) == old(orders).rows@[l] || row_filled_like(final(orders).rows@[l], old(orders).rows@[l]))
            &&& final(bookings).rows@.len() == old(bookings).rows@.len() + fills_count(fills)
            &&& (forall|l: int|
                0 <= l < old(bookings).rows@.len() ==> (#[trigger] final(bookings).rows@[l]) == old(bookings).rows@[l])
            &&& (forall|l: int|
                old(bookings).rows@.len() <= l < final(bookings).rows@.len() ==> ({
                    let b = #[trigger] final(bookings).rows@[l];
                    &&& b.order_id == nid
                    &&& b.buyer_id != b.seller_id
                    &&& (side is Buy ==> b.buyer_id == user_id)
                    &&& (side is Sell ==> b.seller_id == user_id)
                }))
            &&& (side is Sell ==> ({
                let ke = escrow_index(final(escrows).rows@, nid);
                &&& ke >= 0
                &&& final(escrows).rows@[ke].order_id == nid
                &&& final(escrows).rows@[ke].amount == amount
                &&& final(escrows).rows@[ke].created_at == now
                &&& (final(escrows).rows@[ke].status == OrderStatus::OPEN || final(escrows).rows@[ke].status == OrderStatus::PENDING)
            }))
            &&& (side is Buy ==> final(escrows).rows@.len() == old(escrows).rows@.len())
            &&& (forall|j: int|
                0 <= j < final(escrows).rows@.len() ==> (#[trigger] final(escrows).rows@[j]).order_id < final(orders).next_id)
            &&& (forall|i2: int|
                0 <= i2 < final(orders).rows@.len() && (#[trigger] final(orders).rows@[i2]).side
                    is Sell && final(orders).rows@[i2].status == OrderStatus::OPEN ==> escrow_ready(
                    final(escrows).rows@,
                    final(orders).rows@[i2].id,
                ))
        }),
{
    let ghost rows0 = orders.rows@;
    let ghost erows0 = escrows.rows@;
    let ghost tp = trading_pair;
    if let Err(e) = validate_order_inputs(&trading_pair, &price, &amount) {
        return Err(e);
    }
    if matches!(side, OrderSide::Sell) {
        if let Err(e) = validate_wallet_balance(wallet, &amount) {
            return Err(e);
        }
    }
    let new_id = orders.save_order(
        user_id,
        false,
        trading_pair,
        side,
        OrderType::Limit,
        price,
        amount,
        bank_id,
        now,
    );
    proof {
        // the fresh id has no row before this call and no escrow row
        lemma_row_index(rows0, new_id);
        if row_index(rows0, new_id) >= 0 {
            assert(rows0[row_index(rows0, new_id)].id < new_id);
            assert(false);
        }
        lemma_escrow_index(erows0, new_id);
        if escrow_index(erows0, new_id) >= 0 {
            assert(erows0[escrow_index(erows0, new_id)].order_id < new_id);
            assert(false);
        }
    }
    if matches!(side, OrderSide::Sell) {
        match escrows.create_escrow(new_id, amount, OrderStatus::OPEN, now) {
            Ok(()) => {},
            Err(e) => {
                proof {
                    assert(false);
                }
                return Err(e);
            },
        }
    }
    proof {
        // the new row is found at the end of the store
        assert(orders.rows@ =~= rows0.push(orders.rows@.last()));
        lemma_row_index_push(rows0, orders.rows@.last());
        assert(row_index(orders.rows@, new_id) == rows0.len() as int);
        // the sell's escrow is ready, and candidate sells keep theirs
        if matches!(side, OrderSide::Sell) {
            lemma_escrow_index_push_ready(erows0, escrows.rows@, new_id);
        }
        assert forall|i: int|
            0 <= i < orders.rows@.len() && is_match_row(
                #[trigger] orders.rows@[i],
                orders.rows@[row_index(orders.rows@, new_id)].trading_pair@,
                orders.rows@[row_index(orders.rows@, new_id)].price,
                orders.rows@[row_index(orders.rows@, new_id)].side,
            ) && orders.rows@[row_index(orders.rows@, new_id)].side is Buy implies escrow_ready(
            escrows.rows@,
            orders.rows@[i].id,
        ) by {
            assert(i < rows0.len());
            assert(orders.rows@[i] == rows0[i]);
            assert(rows0[i].side is Sell && rows0[i].status == OrderStatus::OPEN);
            assert(escrow_ready(erows0, rows0[i].id));
            lemma_escrow_ready_extends(erows0, escrows.rows@, rows0[i].id);
        }
    }
    let ghost orows1 = orders.rows@;
    let ghost erows1 = escrows.rows@;
    proof {
        // the saved row is exactly the admitted order, unfilled and OPEN
        let nid = old(orders).next_id;
        let nrow = (MinimalOrder {
            id: nid,
            user_id,
            is_maker: false,
            trading_pair: tp,
            side,
            order_type: OrderType::Limit,
            price,
            amount,
            filled_amount: (Amount { units: 0 }),
            status: OrderStatus::OPEN,
            bank_id,
            created_at: now,
            updated_at: now,
        });
        assert(orows1.last() == nrow);
        assert(orows1 =~= rows0.push(nrow));
        // the fresh escrow of a sell sits at the end of the table
        if matches!(side, OrderSide::Sell) {
            assert(escrow_ready(erows1, nid));
            lemma_escrow_index(erows1, nid);
            let ke = escrow_index(erows1, nid);
            if ke < erows0.len() {
                assert(erows1[ke] == erows0[ke]);
                assert(erows0[ke].order_id < nid);
                assert(false);
            }
            assert(ke == erows0.len() as int);
            assert(erows1[ke] == (Escrow {
                id: old(escrows).next_id,
                order_id: nid,
                amount,
                status: OrderStatus::OPEN,
                created_at: now,
            }));
        }
        // every open sell row of the enlarged store keeps a live escrow
        assert forall|j: int| 0 <= j < erows0.len() implies #[trigger] erows1[j]
            == erows0[j] by {}
        assert forall|i2: int|
            0 <= i2 < orows1.len() && (#[trigger] orows1[i2]).side is Sell && orows1[i2].status
                == OrderStatus::OPEN implies escrow_ready(erows1, orows1[i2].id) by {
            if i2 < rows0.len() {
                assert(orows1[i2] == rows0[i2]);
                assert(escrow_ready(erows0, rows0[i2].id));
                lemma_escrow_ready_extends(erows0, erows1, rows0[i2].id);
            } else {
                assert(orows1[i2] == nrow);
            }
        }
        // escrow order ids stay below the next order id
        assert forall|j: int| 0 <= j < erows1.len() implies (#[trigger] erows1[j]).order_id
            < orders.next_id by {
            if j < erows0.len() {
                assert(erows1[j] == erows0[j]);
            }
        }
    }
    match match_new_order(orders, escrows, bookings, new_id, now) {
        Ok(_) => {
            proof {
                assert forall|j: int|
                    0 <= j < erows1.len() implies (#[trigger] escrows.rows@[j]).order_id
                    == erows1[j].order_id by {}
                lemma_escrow_index_same(escrows.rows@, erows1, new_id);
                let nid = old(orders).next_id;
                let nrow = (MinimalOrder {
                    id: nid,
                    user_id,
                    is_maker: false,
                    trading_pair: tp,
                    side,
                    order_type: OrderType::Limit,
                    price,
                    amount,
                    filled_amount: (Amount { units: 0 }),
                    status: OrderStatus::OPEN,
                    bank_id,
                    created_at: now,
                    updated_at: now,
                });
                let nk = rows0.len() as int;
                let nr1 = orows1[nk];
                assert(nr1 == nrow);
                assert(orows1 == rows0.push(nrow));
                assert(planned_fills(orows1, nid) == planned_fills(rows0.push(nrow), nid));
                let fills = planned_fills(orows1, nid);
                let total = fills_total(fills);
                if total > 0 {
                    assert(orders.rows@[nk] == (MinimalOrder {
                        filled_amount: (Amount { units: (nr1.filled_amount.units + total) as u128 }),
                        status: spec_status_for(
                            nr1.amount.units as nat,
                            (nr1.filled_amount.units + total) as nat,
                        ),
                        ..nr1
                    }));
                    assert(nr1.filled_amount.units + total == total);
                    assert(orders.rows@[nk] == (MinimalOrder {
                        filled_amount: (Amount { units: total as u128 }),
                        status: spec_status_for(amount.units as nat, total),
                        ..nrow
                    }));
                }
                assert forall|l: int|
                    0 <= l < rows0.len() implies (#[trigger] orders.rows@[l]) == rows0[l]
                        || row_filled_like(orders.rows@[l], rows0[l]) by {
                    assert(orows1[l] == rows0[l]);
                    assert(0 <= l < orows1.len());
                    assert(l != row_index(orows1, new_id));
                    assert(orders.rows@[l] == orows1[l] || row_filled_like(
                        orders.rows@[l],
                        orows1[l],
                    ));
                }
                if matches!(side, OrderSide::Sell) {
                    let ke = escrow_index(erows1, nid);
                    assert(escrow_index(escrows.rows@, nid) == ke);
                    assert(escrows.rows@[ke] == erows1[ke] || escrows.rows@[ke] == crate::durable::pending_of(erows1[ke]));
                }
            }
            Ok(new_id)
        },
        Err(e) => {
            proof {
                assert(false);
            }
            Err(e)
        },
    }
}

/// A pushed row with a fresh id is found exactly at the end.
pub proof fn lemma_row_index_push(rows: Seq<crate::store::MinimalOrder>, row: crate::store::MinimalOrder)
    requires
        forall|i: int| 0 <= i < rows.len() ==> (#[trigger] rows[i]).id != row.id,
    ensures
        row_index(rows.push(row), row.id) == rows.len(),
    decreases rows.len(),
{
    let s = rows.push(row);
    if rows.len() == 0 {
        assert(s[0] == row);
    } else {
        assert(s[0] == rows[0]);
        assert(s.drop_first() =~= rows.drop_first().push(row));
        assert forall|i: int|
            0 <= i < rows.drop_first().len() implies (#[trigger] rows.drop_first()[i]).id
            != row.id by {
            assert(rows.drop_first()[i] == rows[i + 1]);
        }
        lemma_row_index_push(rows.drop_first(), row);
    }
}

/// Appending a fresh OPEN escrow row makes its order ready.
pub proof fn lemma_escrow_index_push_ready(
    rows: Seq<crate::store::Escrow>,
    rows2: Seq<crate::store::Escrow>,
    order_id: u64,
)
    requires
        forall|i: int| 0 <= i < rows.len() ==> (#[trigger] rows[i]).order_id != order_id,
        rows2.len() == rows.len() + 1,
        forall|i: int| 0 <= i < rows.len() ==> #[trigger] rows2[i] == rows[i],
        rows2.last().order_id == order_id,
        rows2.last().status == OrderStatus::OPEN,
    ensures
        escrow_ready(rows2, order_id),
    decreases rows.len(),
{
    if rows.len() == 0 {
        assert(rows2[0] == rows2.last());
        assert(escrow_index(rows2, order_id) == 0);
    } else {
        assert(rows2[0] == rows[0]);
        assert(rows2[0].order_id != order_id);
        assert(rows2.drop_first().len() == rows.drop_first().len() + 1);
        assert forall|i: int|
            0 <= i < rows.drop_first().len() implies #[trigger] rows2.drop_first()[i] == rows
            .drop_first()[i] by {
            assert(rows2.drop_first()[i] == rows2[i + 1]);
            assert(rows.drop_first()[i] == rows[i + 1]);
        }
        assert forall|i: int|
            0 <= i < rows.drop_first().len() implies (#[trigger] rows.drop_first()[i]).order_id
            != order_id by {
            assert(rows.drop_first()[i] == rows[i + 1]);
        }
        assert(rows2.drop_first().last() == rows2.last());
        lemma_escrow_index_push_ready(rows.drop_first(), rows2.drop_first(), order_id);
        lemma_escrow_index(rows2.drop_first(), order_id);
        lemma_escrow_index(rows2, order_id);
        assert(escrow_index(rows2, order_id) == 1 + escrow_index(rows2.drop_first(), order_id));
        assert(rows2[escrow_index(rows2, order_id)] == rows2.drop_first()[escrow_index(
            rows2.drop_first(),
            order_id,
        )]);
    }
}

/// A ready escrow stays ready when the table only grows at the end.
pub proof fn lemma_escrow_ready_extends(
    rows: Seq<crate::store::Escrow>,
    rows2: Seq<crate::store::Escrow>,
    order_id: u64,
)
    requires
        escrow_ready(rows, order_id),
        rows2.len() >= rows.len(),
        forall|i: int| 0 <= i < rows.len() ==> #[trigger] rows2[i] == rows[i],
    ensures
        escrow_ready(rows2, order_id),
    decreases rows.len(),
{
    if rows.len() > 0 {
        if rows[0].order_id == order_id {
            assert(rows2[0] == rows[0]);
        } else {
            assert(rows2[0] == rows[0]);
            lemma_escrow_index(rows, order_id);
            lemma_escrow_index(rows.drop_first(), order_id);
            assert(escrow_ready(rows.drop_first(), order_id)) by {
                assert(escrow_index(rows, order_id) == 1 + escrow_index(
                    rows.drop_first(),
                    order_id,
                ));
                assert(rows[escrow_index(rows, order_id)] == rows.drop_first()[escrow_index(
                    rows.drop_first(),
                    order_id,
                )]);
            }
            assert forall|i: int|
                0 <= i < rows.drop_first().len() implies #[trigger] rows2.drop_first()[i] == rows
                .drop_first()[i] by {
                assert(rows2.drop_first()[i] == rows2[i + 1]);
                assert(rows.drop_first()[i] == rows[i + 1]);
            }
            lemma_escrow_ready_extends(rows.drop_first(), rows2.drop_first(), order_id);
            lemma_escrow_index(rows2.drop_first(), order_id);
            lemma_escrow_index(rows2, order_id);
            assert(escrow_index(rows2, order_id) == 1 + escrow_index(
                rows2.drop_first(),
                order_id,
            ));
            assert(rows2[escrow_index(rows2, order_id)] == rows2.drop_first()[escrow_index(
                rows2.drop_first(),
                order_id,
            )]);
        }
    }
}

/// Where the admission stands while the storage driver works through
/// its steps.
#[derive(Clone, Copy, Debug, PartialEq, Eq, Structural)]
pub enum AdmissionState {
    /// Checking the submitted fields.
    Validating,
    /// Awaiting the wallet-balance check of a sell.
    CheckingBalance,
    /// Awaiting the order row write.
    Persisting,
    /// Awaiting the escrow row write of a sell.
    CreatingEscrow { order_id: u64 },
    /// Awaiting the durable matcher.
    Matching { order_id: u64 },
    /// A step after persistence failed: the row must be marked
    /// CANCELED before the admission can report its error.
    CancelingOrder { order_id: u64 },
    /// Admitted.
    Done { order_id: u64 },
    /// Rejected before anything durable happened.
    Rejected,
}

/// What the storage driver reports back after performing a step.
#[derive(Clone, Copy, Debug, PartialEq, Eq, Structural)]
pub enum AdmissionEvent {
    /// The submitted fields passed or failed validation.
    Validated { ok: bool },
    /// The wallet covered the amount, or not.
    BalanceChecked { ok: bool },
    /// The order row was written under this id, or the write failed.
    Persisted { order_id: Option<u64> },
    /// The escrow row write finished.
    EscrowCreated { ok: bool },
    /// The durable matcher finished.
    Matched { ok: bool },
    /// The cancel mark was written (its own failure changes nothing
    /// further: the driver may retry).
    CancelWritten,
}

/// The next admission state: what the admission sequence does
/// on each outcome.
pub open spec fn spec_admission_step(
    s: AdmissionState,
    e: AdmissionEvent,
    is_sell: bool,
) -> AdmissionState {
    match (s, e) {
        (AdmissionState::Validating, AdmissionEvent::Validated { ok }) => if !ok {
            AdmissionState::Rejected
        } else if is_sell {
            AdmissionState::CheckingBalance
        } else {
            AdmissionState::Persisting
        },
        (AdmissionState::CheckingBalance, AdmissionEvent::BalanceChecked { ok }) => if ok {
            AdmissionState::Persisting
        } else {
            AdmissionState::Rejected
        },
        (AdmissionState::Persisting, AdmissionEvent::Persisted { order_id }) => match order_id {
            Some(id) => if is_sell {
                AdmissionState::CreatingEscrow { order_id: id }
            } else {
                AdmissionState::Matching { order_id: id }
            },
            None => AdmissionState::Rejected,
        },
        (AdmissionState::CreatingEscrow { order_id }, AdmissionEvent::EscrowCreated { ok }) => if ok {
            AdmissionState::Matching { order_id }
        } else {
            AdmissionState::CancelingOrder { order_id }
        },
        (AdmissionState::Matching { order_id }, AdmissionEvent::Matched { ok }) => if ok {
            AdmissionState::Done { order_id }
        } else {
            AdmissionState::CancelingOrder { order_id }
        },
        (AdmissionState::CancelingOrder { .. }, AdmissionEvent::CancelWritten) => AdmissionState::Rejected,
        _ => s,
    }
}

/// Advances the admission machine by one reported outcome.  A failure
/// before the order row exists rejects outright; a failure after it
/// exists first demands the CANCELED mark — the cleanup rule of the
/// admission path.
pub fn admission_step(s: AdmissionState, e: AdmissionEvent, is_sell: bool) -> (r: AdmissionState)
    ensures
        r == spec_admission_step(s, e, is_sell),
{
    match (s, e) {
        (AdmissionState::Validating, AdmissionEvent::Validated { ok }) => {
            if !ok {
                AdmissionState::Rejected
            } else if is_sell {
                AdmissionState::CheckingBalance
            } else {
                AdmissionState::Persisting
            }
        },
        (AdmissionState::CheckingBalance, AdmissionEvent::BalanceChecked { ok }) => {
            if ok {
                AdmissionState::Persisting
            } else {
                AdmissionState::Rejected
            }
        },
        (AdmissionState::Persisting, AdmissionEvent::Persisted { order_id }) => {
            match order_id {
                Some(id) => {
                    if is_sell {
                        AdmissionState::CreatingEscrow { order_id: id }
                    } else {
                        AdmissionState::Matching { order_id: id }
                    }
                },
                None => AdmissionState::Rejected,
            }
        },
        (AdmissionState::CreatingEscrow { order_id }, AdmissionEvent::EscrowCreated { ok }) => {
            if ok {
                AdmissionState::Matching { order_id }
            } else {
                AdmissionState::CancelingOrder { order_id }
            }
        },
        (AdmissionState::Matching { order_id }, AdmissionEvent::Matched { ok }) => {
            if ok {
                AdmissionState::Done { order_id }
            } else {
                AdmissionState::CancelingOrder { order_id }
            }
        },
        (AdmissionState::CancelingOrder { order_id }, AdmissionEvent::CancelWritten) => {
            let _ = order_id;
            AdmissionState::Rejected
        },
        (other, _) => other,
    }
}

} // verus!
