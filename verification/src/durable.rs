//! The durable matcher: fills a newly admitted order against the open
//! counter-orders the order store returns for its pair and price, in
//! creation order, skipping same-user counterparts, and records the
//! fills, bookings and escrow transitions.
//!
//! The decision logic is the pure fill planner, specified exactly; the
//! applier walks the plan over the model stores.

use vstd::prelude::*;
use crate::amount::Amount;
use crate::errors::EngineError;
use crate::order::{OrderSide, OrderStatus, spec_status_for, status_for};
use crate::store::{
    BookingStore, Escrow, EscrowStore, MinimalOrder, OrderStore, escrow_index, is_match_row,
    lemma_escrow_index, lemma_row_index, matching_indices, row_index,
};

verus! {

/// What the planner sees of one candidate counter-order.
#[derive(Clone, Copy, Debug, PartialEq, Eq, Structural)]
pub struct Candidate {
    pub order_id: u64,
    pub user_id: u64,
    pub amount: Amount,
    pub filled: Amount,
}

/// Quantity a candidate can still fill.
pub open spec fn cand_rem(c: Candidate) -> nat {
    (c.amount.units - c.filled.units) as nat
}

/// The fill quantities, one per candidate in creation order: each
/// eligible (other-user) candidate fills the smaller of what it has
/// and what the new order still needs; same-user candidates and
/// candidates reached after the new order is full fill nothing.
pub open spec fn spec_fills(user_id: u64, rem: nat, cands: Seq<Candidate>) -> Seq<nat>
    decreases cands.len(),
{
    if cands.len() == 0 {
        Seq::empty()
    } else {
        let c = cands[0];
        let m: nat = if c.user_id == user_id || rem == 0 {
            0
        } else if rem <= cand_rem(c) {
            rem
        } else {
            cand_rem(c)
        };
        seq![m] + spec_fills(user_id, (rem - m) as nat, cands.drop_first())
    }
}

/// Total quantity of a fill assignment.
pub open spec fn fills_total(fills: Seq<nat>) -> nat
    decreases fills.len(),
{
    if fills.len() == 0 {
        0
    } else {
        fills_total(fills.drop_last()) + fills.last()
    }
}

/// How many fills are positive — the number of pairs actually matched.
pub open spec fn fills_count(fills: Seq<nat>) -> nat
    decreases fills.len(),
{
    if fills.len() == 0 {
        0
    } else {
        fills_count(fills.drop_last()) + (if fills.last() > 0 {
            1nat
        } else {
            0
        })
    }
}

/// Total and count of a one-element assignment.
pub proof fn lemma_fills_total_singleton(m: nat)
    ensures
        fills_total(seq![m]) == m,
        fills_count(seq![m]) == if m > 0 {
            1nat
        } else {
            0
        },
{
    let s = seq![m];
    assert(s.len() == 1);
    assert(s.last() == m);
    assert(s.drop_last() =~= Seq::<nat>::empty());
    assert(fills_total(s.drop_last()) == 0);
    assert(fills_count(s.drop_last()) == 0);
}

/// Totals add over concatenation.
pub proof fn lemma_fills_total_concat(a: Seq<nat>, b: Seq<nat>)
    ensures
        fills_total(a + b) == fills_total(a) + fills_total(b),
        fills_count(a + b) == fills_count(a) + fills_count(b),
    decreases b.len(),
{
    if b.len() == 0 {
        assert(a + b =~= a);
    } else {
        assert((a + b).drop_last() =~= a + b.drop_last());
        assert((a + b).last() == b.last());
        lemma_fills_total_concat(a, b.drop_last());
    }
}

/// The planner never overfills: one fill per candidate, each within
/// that candidate's remaining quantity, never to a same-user
/// counterpart, and the total within what the new order needs.
pub proof fn lemma_fills_props(user_id: u64, rem: nat, cands: Seq<Candidate>)
    ensures
        spec_fills(user_id, rem, cands).len() == cands.len(),
        forall|k: int|
            0 <= k < cands.len() ==> #[trigger] spec_fills(user_id, rem, cands)[k] <= cand_rem(
                cands[k],
            ),
        forall|k: int|
            0 <= k < cands.len() && #[trigger] spec_fills(user_id, rem, cands)[k] > 0
                ==> cands[k].user_id != user_id,
        fills_total(spec_fills(user_id, rem, cands)) <= rem,
    decreases cands.len(),
{
    if cands.len() == 0 {
    } else {
        let c = cands[0];
        let m: nat = if c.user_id == user_id || rem == 0 {
            0
        } else if rem <= cand_rem(c) {
            rem
        } else {
            cand_rem(c)
        };
        let rest = spec_fills(user_id, (rem - m) as nat, cands.drop_first());
        lemma_fills_props(user_id, (rem - m) as nat, cands.drop_first());
        lemma_fills_total_concat(seq![m], rest);
        lemma_fills_total_singleton(m);
        assert forall|k: int|
            0 <= k < cands.len() implies #[trigger] spec_fills(user_id, rem, cands)[k]
            <= cand_rem(cands[k]) by {
            if k > 0 {
                assert(spec_fills(user_id, rem, cands)[k] == rest[k - 1]);
                assert(cands[k] == cands.drop_first()[k - 1]);
            }
        }
        assert forall|k: int|
            0 <= k < cands.len() && #[trigger] spec_fills(user_id, rem, cands)[k] > 0 implies
            cands[k].user_id != user_id by {
            if k > 0 {
                assert(spec_fills(user_id, rem, cands)[k] == rest[k - 1]);
                assert(cands[k] == cands.drop_first()[k - 1]);
            }
        }
    }
}

/// Peeling `i` candidates off the front restates the plan for the rest
/// with the remaining need reduced by what the prefix took.
pub proof fn lemma_fills_skip(user_id: u64, rem: nat, cands: Seq<Candidate>, i: int)
    requires
        0 <= i <= cands.len(),
    ensures
        fills_total(spec_fills(user_id, rem, cands).take(i)) <= rem,
        spec_fills(user_id, rem, cands).skip(i) == spec_fills(
            user_id,
            (rem - fills_total(spec_fills(user_id, rem, cands).take(i))) as nat,
            cands.skip(i),
        ),
    decreases i,
{
    let fills = spec_fills(user_id, rem, cands);
    if i == 0 {
        assert(fills.take(0) =~= Seq::<nat>::empty());
        assert(fills.skip(0) =~= fills);
        assert(cands.skip(0) =~= cands);
    } else {
        let c = cands[0];
        let m: nat = if c.user_id == user_id || rem == 0 {
            0
        } else if rem <= cand_rem(c) {
            rem
        } else {
            cand_rem(c)
        };
        let rest = spec_fills(user_id, (rem - m) as nat, cands.drop_first());
        lemma_fills_props(user_id, (rem - m) as nat, cands.drop_first());
        lemma_fills_skip(user_id, (rem - m) as nat, cands.drop_first(), i - 1);
        assert(fills == seq![m] + rest);
        assert(rest.len() == cands.len() - 1);
        assert(fills.len() == cands.len());
        assert(fills.take(i) =~= seq![m] + rest.take(i - 1));
        lemma_fills_total_concat(seq![m], rest.take(i - 1));
        lemma_fills_total_singleton(m);
        assert(fills.skip(i) =~= rest.skip(i - 1));
        assert(cands.drop_first().skip(i - 1) =~= cands.skip(i));
    }
}

/// Computes the fill plan: one quantity per candidate, aligned with
/// the candidate list.
pub fn plan_fills(user_id: u64, remaining: Amount, cands: &Vec<Candidate>) -> (r: Vec<Amount>)
    requires
        forall|k: int|
            0 <= k < cands@.len() ==> (#[trigger] cands@[k]).filled.units
                <= cands@[k].amount.units,
    ensures
        r@.len() == cands@.len(),
        forall|k: int|
            0 <= k < cands@.len() ==> (#[trigger] r@[k]).units as nat == spec_fills(
                user_id,
                remaining.units as nat,
                cands@,
            )[k],
{
    let ghost fills = spec_fills(user_id, remaining.units as nat, cands@);
    proof {
        lemma_fills_props(user_id, remaining.units as nat, cands@);
    }
    let mut out: Vec<Amount> = Vec::new();
    let mut rem = remaining;
    let mut i: usize = 0;
    while i < cands.len()
        invariant
            0 <= i <= cands@.len(),
            fills == spec_fills(user_id, remaining.units as nat, cands@),
            fills.len() == cands@.len(),
            out@.len() == i,
            forall|k: int| 0 <= k < i ==> (#[trigger] out@[k]).units as nat == fills[k],
            rem.units as nat == remaining.units as nat - fills_total(fills.take(i as int)),
            forall|k: int|
                0 <= k < cands@.len() ==> (#[trigger] cands@[k]).filled.units
                    <= cands@[k].amount.units,
        decreases cands@.len() - i,
    {
        proof {
            lemma_fills_skip(user_id, remaining.units as nat, cands@, i as int);
            assert(fills.skip(i as int)[0] == fills[i as int]);
            assert(cands@.skip(i as int)[0] == cands@[i as int]);
        }
        let c = cands[i];
        let avail = c.amount.minus(&c.filled);
        let m: Amount = if c.user_id == user_id || rem.units == 0 {
            Amount::zero()
        } else if rem.units <= avail.units {
            rem
        } else {
            avail
        };
        proof {
            assert(fills[i as int] == m.units as nat);
            assert(fills.take(i as int + 1) =~= fills.take(i as int) + seq![fills[i as int]]);
            lemma_fills_total_concat(fills.take(i as int), seq![fills[i as int]]);
            lemma_fills_total_singleton(fills[i as int]);
            lemma_fills_skip(user_id, remaining.units as nat, cands@, i as int + 1);
        }
        out.push(m);
        rem = rem.minus(&m);
        i = i + 1;
    }
    out
}


/// The planner's view of a stored row.
pub open spec fn cand_of(row: MinimalOrder) -> Candidate {
    Candidate {
        order_id: row.id,
        user_id: row.user_id,
        amount: row.amount,
        filled: row.filled_amount,
    }
}

/// An escrow row exists for the order and is still OPEN or PENDING.
pub open spec fn escrow_ready(rows: Seq<Escrow>, order_id: u64) -> bool {
    let k = escrow_index(rows, order_id);
    k >= 0 && (rows[k].status == OrderStatus::OPEN || rows[k].status == OrderStatus::PENDING)
}

/// `e` marked PENDING.
pub open spec fn pending_of(e: Escrow) -> Escrow {
    Escrow { status: OrderStatus::PENDING, ..e }
}

/// The fill plan of a stored order against its store: the candidates
/// are the open counter-orders at its exact pair and price in
/// creation order, and the fills are the planner's assignment.
pub open spec fn planned_fills(rows: Seq<MinimalOrder>, new_id: u64) -> Seq<nat> {
    let nk = row_index(rows, new_id);
    let nr = rows[nk];
    let idxs = matching_indices(rows, nr.trading_pair@, nr.price, nr.side);
    let cands = Seq::new(idxs.len(), |j: int| cand_of(rows[idxs[j]]));
    spec_fills(nr.user_id, nr.spec_remaining(), cands)
}

/// `x` is `y` advanced by a fill: the same order in every identity
/// field, a strictly larger filled amount, and the status that fill
/// implies.
pub open spec fn row_filled_like(x: MinimalOrder, y: MinimalOrder) -> bool {
    x.id == y.id && x.user_id == y.user_id && x.is_maker == y.is_maker && x.trading_pair
        == y.trading_pair && x.side == y.side && x.order_type == y.order_type && x.price == y.price
        && x.amount == y.amount && x.bank_id == y.bank_id && x.created_at == y.created_at
        && x.updated_at == y.updated_at && x.filled_amount.units > y.filled_amount.units
        && x.status == spec_status_for(x.amount.units as nat, x.filled_amount.units as nat)
}

/// An escrow that was OPEN or PENDING stays so when rows only move to
/// PENDING in place.
pub proof fn lemma_ready_preserved(erows0: Seq<Escrow>, erows1: Seq<Escrow>, order_id: u64)
    requires
        erows1.len() == erows0.len(),
        forall|j: int|
            0 <= j < erows0.len() ==> (#[trigger] erows1[j]) == erows0[j] || erows1[j]
                == pending_of(erows0[j]),
        escrow_ready(erows0, order_id),
    ensures
        escrow_ready(erows1, order_id),
{
    assert forall|j: int| 0 <= j < erows0.len() implies (#[trigger] erows1[j]).order_id
        == erows0[j].order_id by {}
    lemma_escrow_index_same(erows1, erows0, order_id);
    lemma_escrow_index(erows0, order_id);
    let k = escrow_index(erows0, order_id);
    assert(erows1[k] == erows0[k] || erows1[k] == pending_of(erows0[k]));
}

/// Matching indices point at matching rows, strictly in creation
/// order, and no two point at the same row.
pub proof fn lemma_matching_indices(
    rows: Seq<MinimalOrder>,
    pair: Seq<char>,
    price: Amount,
    side: OrderSide,
)
    ensures
        forall|k: int|
            0 <= k < matching_indices(rows, pair, price, side).len() ==> 0 <= #[trigger]
                matching_indices(rows, pair, price, side)[k] < rows.len() && is_match_row(
                rows[matching_indices(rows, pair, price, side)[k]],
                pair,
                price,
                side,
            ),
        forall|k1: int, k2: int|
            0 <= k1 < k2 < matching_indices(rows, pair, price, side).len() ==> matching_indices(
                rows,
                pair,
                price,
                side,
            )[k1] < matching_indices(rows, pair, price, side)[k2],
    decreases rows.len(),
{
    if rows.len() == 0 {
    } else {
        let prev = matching_indices(rows.drop_last(), pair, price, side);
        lemma_matching_indices(rows.drop_last(), pair, price, side);
        let cur = matching_indices(rows, pair, price, side);
        assert forall|k: int| 0 <= k < cur.len() implies 0 <= #[trigger] cur[k] < rows.len()
            && is_match_row(rows[cur[k]], pair, price, side) by {
            if k < prev.len() {
                assert(cur[k] == prev[k]);
                assert(rows.drop_last()[prev[k]] == rows[prev[k]]);
            } else {
                assert(cur[k] == rows.len() - 1);
            }
        }
        assert forall|k1: int, k2: int| 0 <= k1 < k2 < cur.len() implies cur[k1] < cur[k2] by {
            assert(cur[k1] == prev[k1]);
            if k2 < prev.len() {
                assert(cur[k2] == prev[k2]);
            } else {
                assert(cur[k2] == rows.len() - 1);
                assert(0 <= prev[k1] < rows.drop_last().len());
            }
        }
    }
}

/// A strictly increasing index list starting in bounds grows at least
/// one per step.
pub proof fn lemma_mono_ge(idxs: Seq<int>, k: int)
    requires
        forall|k1: int, k2: int| 0 <= k1 < k2 < idxs.len() ==> idxs[k1] < idxs[k2],
        forall|j: int| 0 <= j < idxs.len() ==> 0 <= #[trigger] idxs[j],
        0 <= k < idxs.len(),
    ensures
        idxs[k] >= k,
    decreases k,
{
    if k > 0 {
        lemma_mono_ge(idxs, k - 1);
    }
}

/// With unique row ids, the id at position `l` is found at `l`.
pub proof fn lemma_row_index_at(rows: Seq<MinimalOrder>, l: int)
    requires
        0 <= l < rows.len(),
        forall|i: int, j: int| 0 <= i < j < rows.len() ==> rows[i].id != rows[j].id,
    ensures
        row_index(rows, rows[l].id) == l,
    decreases rows.len(),
{
    if l == 0 {
    } else {
        assert(rows[0].id != rows[l].id);
        assert(rows.drop_first()[l - 1] == rows[l]);
        assert forall|i: int, j: int|
            0 <= i < j < rows.drop_first().len() implies rows.drop_first()[i].id != rows
            .drop_first()[j].id by {
            assert(rows.drop_first()[i] == rows[i + 1]);
            assert(rows.drop_first()[j] == rows[j + 1]);
        }
        lemma_row_index_at(rows.drop_first(), l - 1);
    }
}

/// Row lookup depends only on the ids, position by position.
pub proof fn lemma_row_index_same(rows1: Seq<MinimalOrder>, rows2: Seq<MinimalOrder>, id: u64)
    requires
        rows1.len() == rows2.len(),
        forall|j: int| 0 <= j < rows1.len() ==> rows1[j].id == rows2[j].id,
    ensures
        row_index(rows1, id) == row_index(rows2, id),
    decreases rows1.len(),
{
    if rows1.len() > 0 {
        assert(rows1[0].id == rows2[0].id);
        assert forall|j: int| 0 <= j < rows1.drop_first().len() implies rows1.drop_first()[j].id
            == rows2.drop_first()[j].id by {
            assert(rows1.drop_first()[j] == rows1[j + 1]);
            assert(rows2.drop_first()[j] == rows2[j + 1]);
        }
        lemma_row_index_same(rows1.drop_first(), rows2.drop_first(), id);
    }
}

/// Escrow lookup depends only on the order ids, position by position.
pub proof fn lemma_escrow_index_same(rows1: Seq<Escrow>, rows2: Seq<Escrow>, order_id: u64)
    requires
        rows1.len() == rows2.len(),
        forall|j: int| 0 <= j < rows1.len() ==> rows1[j].order_id == rows2[j].order_id,
    ensures
        escrow_index(rows1, order_id) == escrow_index(rows2, order_id),
    decreases rows1.len(),
{
    if rows1.len() > 0 {
        assert(rows1[0].order_id == rows2[0].order_id);
        assert forall|j: int|
            0 <= j < rows1.drop_first().len() implies rows1.drop_first()[j].order_id == rows2
            .drop_first()[j].order_id by {
            assert(rows1.drop_first()[j] == rows1[j + 1]);
            assert(rows2.drop_first()[j] == rows2[j + 1]);
        }
        lemma_escrow_index_same(rows1.drop_first(), rows2.drop_first(), order_id);
    }
}


/// Fills a newly admitted order against the store's open counter-orders
/// at its exact pair and price, in creation order, skipping same-user
/// counterparts: for each positive planned fill it raises both rows'
/// filled amounts and statuses, books the buyer-seller pair, and moves
/// the seller's escrow to PENDING; it reports how many pairs matched.
///
/// Success is owed whenever the order exists, was not canceled, and
/// every sell order that may be touched still has a live escrow row.
#[verifier::rlimit(100)]
pub fn match_new_order(
    orders: &mut OrderStore,
    escrows: &mut EscrowStore,
    bookings: &mut BookingStore,
    new_id: u64,
    now: u64,
) -> (r: Result<u64, EngineError>)
    requires
        old(orders).wf(),
        old(escrows).wf(),
        old(bookings).next_id + old(orders).rows@.len() <= u64::MAX,
        row_index(old(orders).rows@, new_id) >= 0 ==> ({
            let nr = old(orders).rows@[row_index(old(orders).rows@, new_id)];
            &&& nr.status != OrderStatus::CANCELED
            &&& (nr.side is Sell ==> escrow_ready(old(escrows).rows@, new_id))
            &&& (nr.side is Buy ==> forall|i: int|
                0 <= i < old(orders).rows@.len() && is_match_row(
                    #[trigger] old(orders).rows@[i],
                    nr.trading_pair@,
                    nr.price,
                    nr.side,
                ) ==> escrow_ready(old(escrows).rows@, old(orders).rows@[i].id))
        }),
    ensures
        final(orders).wf(),
        final(escrows).wf(),
        final(orders).rows@.len() == old(orders).rows@.len(),
        final(orders).next_id == old(orders).next_id,
        (forall|j: int|
            0 <= j < old(escrows).rows@.len() ==> (#[trigger] old(escrows).rows@[j]).order_id
                < old(orders).next_id) ==> (forall|j: int|
            0 <= j < final(escrows).rows@.len() ==> (#[trigger] final(escrows).rows@[j]).order_id < final(orders).next_id),
        (forall|i2: int|
            0 <= i2 < old(orders).rows@.len() && (#[trigger] old(orders).rows@[i2]).side
                is Sell && old(orders).rows@[i2].status == OrderStatus::OPEN ==> escrow_ready(
                old(escrows).rows@,
                old(orders).rows@[i2].id,
            )) ==> (forall|i2: int|
            0 <= i2 < final(orders).rows@.len() && (#[trigger] final(orders).rows@[i2]).side
                is Sell && final(orders).rows@[i2].status == OrderStatus::OPEN ==> escrow_ready(
                final(escrows).rows@,
                final(orders).rows@[i2].id,
            )),
        row_index(old(orders).rows@, new_id) < 0 ==> r == Err::<u64, EngineError>(
            EngineError::NotFound,
        ) && *final(orders) == *old(orders) && *final(escrows) == *old(escrows)
            && *final(bookings) == *old(bookings),
        row_index(old(orders).rows@, new_id) >= 0 ==> ({
            let nk = row_index(old(orders).rows@, new_id);
            let nr = old(orders).rows@[nk];
            let fills = planned_fills(old(orders).rows@, new_id);
            let total = fills_total(fills);
            &&& r == Ok::<u64, EngineError>(fills_count(fills) as u64)
            &&& (forall|l: int|
                0 <= l < old(orders).rows@.len() ==> (#[trigger] final(orders).rows@[l]).id == old(orders).rows@[l].id)
            &&& (forall|l: int|
                0 <= l < old(orders).rows@.len() ==> (#[trigger] final(orders).rows@[l]).filled_amount.units >= old(orders).rows@[l].filled_amount.units)
            &&& (forall|l: int|
                0 <= l < old(orders).rows@.len() && l != nk ==> (#[trigger] final(orders).rows@[l]) == old(orders).rows@[l] || row_filled_like(
                    final(orders).rows@[l],
                    old(orders).rows@[l],
                ))
            &&& (total > 0 ==> final(orders).rows@[nk] == (MinimalOrder {
                filled_amount: Amount { units: (nr.filled_amount.units + total) as u128 },
                status: spec_status_for(
                    nr.amount.units as nat,
                    (nr.filled_amount.units + total) as nat,
                ),
                ..nr
            }))
            &&& (total == 0 ==> final(orders).rows@[nk] == nr)
            &&& final(bookings).rows@.len() == old(bookings).rows@.len() + fills_count(fills)
            &&& (forall|l: int|
                0 <= l < old(bookings).rows@.len() ==> (#[trigger] final(bookings).rows@[l]) == old(bookings).rows@[l])
            &&& (forall|l: int|
                old(bookings).rows@.len() <= l < final(bookings).rows@.len() ==> ({
                    let b = #[trigger] final(bookings).rows@[l];
                    &&& b.order_id == new_id
                    &&& b.buyer_id != b.seller_id
                    &&& (nr.side is Buy ==> b.buyer_id == nr.user_id)
                    &&& (nr.side is Sell ==> b.seller_id == nr.user_id)
                }))
            &&& final(escrows).rows@.len() == old(escrows).rows@.len()
            &&& (forall|j: int|
                0 <= j < old(escrows).rows@.len() ==> (#[trigger] final(escrows).rows@[j]) == old(escrows).rows@[j] || final(escrows).rows@[j] == pending_of(old(escrows).rows@[j]))
        }),
{
    let ghost rows0 = orders.rows@;
    let ghost erows0 = escrows.rows@;
    let ghost brows0 = bookings.rows@;
    let nk: usize = match orders.find_by_id(new_id) {
        None => {
            proof {
                lemma_row_index(rows0, new_id);
            }
            return Err(EngineError::NotFound);
        },
        Some(k) => k,
    };
    proof {
        lemma_row_index(rows0, new_id);
    }
    let ghost nr = rows0[nk as int];
    let side = orders.rows[nk].side;
    let price = orders.rows[nk].price;
    let user_id = orders.rows[nk].user_id;
    let amount0 = orders.rows[nk].amount;
    let filled0 = orders.rows[nk].filled_amount;
    let remaining = orders.rows[nk].remaining();
    let idx_vec = orders.find_matching_orders(&orders.rows[nk].trading_pair, &price, side);
    let ghost idxs = matching_indices(rows0, nr.trading_pair@, nr.price, nr.side);
    proof {
        lemma_matching_indices(rows0, nr.trading_pair@, nr.price, nr.side);
        assert(idx_vec@.map_values(|u: usize| u as int) == idxs);
        assert forall|j: int| 0 <= j < idx_vec@.len() implies (#[trigger] idx_vec@[j]) as int
            == idxs[j] by {
            assert(idx_vec@.map_values(|u: usize| u as int)[j] == idx_vec@[j] as int);
        }
        if idxs.len() > 0 {
            lemma_mono_ge(idxs, idxs.len() - 1);
        }
    }
    let ghost cands_spec = Seq::new(idxs.len(), |j: int| cand_of(rows0[idxs[j]]));
    // snapshot the candidates
    let mut cands: Vec<Candidate> = Vec::new();
    let mut i: usize = 0;
    while i < idx_vec.len()
        invariant
            0 <= i <= idx_vec@.len(),
            idx_vec@.len() == idxs.len(),
            forall|j: int| 0 <= j < idx_vec@.len() ==> (#[trigger] idx_vec@[j]) as int == idxs[j],
            forall|j: int| 0 <= j < idxs.len() ==> 0 <= #[trigger] idxs[j] < rows0.len(),
            orders.rows@ == rows0,
            cands_spec == Seq::new(idxs.len(), |j: int| cand_of(rows0[idxs[j]])),
            cands@.len() == i,
            forall|j: int| 0 <= j < i ==> (#[trigger] cands@[j]) == cands_spec[j],
        decreases idx_vec@.len() - i,
    {
        let l = idx_vec[i];
        let row = &orders.rows[l];
        let c = Candidate {
            order_id: row.id,
            user_id: row.user_id,
            amount: row.amount,
            filled: row.filled_amount,
        };
        proof {
            assert(cands_spec[i as int] == cand_of(rows0[idxs[i as int]]));
        }
        cands.push(c);
        i = i + 1;
    }
    proof {
        assert forall|k: int| 0 <= k < cands@.len() implies (#[trigger] cands@[k]).filled.units
            <= cands@[k].amount.units by {
            assert(cands@[k] == cands_spec[k]);
            assert(rows0[idxs[k]].wf());
        }
    }
    let fills = plan_fills(user_id, remaining, &cands);
    let ghost fills_spec = spec_fills(nr.user_id, nr.spec_remaining(), cands_spec);
    proof {
        lemma_fills_props(nr.user_id, nr.spec_remaining(), cands_spec);
        assert(cands@ =~= cands_spec);
        // the ghost plan is the named plan of the store
        assert(row_index(rows0, new_id) == nk as int);
        assert(Seq::new(idxs.len(), |j: int| cand_of(rows0[idxs[j]])) =~= cands_spec);
        assert(planned_fills(rows0, new_id) == fills_spec);
    }
    // apply the plan
    let mut total = Amount::zero();
    let mut count: usize = 0;
    let mut k: usize = 0;
    while k < cands.len()
        invariant
            0 <= k <= cands@.len(),
            cands@.len() == idxs.len(),
            cands@ == cands_spec,
            fills@.len() == cands@.len(),
            forall|j: int| 0 <= j < cands@.len() ==> (#[trigger] fills@[j]).units as nat
                == fills_spec[j],
            fills_spec == spec_fills(nr.user_id, nr.spec_remaining(), cands_spec),
            fills_spec.len() == cands@.len(),
            old(orders).wf(),
            cands_spec == Seq::new(idxs.len(), |j: int| cand_of(rows0[idxs[j]])),
            idxs == matching_indices(rows0, nr.trading_pair@, nr.price, nr.side),
            forall|j: int| 0 <= j < idxs.len() ==> 0 <= #[trigger] idxs[j] < rows0.len()
                && is_match_row(rows0[idxs[j]], nr.trading_pair@, nr.price, nr.side),
            forall|k1: int, k2: int| 0 <= k1 < k2 < idxs.len() ==> idxs[k1] < idxs[k2],
            idxs.len() <= rows0.len(),
            0 <= nk < rows0.len(),
            nr == rows0[nk as int],
            nr.id == new_id,
            nr.status != OrderStatus::CANCELED,
            nr.side is Sell ==> escrow_ready(erows0, new_id),
            nr.side is Buy ==> forall|i2: int|
                0 <= i2 < rows0.len() && is_match_row(
                    #[trigger] rows0[i2],
                    nr.trading_pair@,
                    nr.price,
                    nr.side,
                ) ==> escrow_ready(erows0, rows0[i2].id),
            side == nr.side,
            user_id == nr.user_id,
            orders.wf(),
            escrows.wf(),
            orders.rows@.len() == rows0.len(),
            orders.next_id == old(orders).next_id,
            rows0 == old(orders).rows@,
            erows0 == old(escrows).rows@,
            brows0 == old(bookings).rows@,
            forall|l: int| 0 <= l < rows0.len() ==> (#[trigger] orders.rows@[l]).id == rows0[l].id,
            forall|l: int|
                0 <= l < rows0.len() ==> (#[trigger] orders.rows@[l]).filled_amount.units
                    >= rows0[l].filled_amount.units,
            orders.rows@[nk as int] == nr,
            forall|l: int|
                0 <= l < rows0.len() && l != nk ==> (#[trigger] orders.rows@[l]) == rows0[l]
                    || row_filled_like(orders.rows@[l], rows0[l]),
            forall|j: int| k <= j < idxs.len() ==> #[trigger] orders.rows@[idxs[j]]
                == rows0[idxs[j]],
            total.units as nat == fills_total(fills_spec.take(k as int)),
            count == fills_count(fills_spec.take(k as int)),
            count <= k,
            bookings.rows@.len() == brows0.len() + count,
            bookings.next_id == old(bookings).next_id + count,
            old(bookings).next_id + rows0.len() <= u64::MAX,
            forall|l: int| 0 <= l < brows0.len() ==> (#[trigger] bookings.rows@[l]) == brows0[l],
            forall|l: int|
                brows0.len() <= l < bookings.rows@.len() ==> ({
                    let b = #[trigger] bookings.rows@[l];
                    &&& b.order_id == new_id
                    &&& b.buyer_id != b.seller_id
                    &&& (nr.side is Buy ==> b.buyer_id == nr.user_id)
                    &&& (nr.side is Sell ==> b.seller_id == nr.user_id)
                }),
            escrows.rows@.len() == erows0.len(),
            forall|j: int|
                0 <= j < erows0.len() ==> (#[trigger] escrows.rows@[j]) == erows0[j]
                    || escrows.rows@[j] == pending_of(erows0[j]),
        decreases cands@.len() - k,
    {
        let m = fills[k];
        proof {
            lemma_fills_props(nr.user_id, nr.spec_remaining(), cands_spec);
            lemma_fills_skip(nr.user_id, nr.spec_remaining(), cands_spec, k as int);
            lemma_fills_skip(nr.user_id, nr.spec_remaining(), cands_spec, k as int + 1);
            assert(fills_spec.take(k as int + 1) =~= fills_spec.take(k as int) + seq![
                fills_spec[k as int],
            ]);
            lemma_fills_total_concat(fills_spec.take(k as int), seq![fills_spec[k as int]]);
            lemma_fills_total_singleton(fills_spec[k as int]);
        }
        if m.units > 0 {
            let c = cands[k];
            proof {
                assert(cands@[k as int] == cand_of(rows0[idxs[k as int]]));
                assert(fills_spec[k as int] <= cand_rem(cands_spec[k as int]));
                assert(fills_spec[k as int] > 0 ==> cands_spec[k as int].user_id != nr.user_id);
                assert(c.user_id != user_id);
                // the candidate row is untouched and found at its index
                assert(orders.rows@[idxs[k as int]] == rows0[idxs[k as int]]);
                lemma_row_index_same(orders.rows@, rows0, c.order_id);
                lemma_row_index_at(rows0, idxs[k as int]);
            }
            let nf = Amount { units: c.filled.units + m.units };
            let st = status_for(&c.amount, &nf);
            let ghost orows_before = orders.rows@;
            match orders.update_filled_amount_and_status(c.order_id, nf, st) {
                Ok(()) => {},
                Err(e) => {
                    proof {
                        assert(false);
                    }
                    return Err(e);
                },
            }
            proof {
                // only the candidate's row changed
                assert(orders.rows@ == orows_before.update(
                    idxs[k as int],
                    (MinimalOrder { filled_amount: nf, status: st, ..rows0[idxs[k as int]] }),
                ));
                assert(orders.rows@[nk as int] == nr) by {
                    if idxs[k as int] == nk as int {
                        assert(rows0[idxs[k as int]].side == nr.side);
                        assert(is_match_row(rows0[idxs[k as int]], nr.trading_pair@, nr.price, nr.side));
                        assert(false);
                    }
                }
                assert forall|j: int| k as int + 1 <= j < idxs.len() implies #[trigger] orders
                    .rows@[idxs[j]] == rows0[idxs[j]] by {
                    assert(idxs[k as int] < idxs[j]);
                }
                assert forall|l: int|
                    0 <= l < rows0.len() && l != nk implies (#[trigger] orders.rows@[l])
                        == rows0[l] || row_filled_like(orders.rows@[l], rows0[l]) by {
                    if l == idxs[k as int] {
                        assert(orders.rows@[l] == (MinimalOrder {
                            filled_amount: nf,
                            status: st,
                            ..rows0[l]
                        }));
                        assert(nf.units > rows0[l].filled_amount.units);
                    } else {
                        assert(orders.rows@[l] == orows_before[l]);
                    }
                }
            }
            let buyer_id = if side_is_buy(side) {
                user_id
            } else {
                c.user_id
            };
            let seller_id = if side_is_buy(side) {
                c.user_id
            } else {
                user_id
            };
            proof {
                assert(count < idxs.len());
                assert(bookings.next_id < u64::MAX);
            }
            bookings.save_coin_booking(new_id, buyer_id, seller_id, now);
            let seller_order = if side_is_buy(side) {
                c.order_id
            } else {
                new_id
            };
            proof {
                // the seller order's escrow is still live
                if nr.side is Buy {
                    assert(escrow_ready(erows0, rows0[idxs[k as int]].id));
                } else {
                    assert(escrow_ready(erows0, new_id));
                }
                assert(escrow_ready(erows0, seller_order));
                lemma_escrow_index(erows0, seller_order);
                assert forall|j: int|
                    0 <= j < erows0.len() implies (#[trigger] escrows.rows@[j]).order_id
                    == erows0[j].order_id by {}
                lemma_escrow_index_same(escrows.rows@, erows0, seller_order);
            }
            let ghost erows_before = escrows.rows@;
            match escrows.update_status(seller_order, OrderStatus::PENDING) {
                Ok(()) => {},
                Err(e) => {
                    proof {
                        let ke = escrow_index(erows0, seller_order);
                        assert(erows_before[ke] == erows0[ke] || erows_before[ke] == pending_of(
                            erows0[ke],
                        ));
                        assert(false);
                    }
                    return Err(e);
                },
            }
            proof {
                let ke = escrow_index(erows0, seller_order);
                assert forall|j: int|
                    0 <= j < erows0.len() implies (#[trigger] escrows.rows@[j]) == erows0[j]
                        || escrows.rows@[j] == pending_of(erows0[j]) by {
                    if j == ke {
                        assert(escrows.rows@[j] == (Escrow {
                            status: OrderStatus::PENDING,
                            ..erows_before[ke]
                        }));
                    } else {
                        assert(escrows.rows@[j] == erows_before[j]);
                    }
                }
            }
            total = Amount { units: total.units + m.units };
            count = count + 1;
        }
        k = k + 1;
    }
    proof {
        assert(fills_spec.take(cands@.len() as int) =~= fills_spec);
    }
    if total.units > 0 {
        proof {
            assert(orders.rows@[nk as int] == nr);
            lemma_row_index_same(orders.rows@, rows0, new_id);
            lemma_row_index_at(rows0, nk as int);
            assert(fills_total(fills_spec) <= nr.spec_remaining());
        }
        let nf = Amount { units: filled0.units + total.units };
        let st = status_for(&amount0, &nf);
        let ghost orows_before = orders.rows@;
        match orders.update_filled_amount_and_status(new_id, nf, st) {
            Ok(()) => {},
            Err(e) => {
                proof {
                    assert(nr.wf());
                    assert(nr.status == spec_status_for(
                        nr.amount.units as nat,
                        nr.filled_amount.units as nat,
                    ));
                    assert(false);
                }
                return Err(e);
            },
        }
        proof {
            assert(orders.rows@ == orows_before.update(
                nk as int,
                (MinimalOrder { filled_amount: nf, status: st, ..nr }),
            ));
        }
    }
    proof {
        if forall|j: int|
            0 <= j < erows0.len() ==> (#[trigger] erows0[j]).order_id < old(orders).next_id {
            assert forall|j: int|
                0 <= j < escrows.rows@.len() implies (#[trigger] escrows.rows@[j]).order_id
                    < orders.next_id by {
                assert(escrows.rows@[j] == erows0[j] || escrows.rows@[j] == pending_of(
                    erows0[j],
                ));
            }
        }
        if forall|i2: int|
            0 <= i2 < rows0.len() && (#[trigger] rows0[i2]).side is Sell && rows0[i2].status
                == OrderStatus::OPEN ==> escrow_ready(erows0, rows0[i2].id) {
            assert forall|i2: int|
                0 <= i2 < orders.rows@.len() && (#[trigger] orders.rows@[i2]).side is Sell
                    && orders.rows@[i2].status == OrderStatus::OPEN implies escrow_ready(
                escrows.rows@,
                orders.rows@[i2].id,
            ) by {
                if i2 == nk as int {
                    assert(orders.rows@[i2] == nr);
                    assert(escrow_ready(erows0, nr.id));
                    lemma_ready_preserved(erows0, escrows.rows@, nr.id);
                } else {
                    if orders.rows@[i2] == rows0[i2] {
                        assert(escrow_ready(erows0, rows0[i2].id));
                        lemma_ready_preserved(erows0, escrows.rows@, rows0[i2].id);
                    } else {
                        assert(row_filled_like(orders.rows@[i2], rows0[i2]));
                        assert(orders.rows@[i2].filled_amount.units > 0);
                        assert(orders.rows@[i2].status != OrderStatus::OPEN);
                    }
                }
            }
        }
    }
    Ok(count as u64)
}

/// True exactly on the buy side.
fn side_is_buy(side: OrderSide) -> (r: bool)
    ensures
        r == (side is Buy),
{
    match side {
        OrderSide::Buy => true,
        OrderSide::Sell => false,
    }
}

} // verus!
