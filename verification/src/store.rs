//! In-memory model of the durable stores: order rows, seller escrow
//! rows, buyer-seller booking rows, and the executed-trade log.
//!
//! These structures carry the exact semantics the persistence layer
//! must honour — fresh ids, status/fill invariants, monotone fills,
//! idempotent updates, append-only bookings, atomic batch inserts —
//! and the unverified storage driver mirrors them row for row.

use vstd::prelude::*;
use crate::amount::Amount;
use crate::errors::EngineError;
use crate::order::{OrderSide, OrderStatus, OrderType, Trade, spec_status_for, status_for};

verus! {

/// A persisted order row.  Ids are surrogate integers in the model;
/// the storage driver maps them to its own key format.
pub struct MinimalOrder {
    pub id: u64,
    pub user_id: u64,
    pub is_maker: bool,
    pub trading_pair: String,
    pub side: OrderSide,
    pub order_type: OrderType,
    pub price: Amount,
    pub amount: Amount,
    pub filled_amount: Amount,
    pub status: OrderStatus,
    pub bank_id: Option<u64>,
    pub created_at: u64,
    pub updated_at: u64,
}

impl MinimalOrder {
    /// Row invariant: a positive amount never overfilled, and the
    /// status agrees with the filled amount unless the row was
    /// canceled.
    pub open spec fn wf(&self) -> bool {
        self.amount.units > 0 && self.filled_amount.units <= self.amount.units && (self.status
            == OrderStatus::CANCELED || self.status == spec_status_for(
            self.amount.units as nat,
            self.filled_amount.units as nat,
        ))
    }

    /// Quantity still unfilled.
    pub open spec fn spec_remaining(&self) -> nat {
        (self.amount.units - self.filled_amount.units) as nat
    }

    /// Quantity still unfilled.
    pub fn remaining(&self) -> (r: Amount)
        requires
            self.filled_amount.units <= self.amount.units,
        ensures
            r.units == self.spec_remaining(),
    {
        self.amount.minus(&self.filled_amount)
    }
}

/// The orders table: rows keyed by a monotonically fresh id.
pub struct OrderStore {
    pub rows: Vec<MinimalOrder>,
    pub next_id: u64,
}

/// First row index holding `id`, or `-1` when absent.
pub open spec fn row_index(rows: Seq<MinimalOrder>, id: u64) -> int
    decreases rows.len(),
{
    if rows.len() == 0 {
        -1
    } else if rows[0].id == id {
        0
    } else if row_index(rows.drop_first(), id) < 0 {
        -1
    } else {
        1 + row_index(rows.drop_first(), id)
    }
}

/// A found row index is in bounds and holds the id; `-1` means absent.
pub proof fn lemma_row_index(rows: Seq<MinimalOrder>, id: u64)
    ensures
        row_index(rows, id) >= 0 ==> row_index(rows, id) < rows.len() && rows[row_index(
            rows,
            id,
        )].id == id,
        row_index(rows, id) < 0 ==> forall|i: int|
            0 <= i < rows.len() ==> (#[trigger] rows[i]).id != id,
    decreases rows.len(),
{
    if rows.len() == 0 {
    } else if rows[0].id == id {
    } else {
        lemma_row_index(rows.drop_first(), id);
        if row_index(rows, id) >= 0 {
            assert(rows[row_index(rows, id)] == rows.drop_first()[row_index(
                rows.drop_first(),
                id,
            )]);
        } else {
            assert forall|i: int| 0 <= i < rows.len() implies (#[trigger] rows[i]).id != id by {
                if i > 0 {
                    assert(rows[i] == rows.drop_first()[i - 1]);
                }
            }
        }
    }
}

impl OrderStore {
    /// Every row is well formed, ids are unique and below the next
    /// fresh id.
    pub open spec fn wf(&self) -> bool {
        (forall|i: int| 0 <= i < self.rows@.len() ==> (#[trigger] self.rows@[i]).wf())
            && (forall|i: int|
            0 <= i < self.rows@.len() ==> (#[trigger] self.rows@[i]).id < self.next_id) && (forall|
            i: int,
            j: int,
        |
            0 <= i < j < self.rows@.len() ==> self.rows@[i].id != self.rows@[j].id)
    }

    /// An empty orders table.
    pub fn new() -> (r: OrderStore)
        ensures
            r.wf(),
            r.rows@.len() == 0,
            r.next_id == 0,
    {
        OrderStore { rows: Vec::new(), next_id: 0 }
    }

    /// Looks up a row by id.
    pub fn find_by_id(&self, id: u64) -> (r: Option<usize>)
        ensures
            (r matches Some(i) && i as int == row_index(self.rows@, id)) || (r is None
                && row_index(self.rows@, id) < 0),
    {
        let mut i: usize = 0;
        proof {
            assert(self.rows@.skip(0) =~= self.rows@);
        }
        while i < self.rows.len()
            invariant
                0 <= i <= self.rows@.len(),
                row_index(self.rows@, id) == if row_index(self.rows@.skip(i as int), id) < 0 {
                    -1
                } else {
                    i + row_index(self.rows@.skip(i as int), id)
                },
            decreases self.rows@.len() - i,
        {
            proof {
                assert(self.rows@.skip(i as int)[0] == self.rows@[i as int]);
                assert(self.rows@.skip(i as int).drop_first() =~= self.rows@.skip(i as int + 1));
            }
            if self.rows[i].id == id {
                return Some(i);
            }
            i = i + 1;
        }
        proof {
            assert(self.rows@.skip(i as int).len() == 0);
        }
        None
    }

    /// Allocates a fresh id and appends a new OPEN row with nothing
    /// filled, returning the new id.
    pub fn save_order(
        &mut self,
        user_id: u64,
        is_maker: bool,
        trading_pair: String,
        side: OrderSide,
        order_type: OrderType,
        price: Amount,
        amount: Amount,
        bank_id: Option<u64>,
        now: u64,
    ) -> (r: u64)
        requires
            old(self).wf(),
            old(self).next_id < u64::MAX,
            amount.units > 0,
        ensures
            final(self).wf(),
            r == old(self).next_id,
            final(self).next_id == old(self).next_id + 1,
            final(self).rows@.len() == old(self).rows@.len() + 1,
            forall|i: int|
                0 <= i < old(self).rows@.len() ==> final(self).rows@[i] == old(self).rows@[i],
            ({
                let row = final(self).rows@.last();
                &&& row.id == r
                &&& row.user_id == user_id
                &&& row.is_maker == is_maker
                &&& row.trading_pair == trading_pair
                &&& row.side == side
                &&& row.order_type == order_type
                &&& row.price == price
                &&& row.amount == amount
                &&& row.filled_amount == (Amount { units: 0 })
                &&& row.status == OrderStatus::OPEN
                &&& row.bank_id == bank_id
                &&& row.created_at == now
                &&& row.updated_at == now
            }),
    {
        let id = self.next_id;
        let row = MinimalOrder {
            id,
            user_id,
            is_maker,
            trading_pair,
            side,
            order_type,
            price,
            amount,
            filled_amount: Amount::zero(),
            status: OrderStatus::OPEN,
            bank_id,
            created_at: now,
            updated_at: now,
        };
        self.rows.push(row);
        self.next_id = self.next_id + 1;
        id
    }

    /// Sets a row's filled amount and status.  The write is idempotent
    /// by `(order_id, filled_amount)` and monotone: a smaller filled
    /// amount than the row already carries is refused, as is one above
    /// the row's amount or a status that disagrees with the fill.
    pub fn update_filled_amount_and_status(
        &mut self,
        order_id: u64,
        filled_amount: Amount,
        status: OrderStatus,
    ) -> (r: Result<(), EngineError>)
        requires
            old(self).wf(),
        ensures
            final(self).wf(),
            final(self).next_id == old(self).next_id,
            row_index(old(self).rows@, order_id) < 0 ==> r == Err::<(), EngineError>(
                EngineError::NotFound,
            ) && *final(self) == *old(self),
            ({
                let k = row_index(old(self).rows@, order_id);
                k >= 0 ==> ({
                    let row = old(self).rows@[k];
                    if filled_amount.units < row.filled_amount.units || filled_amount.units
                        > row.amount.units || status != spec_status_for(
                        row.amount.units as nat,
                        filled_amount.units as nat,
                    ) {
                        r == Err::<(), EngineError>(EngineError::Conflict) && *final(self) == *old(
                            self,
                        )
                    } else {
                        r == Ok::<(), EngineError>(()) && final(self).rows@ == old(
                            self,
                        ).rows@.update(
                            k,
                            (MinimalOrder {
                                filled_amount,
                                status,
                                ..row
                            }),
                        )
                    }
                })
            }),
    {
        let ghost rows0 = self.rows@;
        match self.find_by_id(order_id) {
            None => {
                proof {
                    lemma_row_index(rows0, order_id);
                }
                Err(EngineError::NotFound)
            },
            Some(k) => {
                proof {
                    lemma_row_index(rows0, order_id);
                }
                let row = &self.rows[k];
                if filled_amount.units < row.filled_amount.units || filled_amount.units
                    > row.amount.units {
                    return Err(EngineError::Conflict);
                }
                let expected = status_for(&row.amount, &filled_amount);
                if status != expected {
                    return Err(EngineError::Conflict);
                }
                let updated = MinimalOrder {
                    id: row.id,
                    user_id: row.user_id,
                    is_maker: row.is_maker,
                    trading_pair: row.trading_pair.clone(),
                    side: row.side,
                    order_type: row.order_type,
                    price: row.price,
                    amount: row.amount,
                    filled_amount,
                    status,
                    bank_id: row.bank_id,
                    created_at: row.created_at,
                    updated_at: row.updated_at,
                };
                proof {
                    assert(updated == (MinimalOrder {
                        filled_amount,
                        status,
                        ..rows0[k as int]
                    }));
                }
                self.rows[k] = updated;
                proof {
                    assert forall|i: int| 0 <= i < self.rows@.len() implies (#[trigger] self
                        .rows@[i]).wf() by {
                        if i != k as int {
                            assert(self.rows@[i] == rows0[i]);
                        }
                    }
                }
                Ok(())
            },
        }
    }

    /// Marks a row CANCELED, whatever its fill state; used by the
    /// admission path to undo a partially admitted order.
    pub fn mark_canceled(&mut self, order_id: u64) -> (r: Result<(), EngineError>)
        requires
            old(self).wf(),
        ensures
            final(self).wf(),
            final(self).next_id == old(self).next_id,
            row_index(old(self).rows@, order_id) < 0 ==> r == Err::<(), EngineError>(
                EngineError::NotFound,
            ) && *final(self) == *old(self),
            ({
                let k = row_index(old(self).rows@, order_id);
                k >= 0 ==> r == Ok::<(), EngineError>(()) && final(self).rows@ == old(
                    self,
                ).rows@.update(
                    k,
                    (MinimalOrder { status: OrderStatus::CANCELED, ..old(self).rows@[k] }),
                )
            }),
    {
        let ghost rows0 = self.rows@;
        match self.find_by_id(order_id) {
            None => {
                proof {
                    lemma_row_index(rows0, order_id);
                }
                Err(EngineError::NotFound)
            },
            Some(k) => {
                proof {
                    lemma_row_index(rows0, order_id);
                }
                let row = &self.rows[k];
                let updated = MinimalOrder {
                    id: row.id,
                    user_id: row.user_id,
                    is_maker: row.is_maker,
                    trading_pair: row.trading_pair.clone(),
                    side: row.side,
                    order_type: row.order_type,
                    price: row.price,
                    amount: row.amount,
                    filled_amount: row.filled_amount,
                    status: OrderStatus::CANCELED,
                    bank_id: row.bank_id,
                    created_at: row.created_at,
                    updated_at: row.updated_at,
                };
                proof {
                    assert(updated == (MinimalOrder {
                        status: OrderStatus::CANCELED,
                        ..rows0[k as int]
                    }));
                }
                self.rows[k] = updated;
                proof {
                    assert forall|i: int| 0 <= i < self.rows@.len() implies (#[trigger] self
                        .rows@[i]).wf() by {
                        if i != k as int {
                            assert(self.rows@[i] == rows0[i]);
                        }
                    }
                }
                Ok(())
            },
        }
    }
}

/// Re-applying a filled-amount write with the values a row already
/// carries leaves the table exactly as it stands: the accepted write
/// of `update_filled_amount_and_status` is idempotent by
/// `(order_id, filled_amount)`, since a repeat lands in the accepting
/// branch and rewrites the row with its own fields.
pub proof fn lemma_update_idempotent(rows: Seq<MinimalOrder>, k: int)
    requires
        0 <= k < rows.len(),
    ensures
        rows.update(
            k,
            (MinimalOrder {
                filled_amount: rows[k].filled_amount,
                status: rows[k].status,
                ..rows[k]
            }),
        ) =~= rows,
{
    assert((MinimalOrder {
        filled_amount: rows[k].filled_amount,
        status: rows[k].status,
        ..rows[k]
    }) == rows[k]);
}

/// A row is an open resting counter-order for the given query: opposite
/// side, same trading pair, exactly the queried price.
pub open spec fn is_match_row(
    row: MinimalOrder,
    pair: Seq<char>,
    price: Amount,
    side: OrderSide,
) -> bool {
    row.trading_pair@ == pair && row.price == price && row.status == OrderStatus::OPEN
        && row.side == (match side {
        OrderSide::Buy => OrderSide::Sell,
        OrderSide::Sell => OrderSide::Buy,
    })
}

/// Indices of matching rows, in row (creation) order.
pub open spec fn matching_indices(
    rows: Seq<MinimalOrder>,
    pair: Seq<char>,
    price: Amount,
    side: OrderSide,
) -> Seq<int>
    decreases rows.len(),
{
    if rows.len() == 0 {
        Seq::empty()
    } else {
        matching_indices(rows.drop_last(), pair, price, side) + (if is_match_row(
            rows.last(),
            pair,
            price,
            side,
        ) {
            seq![rows.len() - 1]
        } else {
            Seq::empty()
        })
    }
}

impl OrderStore {
    /// Returns, in creation order, the indices of the open rows on the
    /// opposite side of `side` with exactly this trading pair and
    /// price — the candidate counterparts of a newly admitted order.
    pub fn find_matching_orders(&self, trading_pair: &String, price: &Amount, side: OrderSide) -> (r:
        Vec<usize>)
        ensures
            r@.map_values(|u: usize| u as int) == matching_indices(
                self.rows@,
                trading_pair@,
                *price,
                side,
            ),
            forall|k: int| 0 <= k < r@.len() ==> (#[trigger] r@[k]) < self.rows@.len(),
    {
        let mut out: Vec<usize> = Vec::new();
        let mut i: usize = 0;
        proof {
            assert(self.rows@.take(0) =~= Seq::<MinimalOrder>::empty());
            assert(out@.map_values(|u: usize| u as int) =~= matching_indices(
                self.rows@.take(0),
                trading_pair@,
                *price,
                side,
            ));
        }
        while i < self.rows.len()
            invariant
                0 <= i <= self.rows@.len(),
                out@.map_values(|u: usize| u as int) == matching_indices(
                    self.rows@.take(i as int),
                    trading_pair@,
                    *price,
                    side,
                ),
                forall|k: int| 0 <= k < out@.len() ==> (#[trigger] out@[k]) < i,
            decreases self.rows@.len() - i,
        {
            let row = &self.rows[i];
            let opposite = match side {
                OrderSide::Buy => OrderSide::Sell,
                OrderSide::Sell => OrderSide::Buy,
            };
            let is_open = match row.status {
                OrderStatus::OPEN => true,
                _ => false,
            };
            let ghost before = out@;
            if row.trading_pair == *trading_pair && row.price.units == price.units && is_open
                && row.side == opposite {
                out.push(i);
            }
            proof {
                assert(self.rows@.take(i as int + 1).drop_last() =~= self.rows@.take(i as int));
                assert(self.rows@.take(i as int + 1).last() == self.rows@[i as int]);
                if is_match_row(self.rows@[i as int], trading_pair@, *price, side) {
                    assert(out@ == before.push(i));
                    assert(out@.map_values(|u: usize| u as int) =~= before.map_values(
                        |u: usize| u as int,
                    ) + seq![i as int]);
                } else {
                    assert(out@.map_values(|u: usize| u as int) =~= matching_indices(
                        self.rows@.take(i as int + 1),
                        trading_pair@,
                        *price,
                        side,
                    ));
                }
            }
            i = i + 1;
        }
        proof {
            assert(self.rows@.take(i as int) =~= self.rows@);
        }
        out
    }
}

/// A seller-escrow row holding the asset obligation of one sell order.
#[derive(Clone, Copy, Debug, PartialEq, Eq, Structural)]
pub struct Escrow {
    pub id: u64,
    pub order_id: u64,
    pub amount: Amount,
    pub status: OrderStatus,
    pub created_at: u64,
}

/// First escrow index for `order_id`, or `-1` when absent.
pub open spec fn escrow_index(rows: Seq<Escrow>, order_id: u64) -> int
    decreases rows.len(),
{
    if rows.len() == 0 {
        -1
    } else if rows[0].order_id == order_id {
        0
    } else if escrow_index(rows.drop_first(), order_id) < 0 {
        -1
    } else {
        1 + escrow_index(rows.drop_first(), order_id)
    }
}

/// A found escrow index is in bounds and holds the order id; `-1`
/// means absent.
pub proof fn lemma_escrow_index(rows: Seq<Escrow>, order_id: u64)
    ensures
        escrow_index(rows, order_id) >= 0 ==> escrow_index(rows, order_id) < rows.len()
            && rows[escrow_index(rows, order_id)].order_id == order_id,
        escrow_index(rows, order_id) < 0 ==> forall|i: int|
            0 <= i < rows.len() ==> (#[trigger] rows[i]).order_id != order_id,
    decreases rows.len(),
{
    if rows.len() == 0 {
    } else if rows[0].order_id == order_id {
    } else {
        lemma_escrow_index(rows.drop_first(), order_id);
        if escrow_index(rows, order_id) >= 0 {
            assert(rows[escrow_index(rows, order_id)] == rows.drop_first()[escrow_index(
                rows.drop_first(),
                order_id,
            )]);
        } else {
            assert forall|i: int| 0 <= i < rows.len() implies (#[trigger] rows[i]).order_id
                != order_id by {
                if i > 0 {
                    assert(rows[i] == rows.drop_first()[i - 1]);
                }
            }
        }
    }
}

/// The escrow status machine: created OPEN, PENDING once a match is
/// booked, then COMPLETED on settlement or DISPUTED on dispute.
/// Re-marking PENDING is allowed, since every further fill books again.
pub open spec fn escrow_transition_ok(from: OrderStatus, to: OrderStatus) -> bool {
    ||| (from == OrderStatus::OPEN && to == OrderStatus::PENDING)
    ||| (from == OrderStatus::PENDING && to == OrderStatus::PENDING)
    ||| (from == OrderStatus::PENDING && to == OrderStatus::COMPLETED)
    ||| (from == OrderStatus::PENDING && to == OrderStatus::DISPUTED)
}

/// The escrow table: one row per sell order.
pub struct EscrowStore {
    pub rows: Vec<Escrow>,
    pub next_id: u64,
}

impl EscrowStore {
    /// Order ids are unique: at most one escrow per order.
    pub open spec fn wf(&self) -> bool {
        forall|i: int, j: int|
            0 <= i < j < self.rows@.len() ==> self.rows@[i].order_id != self.rows@[j].order_id
    }

    /// An empty escrow table.
    pub fn new() -> (r: EscrowStore)
        ensures
            r.wf(),
            r.rows@.len() == 0,
    {
        EscrowStore { rows: Vec::new(), next_id: 0 }
    }

    /// Looks up the escrow row of an order.
    pub fn find_by_order(&self, order_id: u64) -> (r: Option<usize>)
        ensures
            (r matches Some(i) && i as int == escrow_index(self.rows@, order_id)) || (r is None
                && escrow_index(self.rows@, order_id) < 0),
    {
        let mut i: usize = 0;
        proof {
            assert(self.rows@.skip(0) =~= self.rows@);
        }
        while i < self.rows.len()
            invariant
                0 <= i <= self.rows@.len(),
                escrow_index(self.rows@, order_id) == if escrow_index(
                    self.rows@.skip(i as int),
                    order_id,
                ) < 0 {
                    -1
                } else {
                    i + escrow_index(self.rows@.skip(i as int), order_id)
                },
            decreases self.rows@.len() - i,
        {
            proof {
                assert(self.rows@.skip(i as int)[0] == self.rows@[i as int]);
                assert(self.rows@.skip(i as int).drop_first() =~= self.rows@.skip(i as int + 1));
            }
            if self.rows[i].order_id == order_id {
                return Some(i);
            }
            i = i + 1;
        }
        proof {
            assert(self.rows@.skip(i as int).len() == 0);
        }
        None
    }

    /// Creates the escrow row of a sell order; refused when one
    /// already exists for that order.
    pub fn create_escrow(
        &mut self,
        order_id: u64,
        amount: Amount,
        status: OrderStatus,
        now: u64,
    ) -> (r: Result<(), EngineError>)
        requires
            old(self).wf(),
            old(self).next_id < u64::MAX,
        ensures
            final(self).wf(),
            escrow_index(old(self).rows@, order_id) >= 0 ==> r == Err::<(), EngineError>(
                EngineError::Conflict,
            ) && *final(self) == *old(self),
            escrow_index(old(self).rows@, order_id) < 0 ==> r == Ok::<(), EngineError>(())
                && final(self).rows@ == old(self).rows@.push(
                Escrow { id: old(self).next_id, order_id, amount, status, created_at: now },
            ) && final(self).next_id == old(self).next_id + 1,
    {
        let ghost rows0 = self.rows@;
        match self.find_by_order(order_id) {
            Some(_) => {
                proof {
                    lemma_escrow_index(rows0, order_id);
                }
                Err(EngineError::Conflict)
            },
            None => {
                proof {
                    lemma_escrow_index(rows0, order_id);
                }
                let row = Escrow { id: self.next_id, order_id, amount, status, created_at: now };
                self.rows.push(row);
                self.next_id = self.next_id + 1;
                Ok(())
            },
        }
    }

    /// Moves an order's escrow along the status machine; a transition
    /// the machine does not allow is refused and changes nothing.
    pub fn update_status(&mut self, order_id: u64, status: OrderStatus) -> (r: Result<
        (),
        EngineError,
    >)
        requires
            old(self).wf(),
        ensures
            final(self).wf(),
            final(self).next_id == old(self).next_id,
            escrow_index(old(self).rows@, order_id) < 0 ==> r == Err::<(), EngineError>(
                EngineError::NotFound,
            ) && *final(self) == *old(self),
            ({
                let k = escrow_index(old(self).rows@, order_id);
                k >= 0 ==> (if escrow_transition_ok(old(self).rows@[k].status, status) {
                    r == Ok::<(), EngineError>(()) && final(self).rows@ == old(
                        self,
                    ).rows@.update(k, (Escrow { status, ..old(self).rows@[k] }))
                } else {
                    r == Err::<(), EngineError>(EngineError::Conflict) && *final(self) == *old(
                        self,
                    )
                })
            }),
    {
        let ghost rows0 = self.rows@;
        match self.find_by_order(order_id) {
            None => {
                proof {
                    lemma_escrow_index(rows0, order_id);
                }
                Err(EngineError::NotFound)
            },
            Some(k) => {
                proof {
                    lemma_escrow_index(rows0, order_id);
                }
                let row = self.rows[k];
                let ok = match (row.status, status) {
                    (OrderStatus::OPEN, OrderStatus::PENDING) => true,
                    (OrderStatus::PENDING, OrderStatus::PENDING) => true,
                    (OrderStatus::PENDING, OrderStatus::COMPLETED) => true,
                    (OrderStatus::PENDING, OrderStatus::DISPUTED) => true,
                    _ => false,
                };
                if !ok {
                    return Err(EngineError::Conflict);
                }
                let updated = Escrow {
                    id: row.id,
                    order_id: row.order_id,
                    amount: row.amount,
                    status,
                    created_at: row.created_at,
                };
                self.rows[k] = updated;
                Ok(())
            },
        }
    }
}

/// A buyer-seller booking row for one matched counterpart pair.
#[derive(Clone, Copy, Debug, PartialEq, Eq, Structural)]
pub struct Booking {
    pub id: u64,
    pub order_id: u64,
    pub buyer_id: u64,
    pub seller_id: u64,
    pub created_at: u64,
}

/// The booking table: strictly append-only.
pub struct BookingStore {
    pub rows: Vec<Booking>,
    pub next_id: u64,
}

impl BookingStore {
    /// An empty booking table.
    pub fn new() -> (r: BookingStore)
        ensures
            r.rows@.len() == 0,
            r.next_id == 0,
    {
        BookingStore { rows: Vec::new(), next_id: 0 }
    }

    /// Appends one booking row linking the buyer and the seller of a
    /// matched pair.
    pub fn save_coin_booking(&mut self, order_id: u64, buyer_id: u64, seller_id: u64, now: u64) -> (r:
        u64)
        requires
            old(self).next_id < u64::MAX,
        ensures
            r == old(self).next_id,
            final(self).next_id == old(self).next_id + 1,
            final(self).rows@ == old(self).rows@.push(
                Booking { id: r, order_id, buyer_id, seller_id, created_at: now },
            ),
    {
        let id = self.next_id;
        let row = Booking { id, order_id, buyer_id, seller_id, created_at: now };
        self.rows.push(row);
        self.next_id = self.next_id + 1;
        id
    }
}

/// The executed-trade log: rows are appended in atomic batches.
pub struct TradeLog {
    pub rows: Vec<Trade>,
}

impl TradeLog {
    /// An empty trade log.
    pub fn new() -> (r: TradeLog)
        ensures
            r.rows@.len() == 0,
    {
        TradeLog { rows: Vec::new() }
    }

    /// Appends a batch of trades under one atomic unit and reports how
    /// many rows were written.  An empty batch writes nothing and
    /// leaves the log untouched.
    pub fn bulk_insert(&mut self, trades: Vec<Trade>) -> (r: u64)
        requires
            trades@.len() <= u64::MAX,
        ensures
            r == trades@.len(),
            trades@.len() == 0 ==> *final(self) == *old(self),
            final(self).rows@ == old(self).rows@ + trades@,
    {
        if trades.is_empty() {
            proof {
                assert(self.rows@ + trades@ =~= self.rows@);
            }
            return 0;
        }
        let n = trades.len();
        let mut batch = trades;
        self.rows.append(&mut batch);
        n as u64
    }

    /// Splits the batch into chunks of `chunk_size` and commits each
    /// chunk atomically; the total row count comes back.
    pub fn bulk_insert_batched(&mut self, trades: Vec<Trade>, chunk_size: usize) -> (r: u64)
        requires
            chunk_size > 0,
            trades@.len() <= u64::MAX,
        ensures
            r == trades@.len(),
            final(self).rows@ == old(self).rows@ + trades@,
    {
        let ghost all = trades@;
        let ghost rows0 = self.rows@;
        let mut rest = trades;
        let mut total: u64 = 0;
        proof {
            assert(all.take(0) =~= Seq::<Trade>::empty());
            assert(rows0 + all.take(0) =~= rows0);
        }
        while rest.len() > 0
            invariant
                chunk_size > 0,
                all.len() <= u64::MAX,
                total == all.len() - rest@.len(),
                rest@ == all.skip(total as int),
                self.rows@ == rows0 + all.take(total as int),
            decreases rest@.len(),
        {
            let take = if chunk_size < rest.len() {
                chunk_size
            } else {
                rest.len()
            };
            let ghost rest0 = rest@;
            let ghost total0 = total as int;
            let tail = rest.split_off(take);
            let chunk_len = rest.len();
            let n = self.bulk_insert(rest);
            total = total + n;
            rest = tail;
            proof {
                assert(rest0.subrange(0, take as int) =~= all.skip(total0).take(take as int));
                assert(rows0 + all.take(total0) + all.skip(total0).take(take as int) =~= rows0
                    + all.take(total0 + take));
                assert(rest0.subrange(take as int, rest0.len() as int) =~= all.skip(
                    total0 + take,
                ));
            }
        }
        proof {
            assert(all.take(total as int) =~= all);
        }
        total
    }
}

} // verus!
