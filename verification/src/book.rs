//! The in-memory order book: per symbol, two price-time ordered sequences
//! of resting orders, with a matching routine that drains crossed liquidity
//! and emits trades.
//!
//! Bids are held best-first by descending price then ascending timestamp;
//! asks by ascending price then ascending timestamp.  At equal price and
//! timestamp, earlier insertion keeps priority.  The matcher trades the
//! best bid against the best ask at the maker's (earlier-timestamped)
//! price, skipping resting counterparts of the same user.

use vstd::prelude::*;
use crate::amount::Amount;
use crate::order::{BookOrder, OrderSide, Trade};

verus! {

// ---------------------------------------------------------------------
// Ordering of resting orders.
// ---------------------------------------------------------------------

/// Priority order among bids: higher price first, then earlier timestamp.
pub open spec fn bid_before(x: BookOrder, y: BookOrder) -> bool {
    x.price.units > y.price.units
        || (x.price.units == y.price.units && x.timestamp <= y.timestamp)
}

/// Priority order among asks: lower price first, then earlier timestamp.
pub open spec fn ask_before(x: BookOrder, y: BookOrder) -> bool {
    x.price.units < y.price.units
        || (x.price.units == y.price.units && x.timestamp <= y.timestamp)
}

/// Priority order on the given side.
pub open spec fn side_before(side: OrderSide, x: BookOrder, y: BookOrder) -> bool {
    match side {
        OrderSide::Buy => bid_before(x, y),
        OrderSide::Sell => ask_before(x, y),
    }
}

/// `o` outranks `x` strictly by price alone (so it must be inserted ahead).
pub open spec fn strictly_better(side: OrderSide, o: BookOrder, x: BookOrder) -> bool {
    match side {
        OrderSide::Buy => o.price.units > x.price.units,
        OrderSide::Sell => o.price.units < x.price.units,
    }
}

/// A bid and an ask cross when the bid's price is at least the ask's.
pub open spec fn crosses(b: BookOrder, a: BookOrder) -> bool {
    b.price.units >= a.price.units
}

/// The trade executes at the maker's price: the earlier-timestamped order;
/// on an exact tie the buy side is the maker.
pub open spec fn maker_price(b: BookOrder, a: BookOrder) -> Amount {
    if b.timestamp <= a.timestamp {
        b.price
    } else {
        a.price
    }
}

// ---------------------------------------------------------------------
// Well-formedness of one side of a symbol's book.
// ---------------------------------------------------------------------

/// One side of the book is sorted by its priority order.
pub open spec fn half_sorted(s: Seq<BookOrder>, side: OrderSide) -> bool {
    forall|i: int, j: int| 0 <= i < j < s.len() ==> side_before(side, s[i], s[j])
}

/// One side of the book holds only live orders of that side, best first.
pub open spec fn half_wf(s: Seq<BookOrder>, side: OrderSide) -> bool {
    half_sorted(s, side) && forall|i: int|
        0 <= i < s.len() ==> (#[trigger] s[i]).side == side && s[i].quantity.units > 0
}

/// No order id repeats within or across the two sides.
pub open spec fn ids_unique(bids: Seq<BookOrder>, asks: Seq<BookOrder>) -> bool {
    (forall|i: int, j: int| 0 <= i < j < bids.len() ==> bids[i].id != bids[j].id)
        && (forall|i: int, j: int| 0 <= i < j < asks.len() ==> asks[i].id != asks[j].id)
        && (forall|i: int, j: int|
            0 <= i < bids.len() && 0 <= j < asks.len() ==> bids[i].id != asks[j].id)
}

/// `id` appears on neither side.
pub open spec fn id_fresh(bids: Seq<BookOrder>, asks: Seq<BookOrder>, id: u64) -> bool {
    (forall|i: int| 0 <= i < bids.len() ==> (#[trigger] bids[i]).id != id)
        && (forall|i: int| 0 <= i < asks.len() ==> (#[trigger] asks[i]).id != id)
}

/// `ts` is no older than any resting order on either side.
pub open spec fn ts_newest(bids: Seq<BookOrder>, asks: Seq<BookOrder>, ts: u64) -> bool {
    (forall|i: int| 0 <= i < bids.len() ==> (#[trigger] bids[i]).timestamp <= ts)
        && (forall|i: int| 0 <= i < asks.len() ==> (#[trigger] asks[i]).timestamp <= ts)
}

// ---------------------------------------------------------------------
// Insert position and id lookup.
// ---------------------------------------------------------------------

/// Index at which a new order enters its side: after every resting order
/// of better or equal price, before the first strictly worse one.  At
/// equal price the newcomer queues behind, which is time priority.
pub open spec fn insert_pos(s: Seq<BookOrder>, o: BookOrder, side: OrderSide) -> int
    decreases s.len(),
{
    if s.len() == 0 {
        0
    } else if strictly_better(side, o, s[0]) {
        0
    } else {
        1 + insert_pos(s.drop_first(), o, side)
    }
}

/// First index holding `id`, or `-1` when absent.
pub open spec fn id_index(s: Seq<BookOrder>, id: u64) -> int
    decreases s.len(),
{
    if s.len() == 0 {
        -1
    } else if s[0].id == id {
        0
    } else if id_index(s.drop_first(), id) < 0 {
        -1
    } else {
        1 + id_index(s.drop_first(), id)
    }
}

/// The insert position is within bounds, everything ahead of it keeps
/// priority over `o`, and everything at or past it is strictly worse.
pub proof fn lemma_insert_pos(s: Seq<BookOrder>, o: BookOrder, side: OrderSide)
    ensures
        0 <= insert_pos(s, o, side) <= s.len(),
        forall|i: int| 0 <= i < insert_pos(s, o, side) ==> !strictly_better(side, o, #[trigger] s[i]),
        insert_pos(s, o, side) < s.len() ==> strictly_better(side, o, s[insert_pos(s, o, side)]),
    decreases s.len(),
{
    if s.len() == 0 {
    } else if strictly_better(side, o, s[0]) {
    } else {
        lemma_insert_pos(s.drop_first(), o, side);
        assert forall|i: int| 0 <= i < insert_pos(s, o, side) implies !strictly_better(
            side,
            o,
            #[trigger] s[i],
        ) by {
            if i > 0 {
                assert(s[i] == s.drop_first()[i - 1]);
            }
        }
        if insert_pos(s, o, side) < s.len() {
            assert(s[insert_pos(s, o, side)] == s.drop_first()[insert_pos(s.drop_first(), o, side)]);
        }
    }
}

/// A found id index is in bounds and holds the id; `-1` means the id is
/// absent; and nothing ahead of a found index holds the id.
pub proof fn lemma_id_index(s: Seq<BookOrder>, id: u64)
    ensures
        id_index(s, id) >= 0 ==> id_index(s, id) < s.len() && s[id_index(s, id)].id == id,
        id_index(s, id) < 0 ==> forall|i: int| 0 <= i < s.len() ==> (#[trigger] s[i]).id != id,
        forall|i: int| 0 <= i < id_index(s, id) ==> (#[trigger] s[i]).id != id,
    decreases s.len(),
{
    if s.len() == 0 {
    } else if s[0].id == id {
    } else {
        lemma_id_index(s.drop_first(), id);
        assert forall|i: int| 0 <= i < s.len() && id_index(s, id) < 0 implies (#[trigger] s[i]).id
            != id by {
            if i > 0 {
                assert(s[i] == s.drop_first()[i - 1]);
            }
        }
        assert forall|i: int| 0 <= i < id_index(s, id) implies (#[trigger] s[i]).id != id by {
            if i > 0 {
                assert(s[i] == s.drop_first()[i - 1]);
            }
        }
    }
}

// ---------------------------------------------------------------------
// The per-symbol book.
// ---------------------------------------------------------------------

/// The resting book of one trading pair.
#[verifier::ext_equal]
pub struct SymbolBook {
    pub symbol: String,
    pub bids: Vec<BookOrder>,
    pub asks: Vec<BookOrder>,
}

impl SymbolBook {
    /// Both sides are sorted and live, and ids never repeat.
    pub open spec fn wf(&self) -> bool {
        half_wf(self.bids@, OrderSide::Buy) && half_wf(self.asks@, OrderSide::Sell)
            && ids_unique(self.bids@, self.asks@)
    }

    /// An empty book for `symbol`.
    pub fn new(symbol: String) -> (r: SymbolBook)
        ensures
            r.wf(),
            r.symbol@ == symbol@,
            r.bids@ =~= Seq::<BookOrder>::empty(),
            r.asks@ =~= Seq::<BookOrder>::empty(),
    {
        SymbolBook { symbol, bids: Vec::new(), asks: Vec::new() }
    }

    /// The best (highest-priced, earliest) resting bid, if any.
    pub fn best_bid(&self) -> (r: Option<BookOrder>)
        ensures
            self.bids@.len() > 0 ==> r == Some(self.bids@[0]),
            self.bids@.len() == 0 ==> r is None,
    {
        if self.bids.len() > 0 {
            Some(self.bids[0])
        } else {
            None
        }
    }

    /// The best (lowest-priced, earliest) resting ask, if any.
    pub fn best_ask(&self) -> (r: Option<BookOrder>)
        ensures
            self.asks@.len() > 0 ==> r == Some(self.asks@[0]),
            self.asks@.len() == 0 ==> r is None,
    {
        if self.asks.len() > 0 {
            Some(self.asks[0])
        } else {
            None
        }
    }

    /// Inserts `o` at the tail of its price level on its side.  No
    /// matching happens here.
    ///
    /// The caller guarantees a live quantity, a fresh id, and an arrival
    /// timestamp no older than anything resting — the timestamp is
    /// assigned at ingestion, so arrivals are monotone.
    pub fn add_order(&mut self, o: BookOrder)
        requires
            old(self).wf(),
            o.quantity.units > 0,
            id_fresh(old(self).bids@, old(self).asks@, o.id),
            ts_newest(old(self).bids@, old(self).asks@, o.timestamp),
        ensures
            final(self).wf(),
            final(self).symbol == old(self).symbol,
            o.side is Buy ==> final(self).bids@ == old(self).bids@.insert(
                insert_pos(old(self).bids@, o, OrderSide::Buy),
                o,
            ) && final(self).asks@ == old(self).asks@,
            o.side is Sell ==> final(self).asks@ == old(self).asks@.insert(
                insert_pos(old(self).asks@, o, OrderSide::Sell),
                o,
            ) && final(self).bids@ == old(self).bids@,
    {
        let ghost bids0 = self.bids@;
        let ghost asks0 = self.asks@;
        match o.side {
            OrderSide::Buy => {
                let p = find_insert_index(&self.bids, &o, true);
                proof {
                    lemma_insert_pos(bids0, o, OrderSide::Buy);
                }
                self.bids.insert(p, o);
                proof {
                    lemma_insert_preserves_wf(bids0, o, OrderSide::Buy);
                    assert(ids_unique(self.bids@, self.asks@)) by {
                        lemma_insert_pos(bids0, o, OrderSide::Buy);
                        assert forall|i: int, j: int| 0 <= i < j < self.bids@.len() implies self
                            .bids@[i].id != self.bids@[j].id by {
                            let pp = insert_pos(bids0, o, OrderSide::Buy);
                            assert(self.bids@ == bids0.insert(pp, o));
                        }
                    }
                }
            },
            OrderSide::Sell => {
                let p = find_insert_index(&self.asks, &o, false);
                proof {
                    lemma_insert_pos(asks0, o, OrderSide::Sell);
                }
                self.asks.insert(p, o);
                proof {
                    lemma_insert_preserves_wf(asks0, o, OrderSide::Sell);
                    assert(ids_unique(self.bids@, self.asks@)) by {
                        lemma_insert_pos(asks0, o, OrderSide::Sell);
                        assert forall|i: int, j: int| 0 <= i < j < self.asks@.len() implies self
                            .asks@[i].id != self.asks@[j].id by {
                            let pp = insert_pos(asks0, o, OrderSide::Sell);
                            assert(self.asks@ == asks0.insert(pp, o));
                        }
                    }
                }
            },
        }
    }

    /// Removes the resting order with the given id, if present, and says
    /// whether one was found.
    pub fn cancel(&mut self, order_id: u64) -> (r: bool)
        requires
            old(self).wf(),
        ensures
            final(self).wf(),
            final(self).symbol == old(self).symbol,
            r == (id_index(old(self).bids@, order_id) >= 0 || id_index(old(self).asks@, order_id)
                >= 0),
            id_index(old(self).bids@, order_id) >= 0 ==> final(self).bids@ == old(
                self,
            ).bids@.remove(id_index(old(self).bids@, order_id)) && final(self).asks@ == old(
                self,
            ).asks@,
            id_index(old(self).bids@, order_id) < 0 && id_index(old(self).asks@, order_id) >= 0
                ==> final(self).asks@ == old(self).asks@.remove(
                id_index(old(self).asks@, order_id),
            ) && final(self).bids@ == old(self).bids@,
            id_index(old(self).bids@, order_id) < 0 && id_index(old(self).asks@, order_id) < 0
                ==> *final(self) == *old(self),
    {
        let ghost bids0 = self.bids@;
        let ghost asks0 = self.asks@;
        match find_id_index(&self.bids, order_id) {
            Some(i) => {
                proof {
                    lemma_id_index(bids0, order_id);
                }
                self.bids.remove(i);
                proof {
                    lemma_id_index(bids0, order_id);
                    lemma_remove_preserves_wf(bids0, id_index(bids0, order_id), OrderSide::Buy);
                    assert(self.bids@ == bids0.remove(id_index(bids0, order_id)));
                    assert forall|i2: int, j2: int|
                        0 <= i2 < j2 < self.bids@.len() implies self.bids@[i2].id
                        != self.bids@[j2].id by {}
                    assert forall|i2: int, j2: int|
                        0 <= i2 < self.bids@.len() && 0 <= j2 < self.asks@.len() implies self
                        .bids@[i2].id != self.asks@[j2].id by {}
                }
                true
            },
            None => {
                proof {
                    lemma_id_index(bids0, order_id);
                }
                match find_id_index(&self.asks, order_id) {
                    Some(i) => {
                        proof {
                            lemma_id_index(asks0, order_id);
                        }
                        self.asks.remove(i);
                        proof {
                            lemma_id_index(asks0, order_id);
                            lemma_remove_preserves_wf(
                                asks0,
                                id_index(asks0, order_id),
                                OrderSide::Sell,
                            );
                            assert(self.asks@ == asks0.remove(id_index(asks0, order_id)));
                            assert forall|i2: int, j2: int|
                                0 <= i2 < j2 < self.asks@.len() implies self.asks@[i2].id
                                != self.asks@[j2].id by {}
                            assert forall|i2: int, j2: int|
                                0 <= i2 < self.bids@.len() && 0 <= j2 < self.asks@.len() implies self
                                .bids@[i2].id != self.asks@[j2].id by {}
                        }
                        true
                    },
                    None => {
                        proof {
                            lemma_id_index(asks0, order_id);
                        }
                        false
                    },
                }
            },
        }
    }
}

/// Removing any index keeps a side sorted and live.
pub proof fn lemma_remove_preserves_wf(s: Seq<BookOrder>, i: int, side: OrderSide)
    requires
        half_wf(s, side),
        0 <= i < s.len(),
    ensures
        half_wf(s.remove(i), side),
{
    let s2 = s.remove(i);
    assert forall|x: int, y: int| 0 <= x < y < s2.len() implies side_before(
        side,
        s2[x],
        s2[y],
    ) by {
        let x0 = if x < i { x } else { x + 1 };
        let y0 = if y < i { y } else { y + 1 };
        assert(s2[x] == s[x0]);
        assert(s2[y] == s[y0]);
    }
    assert forall|x: int| 0 <= x < s2.len() implies (#[trigger] s2[x]).side == side
        && s2[x].quantity.units > 0 by {
        let x0 = if x < i { x } else { x + 1 };
        assert(s2[x] == s[x0]);
    }
}

/// Inserting at the computed position keeps a side sorted and live,
/// provided the newcomer is live, of the right side, and no older than
/// anything resting.
pub proof fn lemma_insert_preserves_wf(s: Seq<BookOrder>, o: BookOrder, side: OrderSide)
    requires
        half_wf(s, side),
        o.side == side,
        o.quantity.units > 0,
        forall|i: int| 0 <= i < s.len() ==> (#[trigger] s[i]).timestamp <= o.timestamp,
    ensures
        half_wf(s.insert(insert_pos(s, o, side), o), side),
{
    lemma_insert_pos(s, o, side);
    let p = insert_pos(s, o, side);
    let s2 = s.insert(p, o);
    assert forall|x: int, y: int| 0 <= x < y < s2.len() implies side_before(
        side,
        s2[x],
        s2[y],
    ) by {
        if x == p && y == p {
        } else if x == p {
            // o before some later element: that element sits at y - 1 >= p in s
            assert(s2[y] == s[y - 1]);
            assert(strictly_better(side, o, s[p]));
            // sortedness of s gives s[p] ahead of s[y-1]
            if y - 1 > p {
                assert(side_before(side, s[p], s[y - 1]));
            }
        } else if y == p {
            assert(s2[x] == s[x]);
            assert(!strictly_better(side, o, s[x]));
        } else {
            let x0 = if x < p { x } else { x - 1 };
            let y0 = if y < p { y } else { y - 1 };
            assert(s2[x] == s[x0]);
            assert(s2[y] == s[y0]);
        }
    }
    assert forall|x: int| 0 <= x < s2.len() implies (#[trigger] s2[x]).side == side
        && s2[x].quantity.units > 0 by {
        if x != p {
            let x0 = if x < p { x } else { x - 1 };
            assert(s2[x] == s[x0]);
        }
    }
}

/// Finds the executable insert index matching `insert_pos`.
fn find_insert_index(s: &Vec<BookOrder>, o: &BookOrder, is_bid: bool) -> (r: usize)
    ensures
        r == insert_pos(s@, *o, if is_bid {
            OrderSide::Buy
        } else {
            OrderSide::Sell
        }),
{
    let ghost side = if is_bid {
        OrderSide::Buy
    } else {
        OrderSide::Sell
    };
    let mut i: usize = 0;
    proof {
        assert(s@.skip(0) =~= s@);
    }
    while i < s.len()
        invariant
            0 <= i <= s@.len(),
            insert_pos(s@, *o, side) == i + insert_pos(s@.skip(i as int), *o, side),
            is_bid ==> side == OrderSide::Buy,
            !is_bid ==> side == OrderSide::Sell,
        decreases s@.len() - i,
    {
        let better = if is_bid {
            o.price.units > s[i].price.units
        } else {
            o.price.units < s[i].price.units
        };
        proof {
            assert(s@.skip(i as int)[0] == s@[i as int]);
            assert(s@.skip(i as int).drop_first() =~= s@.skip(i as int + 1));
        }
        if better {
            proof {
                assert(strictly_better(side, *o, s@.skip(i as int)[0]));
            }
            return i;
        }
        i = i + 1;
    }
    proof {
        assert(s@.skip(i as int).len() == 0);
    }
    i
}

/// Finds the executable index of `id` matching `id_index`.
fn find_id_index(s: &Vec<BookOrder>, id: u64) -> (r: Option<usize>)
    ensures
        (r matches Some(i) && i as int == id_index(s@, id)) || (r is None && id_index(s@, id) < 0),
{
    let mut i: usize = 0;
    proof {
        assert(s@.skip(0) =~= s@);
    }
    while i < s.len()
        invariant
            0 <= i <= s@.len(),
            id_index(s@, id) == if id_index(s@.skip(i as int), id) < 0 {
                -1
            } else {
                i + id_index(s@.skip(i as int), id)
            },
        decreases s@.len() - i,
    {
        proof {
            assert(s@.skip(i as int)[0] == s@[i as int]);
            assert(s@.skip(i as int).drop_first() =~= s@.skip(i as int + 1));
        }
        if s[i].id == id {
            return Some(i);
        }
        i = i + 1;
    }
    proof {
        assert(s@.skip(i as int).len() == 0);
    }
    None
}


// ---------------------------------------------------------------------
// Conservation accounting: how much of each order the book still holds
// and how much the emitted trades consumed.
// ---------------------------------------------------------------------

/// Quantity the order contributes under the given id.
pub open spec fn order_contrib(o: BookOrder, id: u64) -> nat {
    if o.id == id {
        o.quantity.units as nat
    } else {
        0
    }
}

/// Total resting quantity held under `id` on one side.
pub open spec fn qty_in(s: Seq<BookOrder>, id: u64) -> nat
    decreases s.len(),
{
    if s.len() == 0 {
        0
    } else {
        qty_in(s.drop_last(), id) + order_contrib(s.last(), id)
    }
}

/// Quantity a trade consumed from the bid order `id`.
pub open spec fn trade_bid_contrib(t: Trade, id: u64) -> nat {
    if t.bid_id == id {
        t.quantity.units as nat
    } else {
        0
    }
}

/// Quantity a trade consumed from the ask order `id`.
pub open spec fn trade_ask_contrib(t: Trade, id: u64) -> nat {
    if t.ask_id == id {
        t.quantity.units as nat
    } else {
        0
    }
}

/// Total quantity the trades consumed from the bid order `id`.
pub open spec fn bid_traded(ts: Seq<Trade>, id: u64) -> nat
    decreases ts.len(),
{
    if ts.len() == 0 {
        0
    } else {
        bid_traded(ts.drop_last(), id) + trade_bid_contrib(ts.last(), id)
    }
}

/// Total quantity the trades consumed from the ask order `id`.
pub open spec fn ask_traded(ts: Seq<Trade>, id: u64) -> nat
    decreases ts.len(),
{
    if ts.len() == 0 {
        0
    } else {
        ask_traded(ts.drop_last(), id) + trade_ask_contrib(ts.last(), id)
    }
}

/// Appending a trade adds exactly its contribution.
pub proof fn lemma_traded_push(ts: Seq<Trade>, t: Trade, id: u64)
    ensures
        bid_traded(ts.push(t), id) == bid_traded(ts, id) + trade_bid_contrib(t, id),
        ask_traded(ts.push(t), id) == ask_traded(ts, id) + trade_ask_contrib(t, id),
{
    assert(ts.push(t).drop_last() =~= ts);
    assert(ts.push(t).last() == t);
}

/// Removing an entry subtracts exactly its contribution.
pub proof fn lemma_qty_in_remove(s: Seq<BookOrder>, i: int, id: u64)
    requires
        0 <= i < s.len(),
    ensures
        qty_in(s.remove(i), id) + order_contrib(s[i], id) == qty_in(s, id),
    decreases s.len(),
{
    if i == s.len() - 1 {
        assert(s.remove(i) =~= s.drop_last());
    } else {
        let t = s.remove(i);
        assert(t.drop_last() =~= s.drop_last().remove(i));
        assert(t.last() == s.last());
        assert(s.drop_last()[i] == s[i]);
        lemma_qty_in_remove(s.drop_last(), i, id);
    }
}

/// Replacing an entry exchanges the two contributions.
pub proof fn lemma_qty_in_update(s: Seq<BookOrder>, i: int, o2: BookOrder, id: u64)
    requires
        0 <= i < s.len(),
    ensures
        qty_in(s.update(i, o2), id) + order_contrib(s[i], id) == qty_in(s, id) + order_contrib(
            o2,
            id,
        ),
    decreases s.len(),
{
    let t = s.update(i, o2);
    if i == s.len() - 1 {
        assert(t.drop_last() =~= s.drop_last());
        assert(t.last() == o2);
    } else {
        assert(t.drop_last() =~= s.drop_last().update(i, o2));
        assert(t.last() == s.last());
        assert(s.drop_last()[i] == s[i]);
        lemma_qty_in_update(s.drop_last(), i, o2, id);
    }
}

/// If no entry bears `id`, nothing is held under it.
pub proof fn lemma_qty_in_absent(s: Seq<BookOrder>, id: u64)
    requires
        forall|k: int| 0 <= k < s.len() ==> (#[trigger] s[k]).id != id,
    ensures
        qty_in(s, id) == 0,
    decreases s.len(),
{
    if s.len() > 0 {
        assert(forall|k: int|
            0 <= k < s.drop_last().len() ==> (#[trigger] s.drop_last()[k]).id != id);
        lemma_qty_in_absent(s.drop_last(), id);
    }
}

/// With distinct ids, the quantity held under the id of entry `k` is
/// exactly that entry's quantity.
pub proof fn lemma_qty_in_unique(s: Seq<BookOrder>, k: int)
    requires
        0 <= k < s.len(),
        forall|i: int, j: int| 0 <= i < j < s.len() ==> s[i].id != s[j].id,
    ensures
        qty_in(s, s[k].id) == s[k].quantity.units,
{
    let id = s[k].id;
    lemma_qty_in_remove(s, k, id);
    assert(forall|x: int| 0 <= x < s.remove(k).len() ==> (#[trigger] s.remove(k)[x]).id != id);
    lemma_qty_in_absent(s.remove(k), id);
}

// ---------------------------------------------------------------------
// Reducing one resting order by a traded quantity.
// ---------------------------------------------------------------------

/// `o` with its quantity lowered by `q`.
pub open spec fn shrink_order(o: BookOrder, q: nat) -> BookOrder {
    BookOrder { quantity: Amount { units: (o.quantity.units - q) as u128 }, ..o }
}

/// One side after entry `i` gave up quantity `q`: the entry leaves the
/// book exactly when fully consumed.
pub open spec fn reduce_seq(s: Seq<BookOrder>, i: int, q: nat) -> Seq<BookOrder> {
    if q == s[i].quantity.units {
        s.remove(i)
    } else {
        s.update(i, shrink_order(s[i], q))
    }
}

/// Index in `s` an entry of the reduced side came from.
pub open spec fn ridx(s: Seq<BookOrder>, i: int, q: nat, k: int) -> int {
    if q == s[i].quantity.units {
        if k < i {
            k
        } else {
            k + 1
        }
    } else {
        k
    }
}

/// `x` is `y` with the same identity and no more quantity.
pub open spec fn core_shrunk(x: BookOrder, y: BookOrder) -> bool {
    x.id == y.id && x.user_id == y.user_id && x.side == y.side && x.order_type == y.order_type
        && x.price == y.price && x.timestamp == y.timestamp && x.quantity.units
        <= y.quantity.units
}

/// `src` names, entry by entry, the index in the original side `s0`
/// each entry of `s` descends from: same identity, no more quantity.
pub open spec fn sourced(s: Seq<BookOrder>, s0: Seq<BookOrder>, src: Seq<int>) -> bool {
    src.len() == s.len() && forall|k: int|
        0 <= k < s.len() ==> 0 <= #[trigger] src[k] < s0.len() && core_shrunk(s[k], s0[src[k]])
}

/// `src` also keeps the original order: survivors stand in the same
/// relative order as the entries they descend from.
pub open spec fn sourced_in_order(s: Seq<BookOrder>, s0: Seq<BookOrder>, src: Seq<int>) -> bool {
    sourced(s, s0, src) && forall|k1: int, k2: int|
        0 <= k1 < k2 < src.len() ==> src[k1] < src[k2]
}

/// The side descends from the original: every survivor is an original
/// entry with the same identity and no more quantity, and the
/// survivors keep their relative order.
pub open spec fn descends(s: Seq<BookOrder>, s0: Seq<BookOrder>) -> bool {
    exists|src: Seq<int>| #[trigger] sourced_in_order(s, s0, src)
}

/// A side descends from itself through the identity map.
pub proof fn lemma_descends_refl(s: Seq<BookOrder>)
    ensures
        descends(s, s),
{
    let src = Seq::new(s.len(), |k: int| k);
    assert forall|k: int| 0 <= k < s.len() implies 0 <= #[trigger] src[k] < s.len()
        && core_shrunk(s[k], s[src[k]]) by {
        assert(src[k] == k);
        assert(core_shrunk(s[k], s[k]));
    }
    assert(sourced_in_order(s, s, src));
}

/// A matching step keeps the source map strictly increasing.
pub proof fn lemma_step_src_increasing(src: Seq<int>, p: Seq<BookOrder>, i: int, q: nat)
    requires
        0 <= i < p.len(),
        src.len() == p.len(),
        forall|k1: int, k2: int| 0 <= k1 < k2 < src.len() ==> src[k1] < src[k2],
    ensures
        forall|k1: int, k2: int|
            0 <= k1 < k2 < step_src(src, p, i, q).len() ==> step_src(src, p, i, q)[k1] < step_src(
                src,
                p,
                i,
                q,
            )[k2],
{
    let t = step_src(src, p, i, q);
    if q == p[i].quantity.units {
        assert forall|k1: int, k2: int| 0 <= k1 < k2 < t.len() implies t[k1] < t[k2] by {
            let m1 = if k1 < i {
                k1
            } else {
                k1 + 1
            };
            let m2 = if k2 < i {
                k2
            } else {
                k2 + 1
            };
            assert(t[k1] == src[m1]);
            assert(t[k2] == src[m2]);
        }
    }
}

/// Every entry of the reduced side comes from a distinct entry of the
/// original, in order, with the same identity.
pub proof fn lemma_reduce_entries(s: Seq<BookOrder>, i: int, q: nat)
    requires
        0 <= i < s.len(),
        0 < q <= s[i].quantity.units,
    ensures
        reduce_seq(s, i, q).len() == if q == s[i].quantity.units {
            s.len() - 1
        } else {
            s.len() as int
        },
        forall|k: int|
            0 <= k < reduce_seq(s, i, q).len() ==> 0 <= ridx(s, i, q, k) < s.len() && core_shrunk(
                #[trigger] reduce_seq(s, i, q)[k],
                s[ridx(s, i, q, k)],
            ),
        forall|k1: int, k2: int|
            0 <= k1 < k2 < reduce_seq(s, i, q).len() ==> ridx(s, i, q, k1) < ridx(s, i, q, k2),
{
    let t = reduce_seq(s, i, q);
    assert forall|k: int| 0 <= k < t.len() implies 0 <= ridx(s, i, q, k) < s.len() && core_shrunk(
        #[trigger] t[k],
        s[ridx(s, i, q, k)],
    ) by {
        if q == s[i].quantity.units {
            if k < i {
                assert(t[k] == s[k]);
            } else {
                assert(t[k] == s[k + 1]);
            }
        } else {
            if k == i {
                assert(t[k] == shrink_order(s[i], q));
            } else {
                assert(t[k] == s[k]);
            }
        }
    }
}

/// Reducing keeps a side sorted and live.
pub proof fn lemma_reduce_wf(s: Seq<BookOrder>, i: int, q: nat, side: OrderSide)
    requires
        half_wf(s, side),
        0 <= i < s.len(),
        0 < q <= s[i].quantity.units,
    ensures
        half_wf(reduce_seq(s, i, q), side),
{
    if q == s[i].quantity.units {
        lemma_remove_preserves_wf(s, i, side);
    } else {
        let t = s.update(i, shrink_order(s[i], q));
        assert forall|x: int, y: int| 0 <= x < y < t.len() implies side_before(
            side,
            t[x],
            t[y],
        ) by {
            assert(side_before(side, s[x], s[y]));
        }
        assert forall|x: int| 0 <= x < t.len() implies (#[trigger] t[x]).side == side
            && t[x].quantity.units > 0 by {
            assert(s[x].side == side && s[x].quantity.units > 0);
        }
    }
}

/// Reducing charges exactly `q` against the id of the reduced entry.
pub proof fn lemma_reduce_conservation(s: Seq<BookOrder>, i: int, q: nat, id: u64)
    requires
        0 <= i < s.len(),
        0 < q <= s[i].quantity.units,
    ensures
        qty_in(reduce_seq(s, i, q), id) + (if s[i].id == id {
            q
        } else {
            0
        }) == qty_in(s, id),
{
    if q == s[i].quantity.units {
        lemma_qty_in_remove(s, i, id);
    } else {
        lemma_qty_in_update(s, i, shrink_order(s[i], q), id);
    }
}

/// Consumes quantity `q` from entry `i`, dropping the entry when it is
/// fully consumed.
fn reduce_at(v: &mut Vec<BookOrder>, i: usize, q: Amount)
    requires
        i < old(v)@.len(),
        0 < q.units <= old(v)@[i as int].quantity.units,
    ensures
        final(v)@ == reduce_seq(old(v)@, i as int, q.units as nat),
{
    if q.units == v[i].quantity.units {
        v.remove(i);
    } else {
        let o = v[i];
        let o2 = BookOrder {
            quantity: o.quantity.minus(&q),
            ..o
        };
        v[i] = o2;
        assert(v@ =~= old(v)@.update(i as int, shrink_order(old(v)@[i as int], q.units as nat)));
    }
}

// ---------------------------------------------------------------------
// Matching.
// ---------------------------------------------------------------------

/// A maker-side entry crosses the taker, with sides oriented by the flag.
pub open spec fn cross_m(m: BookOrder, taker: BookOrder, makers_are_bids: bool) -> bool {
    if makers_are_bids {
        crosses(m, taker)
    } else {
        crosses(taker, m)
    }
}

/// The best bid and ask cross and belong to different users.
pub open spec fn crossed_differ(bs: Seq<BookOrder>, az: Seq<BookOrder>) -> bool {
    bs.len() > 0 && az.len() > 0 && crosses(bs[0], az[0]) && bs[0].user_id != az[0].user_id
}

/// `t` is the trade of the two best orders: their ids, the maker's
/// price, and the smaller of the two quantities.
pub open spec fn top_trade(t: Trade, bs: Seq<BookOrder>, az: Seq<BookOrder>) -> bool {
    t.bid_id == bs[0].id && t.ask_id == az[0].id && t.price == maker_price(bs[0], az[0])
        && t.quantity.units == if bs[0].quantity.units <= az[0].quantity.units {
        bs[0].quantity.units
    } else {
        az[0].quantity.units
    }
}

/// The book's tops cross but share a user, and no deeper order on the
/// maker (earlier-timestamped, tie to the bid) side that still crosses
/// the blocked taker belongs to another user: self-match prevention has
/// stalled the symbol.
pub open spec fn blocked(bs: Seq<BookOrder>, az: Seq<BookOrder>) -> bool {
    bs.len() > 0 && az.len() > 0 && crosses(bs[0], az[0]) && bs[0].user_id == az[0].user_id && (
    if bs[0].timestamp <= az[0].timestamp {
        forall|j: int|
            0 <= j < bs.len() && crosses(#[trigger] bs[j], az[0]) ==> bs[j].user_id
                == az[0].user_id
    } else {
        forall|j: int|
            0 <= j < az.len() && crosses(bs[0], #[trigger] az[j]) ==> az[j].user_id
                == bs[0].user_id
    })
}

/// `t` was lawfully emitted from a book that started as `bids0`/`asks0`:
/// it pairs a bid and an ask of different users whose prices crossed, at
/// the maker's price, for a positive quantity within both orders.
pub open spec fn valid_trade(
    t: Trade,
    bids0: Seq<BookOrder>,
    asks0: Seq<BookOrder>,
    sym: Seq<char>,
    now: u64,
) -> bool {
    t.symbol@ == sym && t.timestamp == now && t.bid_id != t.ask_id && 0 < t.quantity.units
        && exists|i: int, j: int|
        #![trigger bids0[i], asks0[j]]
        0 <= i < bids0.len() && 0 <= j < asks0.len() && t.bid_id == bids0[i].id && t.ask_id
            == asks0[j].id && bids0[i].user_id != asks0[j].user_id && crosses(bids0[i], asks0[j])
            && t.price == maker_price(bids0[i], asks0[j]) && t.quantity.units
            <= bids0[i].quantity.units && t.quantity.units <= asks0[j].quantity.units
}

/// Scans the maker side for the first counterpart the taker may consume:
/// the first crossing entry of another user.  Entries skipped on the way
/// belong to the taker's own user; `None` means every crossing maker
/// does.
fn find_counterparty(makers: &Vec<BookOrder>, taker: &BookOrder, makers_are_bids: bool) -> (r:
    Option<usize>)
    requires
        half_wf(makers@, if makers_are_bids {
            OrderSide::Buy
        } else {
            OrderSide::Sell
        }),
    ensures
        match r {
            Some(j) => j < makers@.len() && cross_m(makers@[j as int], *taker, makers_are_bids)
                && makers@[j as int].user_id != taker.user_id && forall|k: int|
                0 <= k < j ==> (#[trigger] makers@[k]).user_id == taker.user_id,
            None => forall|k: int|
                0 <= k < makers@.len() && cross_m(#[trigger] makers@[k], *taker, makers_are_bids)
                    ==> makers@[k].user_id == taker.user_id,
        },
{
    let ghost side = if makers_are_bids {
        OrderSide::Buy
    } else {
        OrderSide::Sell
    };
    let mut k: usize = 0;
    while k < makers.len()
        invariant
            0 <= k <= makers@.len(),
            half_wf(makers@, side),
            makers_are_bids ==> side == OrderSide::Buy,
            !makers_are_bids ==> side == OrderSide::Sell,
            forall|x: int| 0 <= x < k ==> (#[trigger] makers@[x]).user_id == taker.user_id,
        decreases makers@.len() - k,
    {
        let m = makers[k];
        let crossing = if makers_are_bids {
            m.price.units >= taker.price.units
        } else {
            taker.price.units >= m.price.units
        };
        if !crossing {
            proof {
                assert forall|x: int|
                    0 <= x < makers@.len() && cross_m(
                        #[trigger] makers@[x],
                        *taker,
                        makers_are_bids,
                    ) implies makers@[x].user_id == taker.user_id by {
                    if x >= k {
                        if x > k {
                            assert(side_before(side, makers@[k as int], makers@[x]));
                        }
                        assert(!cross_m(makers@[x], *taker, makers_are_bids));
                    }
                }
            }
            return None;
        }
        if m.user_id != taker.user_id {
            return Some(k);
        }
        k = k + 1;
    }
    None
}



/// The source-index sequence after a matching step: when the reduced
/// entry was fully consumed its index entry leaves too, else nothing
/// moves.
pub open spec fn step_src(src: Seq<int>, p: Seq<BookOrder>, i: int, q: nat) -> Seq<int> {
    if q == p[i].quantity.units {
        src.remove(i)
    } else {
        src
    }
}

/// One matching step, as seen by the proof: the books before and after,
/// the trade emitted, and which bid and ask were paired.
pub proof fn lemma_trade_step(
    bids0: Seq<BookOrder>,
    asks0: Seq<BookOrder>,
    pbids: Seq<BookOrder>,
    pasks: Seq<BookOrder>,
    nbids: Seq<BookOrder>,
    nasks: Seq<BookOrder>,
    old_trades: Seq<Trade>,
    ntrades: Seq<Trade>,
    t: Trade,
    bi: int,
    ai: int,
    sym: Seq<char>,
    now: u64,
    srcb: Seq<int>,
    srca: Seq<int>,
)
    requires
        ids_unique(pbids, pasks),
        0 <= bi < pbids.len(),
        0 <= ai < pasks.len(),
        crosses(pbids[bi], pasks[ai]),
        pbids[bi].user_id != pasks[ai].user_id,
        t.bid_id == pbids[bi].id,
        t.ask_id == pasks[ai].id,
        t.symbol@ == sym,
        t.timestamp == now,
        t.price == maker_price(pbids[bi], pasks[ai]),
        0 < t.quantity.units,
        t.quantity.units <= pbids[bi].quantity.units,
        t.quantity.units <= pasks[ai].quantity.units,
        t.quantity.units == pbids[bi].quantity.units || t.quantity.units
            == pasks[ai].quantity.units,
        nbids == reduce_seq(pbids, bi, t.quantity.units as nat),
        nasks == reduce_seq(pasks, ai, t.quantity.units as nat),
        ntrades == old_trades.push(t),
        forall|k: int|
            0 <= k < old_trades.len() ==> valid_trade(
                #[trigger] old_trades[k],
                bids0,
                asks0,
                sym,
                now,
            ),
        forall|id: u64|
            #![trigger qty_in(pbids, id)]
            qty_in(pbids, id) + bid_traded(old_trades, id) == qty_in(bids0, id),
        forall|id: u64|
            #![trigger qty_in(pasks, id)]
            qty_in(pasks, id) + ask_traded(old_trades, id) == qty_in(asks0, id),
        sourced(pbids, bids0, srcb),
        sourced(pasks, asks0, srca),
    ensures
        ids_unique(nbids, nasks),
        forall|k: int|
            0 <= k < ntrades.len() ==> valid_trade(#[trigger] ntrades[k], bids0, asks0, sym, now),
        forall|id: u64|
            #![trigger qty_in(nbids, id)]
            qty_in(nbids, id) + bid_traded(ntrades, id) == qty_in(bids0, id),
        forall|id: u64|
            #![trigger qty_in(nasks, id)]
            qty_in(nasks, id) + ask_traded(ntrades, id) == qty_in(asks0, id),
        sourced(nbids, bids0, step_src(srcb, pbids, bi, t.quantity.units as nat)),
        sourced(nasks, asks0, step_src(srca, pasks, ai, t.quantity.units as nat)),
        nbids.len() + nasks.len() < pbids.len() + pasks.len(),
{
    let qn = t.quantity.units as nat;
    lemma_reduce_entries(pbids, bi, qn);
    lemma_reduce_entries(pasks, ai, qn);
    assert forall|i1: int, i2: int| 0 <= i1 < i2 < nbids.len() implies nbids[i1].id
        != nbids[i2].id by {
        assert(core_shrunk(nbids[i1], pbids[ridx(pbids, bi, qn, i1)]));
        assert(core_shrunk(nbids[i2], pbids[ridx(pbids, bi, qn, i2)]));
    }
    assert forall|i1: int, i2: int| 0 <= i1 < i2 < nasks.len() implies nasks[i1].id
        != nasks[i2].id by {
        assert(core_shrunk(nasks[i1], pasks[ridx(pasks, ai, qn, i1)]));
        assert(core_shrunk(nasks[i2], pasks[ridx(pasks, ai, qn, i2)]));
    }
    assert forall|i1: int, i2: int|
        0 <= i1 < nbids.len() && 0 <= i2 < nasks.len() implies nbids[i1].id != nasks[i2].id by {
        assert(core_shrunk(nbids[i1], pbids[ridx(pbids, bi, qn, i1)]));
        assert(core_shrunk(nasks[i2], pasks[ridx(pasks, ai, qn, i2)]));
    }
    assert forall|id: u64|
        #![trigger qty_in(nbids, id)]
        qty_in(nbids, id) + bid_traded(ntrades, id) == qty_in(bids0, id) by {
        lemma_reduce_conservation(pbids, bi, qn, id);
        lemma_traded_push(old_trades, t, id);
        assert(qty_in(pbids, id) + bid_traded(old_trades, id) == qty_in(bids0, id));
    }
    assert forall|id: u64|
        #![trigger qty_in(nasks, id)]
        qty_in(nasks, id) + ask_traded(ntrades, id) == qty_in(asks0, id) by {
        lemma_reduce_conservation(pasks, ai, qn, id);
        lemma_traded_push(old_trades, t, id);
        assert(qty_in(pasks, id) + ask_traded(old_trades, id) == qty_in(asks0, id));
    }
    let nsrcb = step_src(srcb, pbids, bi, qn);
    let nsrca = step_src(srca, pasks, ai, qn);
    assert forall|k: int| 0 <= k < nbids.len() implies 0 <= #[trigger] nsrcb[k] < bids0.len()
        && core_shrunk(nbids[k], bids0[nsrcb[k]]) by {
        let kk = ridx(pbids, bi, qn, k);
        assert(core_shrunk(nbids[k], pbids[kk]));
        assert(nsrcb[k] == srcb[kk]);
        assert(core_shrunk(pbids[kk], bids0[srcb[kk]]));
    }
    assert forall|k: int| 0 <= k < nasks.len() implies 0 <= #[trigger] nsrca[k] < asks0.len()
        && core_shrunk(nasks[k], asks0[nsrca[k]]) by {
        let kk = ridx(pasks, ai, qn, k);
        assert(core_shrunk(nasks[k], pasks[kk]));
        assert(nsrca[k] == srca[kk]);
        assert(core_shrunk(pasks[kk], asks0[srca[kk]]));
    }
    // the new trade is valid against the starting book
    let i0 = srcb[bi];
    let j0 = srca[ai];
    assert(core_shrunk(pbids[bi], bids0[i0]));
    assert(core_shrunk(pasks[ai], asks0[j0]));
    assert(bids0[i0].user_id != asks0[j0].user_id);
    assert(crosses(bids0[i0], asks0[j0]));
    assert(t.price == maker_price(bids0[i0], asks0[j0]));
    assert(valid_trade(t, bids0, asks0, sym, now));
    assert forall|k2: int| 0 <= k2 < ntrades.len() implies valid_trade(
        #[trigger] ntrades[k2],
        bids0,
        asks0,
        sym,
        now,
    ) by {
        if k2 < old_trades.len() {
            assert(ntrades[k2] == old_trades[k2]);
        } else {
            assert(ntrades[k2] == t);
        }
    }
}

impl SymbolBook {
    /// Executes one crossing between the bid at `bi` and the ask at
    /// `ai`: emits their trade at the maker's price for the smaller
    /// quantity and shrinks or removes both orders.
    fn do_trade(&mut self, bi: usize, ai: usize, now: u64) -> (t: Trade)
        requires
            old(self).wf(),
            bi < old(self).bids@.len(),
            ai < old(self).asks@.len(),
            crosses(old(self).bids@[bi as int], old(self).asks@[ai as int]),
            old(self).bids@[bi as int].user_id != old(self).asks@[ai as int].user_id,
        ensures
            half_wf(final(self).bids@, OrderSide::Buy),
            half_wf(final(self).asks@, OrderSide::Sell),
            final(self).symbol == old(self).symbol,
            t.bid_id == old(self).bids@[bi as int].id,
            t.ask_id == old(self).asks@[ai as int].id,
            t.symbol@ == old(self).symbol@,
            t.timestamp == now,
            t.price == maker_price(old(self).bids@[bi as int], old(self).asks@[ai as int]),
            0 < t.quantity.units,
            t.quantity.units <= old(self).bids@[bi as int].quantity.units,
            t.quantity.units <= old(self).asks@[ai as int].quantity.units,
            t.quantity.units == old(self).bids@[bi as int].quantity.units || t.quantity.units
                == old(self).asks@[ai as int].quantity.units,
            final(self).bids@ == reduce_seq(old(self).bids@, bi as int, t.quantity.units as nat),
            final(self).asks@ == reduce_seq(old(self).asks@, ai as int, t.quantity.units as nat),
    {
        let ghost pbids = self.bids@;
        let ghost pasks = self.asks@;
        let b = self.bids[bi];
        let a = self.asks[ai];
        let qty = if b.quantity.units <= a.quantity.units {
            b.quantity
        } else {
            a.quantity
        };
        let price = if b.timestamp <= a.timestamp {
            b.price
        } else {
            a.price
        };
        let t = Trade::new(b.id, a.id, self.symbol.clone(), price, qty, now);
        reduce_at(&mut self.bids, bi, qty);
        reduce_at(&mut self.asks, ai, qty);
        proof {
            lemma_reduce_wf(pbids, bi as int, qty.units as nat, OrderSide::Buy);
            lemma_reduce_wf(pasks, ai as int, qty.units as nat, OrderSide::Sell);
        }
        t
    }

    /// Drains crossed liquidity: while the best bid's price is at least
    /// the best ask's, trades them at the maker's (earlier-timestamped,
    /// tie to the bid) price for the smaller of the two quantities,
    /// dropping whichever order is fully consumed.  A taker never
    /// consumes a resting order of its own user: the scan skips along
    /// the maker side, and when only same-user makers still cross, the
    /// symbol stalls with both orders resting.
    ///
    /// The contract pins down every emitted trade against the starting
    /// book, conserves quantity per order id between the residual book
    /// and the trades, and guarantees the residual book is uncrossed
    /// unless self-match prevention blocked it.
    #[verifier::rlimit(60)]
    pub fn match_orders(&mut self, now: u64) -> (trades: Vec<Trade>)
        requires
            old(self).wf(),
        ensures
            final(self).wf(),
            final(self).symbol == old(self).symbol,
            forall|k: int|
                0 <= k < trades@.len() ==> valid_trade(
                    #[trigger] trades@[k],
                    old(self).bids@,
                    old(self).asks@,
                    old(self).symbol@,
                    now,
                ),
            forall|id: u64|
                #![trigger qty_in(final(self).bids@, id)]
                qty_in(final(self).bids@, id) + bid_traded(trades@, id) == qty_in(
                    old(self).bids@,
                    id,
                ),
            forall|id: u64|
                #![trigger qty_in(final(self).asks@, id)]
                qty_in(final(self).asks@, id) + ask_traded(trades@, id) == qty_in(
                    old(self).asks@,
                    id,
                ),
            final(self).bids@.len() > 0 && final(self).asks@.len() > 0 ==> !crosses(
                final(self).bids@[0],
                final(self).asks@[0],
            ) || blocked(final(self).bids@, final(self).asks@),
            crossed_differ(old(self).bids@, old(self).asks@) ==> trades@.len() >= 1 && top_trade(
                trades@[0],
                old(self).bids@,
                old(self).asks@,
            ),
            trades@.len() == 0 ==> final(self).bids@ == old(self).bids@ && final(self).asks@
                == old(self).asks@,
            descends(final(self).bids@, old(self).bids@),
            descends(final(self).asks@, old(self).asks@),
    {
        let ghost bids0 = self.bids@;
        let ghost asks0 = self.asks@;
        let ghost sym0 = self.symbol;
        let ghost sym = self.symbol@;
        let mut trades: Vec<Trade> = Vec::new();
        let ghost mut srcb: Ghost<Seq<int>> = Ghost(Seq::new(bids0.len(), |k: int| k));
        let ghost mut srca: Ghost<Seq<int>> = Ghost(Seq::new(asks0.len(), |k: int| k));
        proof {
            assert forall|k: int| 0 <= k < self.bids@.len() implies 0 <= #[trigger] srcb@[k]
                < bids0.len() && core_shrunk(self.bids@[k], bids0[srcb@[k]]) by {
                assert(srcb@[k] == k);
                assert(core_shrunk(bids0[k], bids0[k]));
            }
            assert forall|k: int| 0 <= k < self.asks@.len() implies 0 <= #[trigger] srca@[k]
                < asks0.len() && core_shrunk(self.asks@[k], asks0[srca@[k]]) by {
                assert(srca@[k] == k);
                assert(core_shrunk(asks0[k], asks0[k]));
            }
        }
        loop
            invariant
                self.symbol == sym0,
                self.symbol@ == sym,
                half_wf(self.bids@, OrderSide::Buy),
                half_wf(self.asks@, OrderSide::Sell),
                ids_unique(self.bids@, self.asks@),
                forall|k: int|
                    0 <= k < trades@.len() ==> valid_trade(
                        #[trigger] trades@[k],
                        bids0,
                        asks0,
                        sym,
                        now,
                    ),
                forall|id: u64|
                    #![trigger qty_in(self.bids@, id)]
                    qty_in(self.bids@, id) + bid_traded(trades@, id) == qty_in(bids0, id),
                forall|id: u64|
                    #![trigger qty_in(self.asks@, id)]
                    qty_in(self.asks@, id) + ask_traded(trades@, id) == qty_in(asks0, id),
                sourced(self.bids@, bids0, srcb@),
                sourced(self.asks@, asks0, srca@),
                forall|k1: int, k2: int| 0 <= k1 < k2 < srcb@.len() ==> srcb@[k1] < srcb@[k2],
                forall|k1: int, k2: int| 0 <= k1 < k2 < srca@.len() ==> srca@[k1] < srca@[k2],
                trades@.len() == 0 ==> self.bids@ == bids0 && self.asks@ == asks0,
                crossed_differ(bids0, asks0) && trades@.len() >= 1 ==> top_trade(
                    trades@[0],
                    bids0,
                    asks0,
                ),
            ensures
                self.bids@.len() > 0 && self.asks@.len() > 0 ==> !crosses(
                    self.bids@[0],
                    self.asks@[0],
                ) || blocked(self.bids@, self.asks@),
                crossed_differ(bids0, asks0) ==> trades@.len() >= 1,
            decreases self.bids@.len() + self.asks@.len(),
        {
            if self.bids.len() == 0 || self.asks.len() == 0 {
                proof {
                    if crossed_differ(bids0, asks0) && trades@.len() == 0 {
                        assert(false);
                    }
                }
                break;
            }
            let b0 = self.bids[0];
            let a0 = self.asks[0];
            if b0.price.units < a0.price.units {
                proof {
                    if crossed_differ(bids0, asks0) && trades@.len() == 0 {
                        assert(crosses(b0, a0));
                        assert(false);
                    }
                }
                break;
            }
            let makers_are_bids = b0.timestamp <= a0.timestamp;
            let jopt = if makers_are_bids {
                find_counterparty(&self.bids, &a0, true)
            } else {
                find_counterparty(&self.asks, &b0, false)
            };
            match jopt {
                None => {
                    proof {
                        if makers_are_bids {
                            assert(cross_m(self.bids@[0], a0, true));
                        } else {
                            assert(cross_m(self.asks@[0], b0, false));
                        }
                        assert(blocked(self.bids@, self.asks@));
                        if crossed_differ(bids0, asks0) && trades@.len() == 0 {
                            assert(cross_m(if makers_are_bids {
                                self.bids@[0]
                            } else {
                                self.asks@[0]
                            }, if makers_are_bids {
                                a0
                            } else {
                                b0
                            }, makers_are_bids));
                            assert(false);
                        }
                    }
                    break;
                },
                Some(j) => {
                    let ghost pbids = self.bids@;
                    let ghost pasks = self.asks@;
                    let ghost old_trades = trades@;
                    let bi: usize = if makers_are_bids {
                        j
                    } else {
                        0
                    };
                    let ai: usize = if makers_are_bids {
                        0
                    } else {
                        j
                    };
                    proof {
                        if makers_are_bids {
                            assert(cross_m(pbids[bi as int], a0, true));
                        } else {
                            assert(cross_m(pasks[ai as int], b0, false));
                        }
                    }
                    let t = self.do_trade(bi, ai, now);
                    let ghost tg = t;
                    trades.push(t);
                    proof {
                        lemma_trade_step(
                            bids0,
                            asks0,
                            pbids,
                            pasks,
                            self.bids@,
                            self.asks@,
                            old_trades,
                            trades@,
                            tg,
                            bi as int,
                            ai as int,
                            sym,
                            now,
                            srcb@,
                            srca@,
                        );
                        lemma_step_src_increasing(srcb@, pbids, bi as int, tg.quantity.units as nat);
                        lemma_step_src_increasing(srca@, pasks, ai as int, tg.quantity.units as nat);
                        srcb = Ghost(step_src(srcb@, pbids, bi as int, tg.quantity.units as nat));
                        srca = Ghost(step_src(srca@, pasks, ai as int, tg.quantity.units as nat));
                        // the first trade pairs the two original tops
                        if old_trades.len() == 0 && crossed_differ(bids0, asks0) {
                            if makers_are_bids {
                                if bi != 0 {
                                    assert(pbids[0].user_id == a0.user_id);
                                    assert(false);
                                }
                            } else {
                                if ai != 0 {
                                    assert(pasks[0].user_id == b0.user_id);
                                    assert(false);
                                }
                            }
                            assert(trades@[0] == tg);
                            assert(top_trade(tg, bids0, asks0));
                        }
                    }
                },
            }
        }
        proof {
            assert(sourced_in_order(self.bids@, bids0, srcb@));
            assert(sourced_in_order(self.asks@, asks0, srca@));
        }
        trades
    }
}


// ---------------------------------------------------------------------
// Laws of the matcher.
// ---------------------------------------------------------------------

/// The traded total is at least any single trade's contribution.
pub proof fn lemma_traded_at_least(ts: Seq<Trade>, k: int, id: u64)
    requires
        0 <= k < ts.len(),
    ensures
        bid_traded(ts, id) >= trade_bid_contrib(ts[k], id),
        ask_traded(ts, id) >= trade_ask_contrib(ts[k], id),
    decreases ts.len(),
{
    if k == ts.len() - 1 {
    } else {
        lemma_traded_at_least(ts.drop_last(), k, id);
        assert(ts.drop_last()[k] == ts[k]);
    }
}

/// The held total is at least any single entry's contribution.
pub proof fn lemma_qty_in_at_least(s: Seq<BookOrder>, k: int, id: u64)
    requires
        0 <= k < s.len(),
    ensures
        qty_in(s, id) >= order_contrib(s[k], id),
{
    lemma_qty_in_remove(s, k, id);
}

/// After matching, a book holding no two opposite orders of the same
/// user is never crossed: the blocked case demands a shared user at the
/// top, so only genuine price separation remains.
pub proof fn lemma_book_uncrossed(bs: Seq<BookOrder>, az: Seq<BookOrder>)
    requires
        bs.len() > 0 && az.len() > 0 ==> !crosses(bs[0], az[0]) || blocked(bs, az),
        forall|i: int, j: int|
            0 <= i < bs.len() && 0 <= j < az.len() ==> bs[i].user_id != az[j].user_id,
    ensures
        bs.len() == 0 || az.len() == 0 || !crosses(bs[0], az[0]),
{
    if bs.len() > 0 && az.len() > 0 && crosses(bs[0], az[0]) {
        assert(bs[0].user_id != az[0].user_id);
        assert(!blocked(bs, az));
    }
}

/// No order is ever overfilled: under the matcher's conservation
/// equations, the total traded against an order id never exceeds the
/// resting quantity that id held when matching began.
pub proof fn lemma_fills_bounded(
    bids0: Seq<BookOrder>,
    asks0: Seq<BookOrder>,
    nbids: Seq<BookOrder>,
    nasks: Seq<BookOrder>,
    trades: Seq<Trade>,
    k: int,
    l: int,
)
    requires
        ids_unique(bids0, asks0),
        forall|id: u64|
            #![trigger qty_in(nbids, id)]
            qty_in(nbids, id) + bid_traded(trades, id) == qty_in(bids0, id),
        forall|id: u64|
            #![trigger qty_in(nasks, id)]
            qty_in(nasks, id) + ask_traded(trades, id) == qty_in(asks0, id),
        0 <= k < bids0.len(),
        0 <= l < asks0.len(),
    ensures
        bid_traded(trades, bids0[k].id) <= bids0[k].quantity.units,
        ask_traded(trades, asks0[l].id) <= asks0[l].quantity.units,
{
    lemma_qty_in_unique(bids0, k);
    lemma_qty_in_unique(asks0, l);
    assert(qty_in(nbids, bids0[k].id) + bid_traded(trades, bids0[k].id) == qty_in(
        bids0,
        bids0[k].id,
    ));
    assert(qty_in(nasks, asks0[l].id) + ask_traded(trades, asks0[l].id) == qty_in(
        asks0,
        asks0[l].id,
    ));
}

/// When the two best orders cross between different users with equal
/// quantities, one trade fully fills both, and both leave the book.
pub proof fn lemma_equal_amounts_fill_both(
    bids0: Seq<BookOrder>,
    asks0: Seq<BookOrder>,
    nbids: Seq<BookOrder>,
    nasks: Seq<BookOrder>,
    trades: Seq<Trade>,
)
    requires
        half_wf(bids0, OrderSide::Buy),
        half_wf(asks0, OrderSide::Sell),
        half_wf(nbids, OrderSide::Buy),
        half_wf(nasks, OrderSide::Sell),
        ids_unique(bids0, asks0),
        crossed_differ(bids0, asks0),
        bids0[0].quantity == asks0[0].quantity,
        forall|id: u64|
            #![trigger qty_in(nbids, id)]
            qty_in(nbids, id) + bid_traded(trades, id) == qty_in(bids0, id),
        forall|id: u64|
            #![trigger qty_in(nasks, id)]
            qty_in(nasks, id) + ask_traded(trades, id) == qty_in(asks0, id),
        trades.len() >= 1 && top_trade(trades[0], bids0, asks0),
    ensures
        bid_traded(trades, bids0[0].id) == bids0[0].quantity.units,
        ask_traded(trades, asks0[0].id) == asks0[0].quantity.units,
        forall|k: int| 0 <= k < nbids.len() ==> (#[trigger] nbids[k]).id != bids0[0].id,
        forall|k: int| 0 <= k < nasks.len() ==> (#[trigger] nasks[k]).id != asks0[0].id,
{
    let bid0 = bids0[0].id;
    let aid0 = asks0[0].id;
    lemma_traded_at_least(trades, 0, bid0);
    lemma_traded_at_least(trades, 0, aid0);
    assert(trades[0].bid_id == bid0 && trades[0].ask_id == aid0);
    assert(trade_bid_contrib(trades[0], bid0) == bids0[0].quantity.units);
    lemma_fills_bounded(bids0, asks0, nbids, nasks, trades, 0, 0);
    lemma_qty_in_unique(bids0, 0);
    lemma_qty_in_unique(asks0, 0);
    assert(qty_in(nbids, bid0) == 0);
    assert(qty_in(nasks, aid0) == 0);
    assert forall|k: int| 0 <= k < nbids.len() implies (#[trigger] nbids[k]).id != bid0 by {
        if nbids[k].id == bid0 {
            lemma_qty_in_at_least(nbids, k, bid0);
        }
    }
    assert forall|k: int| 0 <= k < nasks.len() implies (#[trigger] nasks[k]).id != aid0 by {
        if nasks[k].id == aid0 {
            lemma_qty_in_at_least(nasks, k, aid0);
        }
    }
}

/// A buy at exactly the best ask's price matches: the crossing test is
/// price-inclusive, so equality already produces the top trade.
pub proof fn lemma_match_at_equal_price(bids0: Seq<BookOrder>, asks0: Seq<BookOrder>, trades: Seq<
    Trade,
>)
    requires
        bids0.len() > 0,
        asks0.len() > 0,
        bids0[0].price == asks0[0].price,
        bids0[0].user_id != asks0[0].user_id,
        crossed_differ(bids0, asks0) ==> trades.len() >= 1 && top_trade(trades[0], bids0, asks0),
    ensures
        trades.len() >= 1,
        top_trade(trades[0], bids0, asks0),
        trades[0].price == asks0[0].price,
{
    assert(crosses(bids0[0], asks0[0]));
    assert(maker_price(bids0[0], asks0[0]) == bids0[0].price);
}

/// Equal-price arrivals keep insertion order: a newcomer whose price
/// ties an entry at index `k` is inserted strictly behind it, so the
/// earlier arrival keeps priority even at an equal timestamp.
pub proof fn lemma_equal_priority_fifo(s: Seq<BookOrder>, y: BookOrder, side: OrderSide, k: int)
    requires
        half_sorted(s, side),
        0 <= k < s.len(),
        s[k].price == y.price,
    ensures
        insert_pos(s, y, side) > k,
{
    lemma_insert_pos(s, y, side);
    let p = insert_pos(s, y, side);
    if p <= k {
        assert(strictly_better(side, y, s[p]));
        if p < k {
            assert(side_before(side, s[p], s[k]));
        }
    }
}

/// The first index of a present id is where it stands.
pub proof fn lemma_id_index_first(s: Seq<BookOrder>, j: int)
    requires
        0 <= j < s.len(),
        forall|i: int| 0 <= i < j ==> (#[trigger] s[i]).id != s[j].id,
    ensures
        id_index(s, s[j].id) == j,
    decreases s.len(),
{
    if j == 0 {
    } else {
        assert(s[0].id != s[j].id);
        assert(s.drop_first()[j - 1] == s[j]);
        assert forall|i: int| 0 <= i < j - 1 implies (#[trigger] s.drop_first()[i]).id != s
            .drop_first()[j - 1].id by {
            assert(s.drop_first()[i] == s[i + 1]);
        }
        lemma_id_index_first(s.drop_first(), j - 1);
    }
}

/// Adding an order and then cancelling it restores the side exactly:
/// the order enters at its computed position, the cancel finds that
/// very position, and the removal undoes the insertion.
pub proof fn lemma_add_then_cancel(s: Seq<BookOrder>, o: BookOrder, side: OrderSide)
    requires
        forall|i: int| 0 <= i < s.len() ==> (#[trigger] s[i]).id != o.id,
    ensures
        id_index(s.insert(insert_pos(s, o, side), o), o.id) == insert_pos(s, o, side),
        s.insert(insert_pos(s, o, side), o).remove(insert_pos(s, o, side)) =~= s,
{
    lemma_insert_pos(s, o, side);
    let p = insert_pos(s, o, side);
    let s2 = s.insert(p, o);
    assert(s2[p] == o);
    assert forall|i: int| 0 <= i < p implies (#[trigger] s2[i]).id != s2[p].id by {
        assert(s2[i] == s[i]);
    }
    lemma_id_index_first(s2, p);
}


/// An order leaves the book exactly when fully consumed: under the
/// matcher's conservation equation, the id of a starting order is
/// absent from the residual side if and only if the total traded
/// against it equals its whole starting quantity.
pub proof fn lemma_removed_iff_fully_filled(
    s0: Seq<BookOrder>,
    s1: Seq<BookOrder>,
    traded: nat,
    k: int,
)
    requires
        forall|i: int, j: int| 0 <= i < j < s0.len() ==> s0[i].id != s0[j].id,
        forall|l: int| 0 <= l < s1.len() ==> (#[trigger] s1[l]).quantity.units > 0,
        0 <= k < s0.len(),
        qty_in(s1, s0[k].id) + traded == qty_in(s0, s0[k].id),
    ensures
        (forall|l: int| 0 <= l < s1.len() ==> (#[trigger] s1[l]).id != s0[k].id) <==> traded
            == s0[k].quantity.units,
{
    let id = s0[k].id;
    lemma_qty_in_unique(s0, k);
    if forall|l: int| 0 <= l < s1.len() ==> (#[trigger] s1[l]).id != id {
        lemma_qty_in_absent(s1, id);
    }
    if traded == s0[k].quantity.units {
        assert(qty_in(s1, id) == 0);
        assert forall|l: int| 0 <= l < s1.len() implies (#[trigger] s1[l]).id != id by {
            if s1[l].id == id {
                lemma_qty_in_at_least(s1, l, id);
            }
        }
    }
}

} // verus!
