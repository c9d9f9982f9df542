//! The process-wide order book: one per-symbol book for each trading
//! pair seen so far, with routing by symbol string.

use vstd::prelude::*;
use crate::book::{
    SymbolBook, ask_traded, bid_traded, blocked, crossed_differ, crosses, descends, id_fresh,
    id_index, insert_pos, lemma_add_then_cancel, lemma_descends_refl, lemma_id_index,
    lemma_insert_pos, qty_in, top_trade, ts_newest, valid_trade,
};
use crate::order::{BookOrder, Order, OrderSide, Trade};

verus! {

/// First index whose book carries `sym`, or `-1` when absent.
pub open spec fn sym_index(books: Seq<SymbolBook>, sym: Seq<char>) -> int
    decreases books.len(),
{
    if books.len() == 0 {
        -1
    } else if books[0].symbol@ == sym {
        0
    } else if sym_index(books.drop_first(), sym) < 0 {
        -1
    } else {
        1 + sym_index(books.drop_first(), sym)
    }
}

/// A found symbol index is in bounds and carries the symbol; `-1` means
/// no book does.
pub proof fn lemma_sym_index(books: Seq<SymbolBook>, sym: Seq<char>)
    ensures
        sym_index(books, sym) >= 0 ==> sym_index(books, sym) < books.len() && books[sym_index(
            books,
            sym,
        )].symbol@ == sym,
        sym_index(books, sym) < 0 ==> forall|i: int|
            0 <= i < books.len() ==> (#[trigger] books[i]).symbol@ != sym,
    decreases books.len(),
{
    if books.len() == 0 {
    } else if books[0].symbol@ == sym {
    } else {
        lemma_sym_index(books.drop_first(), sym);
        if sym_index(books, sym) >= 0 {
            assert(books[sym_index(books, sym)] == books.drop_first()[sym_index(
                books.drop_first(),
                sym,
            )]);
        } else {
            assert forall|i: int| 0 <= i < books.len() implies (#[trigger] books[i]).symbol@
                != sym by {
                if i > 0 {
                    assert(books[i] == books.drop_first()[i - 1]);
                }
            }
        }
    }
}

/// `id` rests in no symbol's book.
pub open spec fn book_id_fresh(books: Seq<SymbolBook>, id: u64) -> bool {
    forall|k: int|
        0 <= k < books.len() ==> id_fresh(
            (#[trigger] books[k]).bids@,
            books[k].asks@,
            id,
        )
}

/// `ts` is no older than anything resting in any symbol's book.
pub open spec fn book_ts_newest(books: Seq<SymbolBook>, ts: u64) -> bool {
    forall|k: int|
        0 <= k < books.len() ==> ts_newest(
            (#[trigger] books[k]).bids@,
            books[k].asks@,
            ts,
        )
}


/// The trades of one symbol, in emission order.
pub open spec fn trades_for(ts: Seq<Trade>, sym: Seq<char>) -> Seq<Trade>
    decreases ts.len(),
{
    if ts.len() == 0 {
        Seq::empty()
    } else {
        trades_for(ts.drop_last(), sym) + (if ts.last().symbol@ == sym {
            seq![ts.last()]
        } else {
            Seq::empty()
        })
    }
}

/// Symbol filtering distributes over concatenation.
pub proof fn lemma_trades_for_concat(a: Seq<Trade>, b: Seq<Trade>, sym: Seq<char>)
    ensures
        trades_for(a + b, sym) == trades_for(a, sym) + trades_for(b, sym),
    decreases b.len(),
{
    if b.len() == 0 {
        assert(a + b =~= a);
        assert(trades_for(a, sym) + trades_for(b, sym) =~= trades_for(a, sym));
    } else {
        assert((a + b).drop_last() =~= a + b.drop_last());
        assert((a + b).last() == b.last());
        lemma_trades_for_concat(a, b.drop_last(), sym);
        assert(trades_for(a, sym) + trades_for(b.drop_last(), sym) + (if b.last().symbol@ == sym {
            seq![b.last()]
        } else {
            Seq::empty()
        }) =~= trades_for(a, sym) + trades_for(b, sym));
    }
}

/// Filtering by the symbol every trade carries keeps them all.
pub proof fn lemma_trades_for_all(ts: Seq<Trade>, sym: Seq<char>)
    requires
        forall|t: int| 0 <= t < ts.len() ==> (#[trigger] ts[t]).symbol@ == sym,
    ensures
        trades_for(ts, sym) == ts,
    decreases ts.len(),
{
    if ts.len() > 0 {
        assert(forall|t: int|
            0 <= t < ts.drop_last().len() ==> (#[trigger] ts.drop_last()[t]).symbol@ == sym);
        lemma_trades_for_all(ts.drop_last(), sym);
        assert(ts.drop_last() + seq![ts.last()] =~= ts);
    }
}

/// Filtering by a symbol no trade carries keeps none.
pub proof fn lemma_trades_for_none(ts: Seq<Trade>, sym: Seq<char>)
    requires
        forall|t: int| 0 <= t < ts.len() ==> (#[trigger] ts[t]).symbol@ != sym,
    ensures
        trades_for(ts, sym) == Seq::<Trade>::empty(),
    decreases ts.len(),
{
    if ts.len() > 0 {
        assert(forall|t: int|
            0 <= t < ts.drop_last().len() ==> (#[trigger] ts.drop_last()[t]).symbol@ != sym);
        lemma_trades_for_none(ts.drop_last(), sym);
        assert(trades_for(ts.drop_last(), sym) + Seq::<Trade>::empty() =~= trades_for(
            ts.drop_last(),
            sym,
        ));
    }
}

/// First book holding a resting order with this id, or `-1`.
pub open spec fn book_with_id(books: Seq<SymbolBook>, id: u64) -> int
    decreases books.len(),
{
    if books.len() == 0 {
        -1
    } else if id_index(books[0].bids@, id) >= 0 || id_index(books[0].asks@, id) >= 0 {
        0
    } else if book_with_id(books.drop_first(), id) < 0 {
        -1
    } else {
        1 + book_with_id(books.drop_first(), id)
    }
}

/// A found book index is in bounds and holds the id; `-1` means no
/// book does; nothing ahead of a found index holds the id.
pub proof fn lemma_book_with_id(books: Seq<SymbolBook>, id: u64)
    ensures
        book_with_id(books, id) >= 0 ==> book_with_id(books, id) < books.len() && (id_index(
            books[book_with_id(books, id)].bids@,
            id,
        ) >= 0 || id_index(books[book_with_id(books, id)].asks@, id) >= 0),
        book_with_id(books, id) < 0 ==> forall|k: int|
            0 <= k < books.len() ==> id_index((#[trigger] books[k]).bids@, id) < 0 && id_index(
                books[k].asks@,
                id,
            ) < 0,
        forall|k: int|
            0 <= k < book_with_id(books, id) ==> id_index((#[trigger] books[k]).bids@, id) < 0
                && id_index(books[k].asks@, id) < 0,
    decreases books.len(),
{
    if books.len() == 0 {
    } else if id_index(books[0].bids@, id) >= 0 || id_index(books[0].asks@, id) >= 0 {
    } else {
        lemma_book_with_id(books.drop_first(), id);
        if book_with_id(books, id) >= 0 {
            assert(books[book_with_id(books, id)] == books.drop_first()[book_with_id(
                books.drop_first(),
                id,
            )]);
        } else {
            assert forall|k: int|
                0 <= k < books.len() implies id_index((#[trigger] books[k]).bids@, id) < 0
                    && id_index(books[k].asks@, id) < 0 by {
                if k > 0 {
                    assert(books[k] == books.drop_first()[k - 1]);
                }
            }
        }
        assert forall|k: int|
            0 <= k < book_with_id(books, id) implies id_index((#[trigger] books[k]).bids@, id) < 0
                && id_index(books[k].asks@, id) < 0 by {
            if k > 0 {
                assert(books[k] == books.drop_first()[k - 1]);
            }
        }
    }
}

/// The first book holding an id is where the scan stops.
pub proof fn lemma_book_with_id_at(books: Seq<SymbolBook>, id: u64, i: int)
    requires
        0 <= i < books.len(),
        id_index(books[i].bids@, id) >= 0 || id_index(books[i].asks@, id) >= 0,
        forall|k: int|
            0 <= k < i ==> id_index((#[trigger] books[k]).bids@, id) < 0 && id_index(
                books[k].asks@,
                id,
            ) < 0,
    ensures
        book_with_id(books, id) == i,
    decreases books.len(),
{
    if i == 0 {
    } else {
        assert(id_index(books[0].bids@, id) < 0 && id_index(books[0].asks@, id) < 0);
        assert(books.drop_first()[i - 1] == books[i]);
        assert forall|k: int|
            0 <= k < i - 1 implies id_index((#[trigger] books.drop_first()[k]).bids@, id) < 0
                && id_index(books.drop_first()[k].asks@, id) < 0 by {
            assert(books.drop_first()[k] == books[k + 1]);
        }
        lemma_book_with_id_at(books.drop_first(), id, i - 1);
    }
}


/// Adding a fresh order to an existing symbol's book and then
/// cancelling it restores every side of every book: the whole-book
/// contracts of `add_order` and `cancel` compose into the round trip.
/// `books1` is the book after the insertion, `books2` after the
/// cancel, both exactly as those contracts state them.
pub proof fn lemma_add_then_cancel_book(
    books0: Seq<SymbolBook>,
    books1: Seq<SymbolBook>,
    books2: Seq<SymbolBook>,
    entry: BookOrder,
    sym: Seq<char>,
)
    requires
        book_id_fresh(books0, entry.id),
        sym_index(books0, sym) >= 0,
        books1.len() == books0.len(),
        forall|l: int|
            0 <= l < books0.len() && l != sym_index(books0, sym) ==> #[trigger] books1[l]
                == books0[l],
        ({
            let k = sym_index(books0, sym);
            &&& (entry.side is Buy ==> books1[k].bids@ == books0[k].bids@.insert(
                insert_pos(books0[k].bids@, entry, OrderSide::Buy),
                entry,
            ) && books1[k].asks@ == books0[k].asks@)
            &&& (entry.side is Sell ==> books1[k].asks@ == books0[k].asks@.insert(
                insert_pos(books0[k].asks@, entry, OrderSide::Sell),
                entry,
            ) && books1[k].bids@ == books0[k].bids@)
        }),
        book_with_id(books1, entry.id) >= 0,
        books2.len() == books1.len(),
        forall|l: int|
            0 <= l < books1.len() && l != book_with_id(books1, entry.id) ==> #[trigger] books2[l]
                == books1[l],
        ({
            let kc = book_with_id(books1, entry.id);
            let ob = books1[kc];
            &&& (id_index(ob.bids@, entry.id) >= 0 ==> books2[kc].bids@ == ob.bids@.remove(
                id_index(ob.bids@, entry.id),
            ) && books2[kc].asks@ == ob.asks@)
            &&& (id_index(ob.bids@, entry.id) < 0 ==> books2[kc].asks@ == ob.asks@.remove(
                id_index(ob.asks@, entry.id),
            ) && books2[kc].bids@ == ob.bids@)
        }),
    ensures
        forall|l: int|
            0 <= l < books0.len() ==> (#[trigger] books2[l]).bids@ == books0[l].bids@
                && books2[l].asks@ == books0[l].asks@,
{
    let k = sym_index(books0, sym);
    lemma_sym_index(books0, sym);
    // only the touched book holds the fresh id
    assert forall|l: int|
        0 <= l < books1.len() && l != k implies id_index((#[trigger] books1[l]).bids@, entry.id)
            < 0 && id_index(books1[l].asks@, entry.id) < 0 by {
        assert(books1[l] == books0[l]);
        lemma_id_index(books0[l].bids@, entry.id);
        lemma_id_index(books0[l].asks@, entry.id);
    }
    if entry.side is Buy {
        lemma_insert_pos(books0[k].bids@, entry, OrderSide::Buy);
        lemma_add_then_cancel(books0[k].bids@, entry, OrderSide::Buy);
        assert(id_index(books1[k].bids@, entry.id) == insert_pos(
            books0[k].bids@,
            entry,
            OrderSide::Buy,
        ));
        lemma_book_with_id_at(books1, entry.id, k);
        assert(books2[k].bids@ =~= books0[k].bids@);
    } else {
        lemma_insert_pos(books0[k].asks@, entry, OrderSide::Sell);
        lemma_add_then_cancel(books0[k].asks@, entry, OrderSide::Sell);
        assert(id_index(books1[k].asks@, entry.id) == insert_pos(
            books0[k].asks@,
            entry,
            OrderSide::Sell,
        ));
        lemma_id_index(books0[k].bids@, entry.id);
        assert(id_index(books1[k].bids@, entry.id) < 0);
        lemma_book_with_id_at(books1, entry.id, k);
        assert(books2[k].asks@ =~= books0[k].asks@);
    }
    assert forall|l: int|
        0 <= l < books0.len() implies (#[trigger] books2[l]).bids@ == books0[l].bids@
            && books2[l].asks@ == books0[l].asks@ by {
        if l != k {
            assert(books2[l] == books1[l]);
            assert(books1[l] == books0[l]);
        }
    }
}

/// `t` was lawfully emitted by matching one of these per-symbol books.
pub open spec fn trade_from_some_book(t: Trade, books: Seq<SymbolBook>, now: u64) -> bool {
    exists|k: int|
        0 <= k < books.len() && valid_trade(
            t,
            (#[trigger] books[k]).bids@,
            books[k].asks@,
            books[k].symbol@,
            now,
        )
}

/// The whole book: per-symbol books with pairwise distinct symbols.
pub struct OrderBook {
    pub books: Vec<SymbolBook>,
}

impl OrderBook {
    /// Every per-symbol book is well formed and no symbol repeats.
    pub open spec fn wf(&self) -> bool {
        (forall|k: int| 0 <= k < self.books@.len() ==> (#[trigger] self.books@[k]).wf())
            && (forall|k: int, l: int|
            0 <= k < l < self.books@.len() ==> self.books@[k].symbol@ != self.books@[l].symbol@)
    }

    /// An empty book.
    pub fn new() -> (r: OrderBook)
        ensures
            r.wf(),
            r.books@.len() == 0,
    {
        OrderBook { books: Vec::new() }
    }

    /// Index of the book for `symbol`, if one exists.
    fn find_book(&self, symbol: &String) -> (r: Option<usize>)
        ensures
            (r matches Some(i) && i as int == sym_index(self.books@, symbol@)) || (r is None
                && sym_index(self.books@, symbol@) < 0),
    {
        let mut i: usize = 0;
        proof {
            assert(self.books@.skip(0) =~= self.books@);
        }
        while i < self.books.len()
            invariant
                0 <= i <= self.books@.len(),
                sym_index(self.books@, symbol@) == if sym_index(
                    self.books@.skip(i as int),
                    symbol@,
                ) < 0 {
                    -1
                } else {
                    i + sym_index(self.books@.skip(i as int), symbol@)
                },
            decreases self.books@.len() - i,
        {
            proof {
                assert(self.books@.skip(i as int)[0] == self.books@[i as int]);
                assert(self.books@.skip(i as int).drop_first() =~= self.books@.skip(i as int + 1));
            }
            if self.books[i].symbol == *symbol {
                return Some(i);
            }
            i = i + 1;
        }
        proof {
            assert(self.books@.skip(i as int).len() == 0);
        }
        None
    }

    /// Inserts `o` at the tail of its price level in its symbol's book,
    /// creating that book on first sight of the symbol.  No matching
    /// happens here.
    pub fn add_order(&mut self, o: Order)
        requires
            old(self).wf(),
            o.quantity.units > 0,
            book_id_fresh(old(self).books@, o.id),
            book_ts_newest(old(self).books@, o.timestamp),
        ensures
            final(self).wf(),
            sym_index(old(self).books@, o.symbol@) >= 0 ==> ({
                let k = sym_index(old(self).books@, o.symbol@);
                let ob = old(self).books@[k];
                &&& final(self).books@.len() == old(self).books@.len()
                &&& (forall|l: int|
                    0 <= l < old(self).books@.len() && l != k ==> final(self).books@[l] == old(self).books@[l])
                &&& final(self).books@[k].symbol@ == ob.symbol@
                &&& (o.side is Buy ==> final(self).books@[k].bids@ == ob.bids@.insert(
                    insert_pos(ob.bids@, o.entry_spec(), OrderSide::Buy),
                    o.entry_spec(),
                ) && final(self).books@[k].asks@ == ob.asks@)
                &&& (o.side is Sell ==> final(self).books@[k].asks@ == ob.asks@.insert(
                    insert_pos(ob.asks@, o.entry_spec(), OrderSide::Sell),
                    o.entry_spec(),
                ) && final(self).books@[k].bids@ == ob.bids@)
            }),
            sym_index(old(self).books@, o.symbol@) < 0 ==> ({
                let n = old(self).books@.len() as int;
                &&& final(self).books@.len() == n + 1
                &&& (forall|l: int|
                    0 <= l < n ==> final(self).books@[l] == old(self).books@[l])
                &&& final(self).books@[n].symbol@ == o.symbol@
                &&& (o.side is Buy ==> final(self).books@[n].bids@ =~= seq![o.entry_spec()]
                    && final(self).books@[n].asks@ =~= Seq::<BookOrder>::empty())
                &&& (o.side is Sell ==> final(self).books@[n].asks@ =~= seq![o.entry_spec()]
                    && final(self).books@[n].bids@ =~= Seq::<BookOrder>::empty())
            }),
    {
        let ghost books0 = self.books@;
        let entry = o.entry();
        match self.find_book(&o.symbol) {
            Some(i) => {
                proof {
                    lemma_sym_index(books0, o.symbol@);
                }
                let b = &mut self.books[i];
                b.add_order(entry);
                proof {
                    assert forall|k: int, l: int|
                        0 <= k < l < self.books@.len() implies self.books@[k].symbol@
                        != self.books@[l].symbol@ by {
                        assert(self.books@[k].symbol@ == books0[k].symbol@);
                        assert(self.books@[l].symbol@ == books0[l].symbol@);
                    }
                    assert forall|k: int| 0 <= k < self.books@.len() implies (#[trigger] self
                        .books@[k]).wf() by {
                        if k != i as int {
                            assert(self.books@[k] == books0[k]);
                        }
                    }
                }
            },
            None => {
                let mut nb = SymbolBook::new(o.symbol.clone());
                nb.add_order(entry);
                self.books.push(nb);
                proof {
                    lemma_sym_index(books0, o.symbol@);
                    let n = books0.len() as int;
                    assert(self.books@[n].bids@.len() + self.books@[n].asks@.len() == 1);
                    assert forall|k: int, l: int|
                        0 <= k < l < self.books@.len() implies self.books@[k].symbol@
                        != self.books@[l].symbol@ by {
                        if l < n {
                            assert(self.books@[k] == books0[k]);
                            assert(self.books@[l] == books0[l]);
                        } else {
                            assert(self.books@[k] == books0[k]);
                            assert(self.books@[l].symbol@ == o.symbol@);
                        }
                    }
                    assert forall|k: int| 0 <= k < self.books@.len() implies (#[trigger] self
                        .books@[k]).wf() by {
                        if k < n {
                            assert(self.books@[k] == books0[k]);
                        }
                    }
                }
            },
        }
    }

    /// Peeks the best resting bid for `symbol`.
    pub fn best_bid(&self, symbol: &String) -> (r: Option<BookOrder>)
        ensures
            ({
                let k = sym_index(self.books@, symbol@);
                if k >= 0 && self.books@[k].bids@.len() > 0 {
                    r == Some(self.books@[k].bids@[0])
                } else {
                    r is None
                }
            }),
    {
        proof {
            lemma_sym_index(self.books@, symbol@);
        }
        match self.find_book(symbol) {
            Some(i) => self.books[i].best_bid(),
            None => None,
        }
    }

    /// Peeks the best resting ask for `symbol`.
    pub fn best_ask(&self, symbol: &String) -> (r: Option<BookOrder>)
        ensures
            ({
                let k = sym_index(self.books@, symbol@);
                if k >= 0 && self.books@[k].asks@.len() > 0 {
                    r == Some(self.books@[k].asks@[0])
                } else {
                    r is None
                }
            }),
    {
        proof {
            lemma_sym_index(self.books@, symbol@);
        }
        match self.find_book(symbol) {
            Some(i) => self.books[i].best_ask(),
            None => None,
        }
    }

    /// Removes the resting order with this id from whichever symbol's
    /// book holds it; reports whether one was found.
    /// Removes the resting order with this id from the first symbol's
    /// book that holds it; reports whether one did.  The holding book
    /// loses exactly that order, every other book is untouched.
    pub fn cancel(&mut self, order_id: u64) -> (r: bool)
        requires
            old(self).wf(),
        ensures
            final(self).wf(),
            final(self).books@.len() == old(self).books@.len(),
            forall|k: int|
                0 <= k < final(self).books@.len() ==> (#[trigger] final(self).books@[k]).symbol@
                    == old(self).books@[k].symbol@,
            r == (book_with_id(old(self).books@, order_id) >= 0),
            !r ==> final(self).books@ == old(self).books@,
            book_with_id(old(self).books@, order_id) >= 0 ==> ({
                let k = book_with_id(old(self).books@, order_id);
                let ob = old(self).books@[k];
                &&& (forall|l: int|
                    0 <= l < old(self).books@.len() && l != k ==> final(self).books@[l] == old(self).books@[l])
                &&& final(self).books@[k].symbol == ob.symbol
                &&& (id_index(ob.bids@, order_id) >= 0 ==> final(self).books@[k].bids@
                    == ob.bids@.remove(id_index(ob.bids@, order_id)) && final(self).books@[k].asks@
                    == ob.asks@)
                &&& (id_index(ob.bids@, order_id) < 0 ==> final(self).books@[k].asks@
                    == ob.asks@.remove(id_index(ob.asks@, order_id)) && final(self).books@[k].bids@
                    == ob.bids@)
            }),
    {
        let ghost books0 = self.books@;
        let mut i: usize = 0;
        while i < self.books.len()
            invariant
                old(self).wf(),
                0 <= i <= self.books@.len(),
                self.books@.len() == books0.len(),
                books0 == old(self).books@,
                forall|k: int| 0 <= k < books0.len() ==> (#[trigger] self.books@[k]) == books0[k],
                forall|k: int|
                    0 <= k < i ==> id_index((#[trigger] books0[k]).bids@, order_id) < 0
                        && id_index(books0[k].asks@, order_id) < 0,
            decreases self.books@.len() - i,
        {
            let b = &mut self.books[i];
            let found = b.cancel(order_id);
            if found {
                proof {
                    assert(id_index(books0[i as int].bids@, order_id) >= 0 || id_index(
                        books0[i as int].asks@,
                        order_id,
                    ) >= 0);
                    lemma_book_with_id_at(books0, order_id, i as int);
                    assert forall|k: int| 0 <= k < self.books@.len() implies (#[trigger] self
                        .books@[k]).wf() by {
                        if k != i as int {
                            assert(self.books@[k] == books0[k]);
                        }
                    }
                    assert forall|k: int, l: int|
                        0 <= k < l < self.books@.len() implies self.books@[k].symbol@
                        != self.books@[l].symbol@ by {
                        assert(self.books@[k].symbol@ == books0[k].symbol@);
                        assert(self.books@[l].symbol@ == books0[l].symbol@);
                    }
                }
                return true;
            }
            proof {
                assert(self.books@[i as int] == books0[i as int]);
                assert(self.books@ =~= books0);
            }
            i = i + 1;
        }
        proof {
            assert(self.books@ =~= books0);
            lemma_book_with_id(books0, order_id);
            if book_with_id(books0, order_id) >= 0 {
                let k = book_with_id(books0, order_id);
                assert(id_index(books0[k].bids@, order_id) < 0 && id_index(
                    books0[k].asks@,
                    order_id,
                ) < 0);
            }
        }
        false
    }

    /// Runs the per-symbol matcher over every book and collects all
    /// trades emitted in this pass, each book's trades in emission
    /// order.  Per symbol the whole per-book matching contract is
    /// carried: quantity conservation between the residual book and
    /// that symbol's trades, an untouched book where no trade was
    /// emitted, a forced top trade where the tops crossed between
    /// different users, and order-keeping descent of the survivors.
    #[verifier::rlimit(60)]
    pub fn match_orders(&mut self, now: u64) -> (trades: Vec<Trade>)
        requires
            old(self).wf(),
        ensures
            final(self).wf(),
            final(self).books@.len() == old(self).books@.len(),
            forall|k: int|
                0 <= k < final(self).books@.len() ==> (#[trigger] final(self).books@[k]).symbol@
                    == old(self).books@[k].symbol@,
            forall|k: int|
                0 <= k < final(self).books@.len() ==> ((#[trigger] final(self).books@[k]).bids@.len()
                    > 0 && final(self).books@[k].asks@.len() > 0 ==> !crosses(
                    final(self).books@[k].bids@[0],
                    final(self).books@[k].asks@[0],
                ) || blocked(final(self).books@[k].bids@, final(self).books@[k].asks@)),
            forall|t: int|
                0 <= t < trades@.len() ==> trade_from_some_book(
                    #[trigger] trades@[t],
                    old(self).books@,
                    now,
                ),
            forall|k: int, id: u64|
                #![trigger qty_in(final(self).books@[k].bids@, id)]
                0 <= k < old(self).books@.len() ==> qty_in(final(self).books@[k].bids@, id)
                    + bid_traded(trades_for(trades@, old(self).books@[k].symbol@), id) == qty_in(
                    old(self).books@[k].bids@,
                    id,
                ),
            forall|k: int, id: u64|
                #![trigger qty_in(final(self).books@[k].asks@, id)]
                0 <= k < old(self).books@.len() ==> qty_in(final(self).books@[k].asks@, id)
                    + ask_traded(trades_for(trades@, old(self).books@[k].symbol@), id) == qty_in(
                    old(self).books@[k].asks@,
                    id,
                ),
            forall|k: int|
                0 <= k < old(self).books@.len() ==> (trades_for(
                    trades@,
                    (#[trigger] old(self).books@[k]).symbol@,
                ).len() == 0 ==> final(self).books@[k].bids@ == old(self).books@[k].bids@ && final(self).books@[k].asks@ == old(self).books@[k].asks@),
            forall|k: int|
                0 <= k < old(self).books@.len() && crossed_differ(
                    (#[trigger] old(self).books@[k]).bids@,
                    old(self).books@[k].asks@,
                ) ==> trades_for(trades@, old(self).books@[k].symbol@).len() >= 1 && top_trade(
                    trades_for(trades@, old(self).books@[k].symbol@)[0],
                    old(self).books@[k].bids@,
                    old(self).books@[k].asks@,
                ),
            forall|k: int|
                0 <= k < old(self).books@.len() ==> descends(
                    (#[trigger] final(self).books@[k]).bids@,
                    old(self).books@[k].bids@,
                ) && descends(final(self).books@[k].asks@, old(self).books@[k].asks@),
    {
        let ghost books0 = self.books@;
        let mut trades: Vec<Trade> = Vec::new();
        let ghost mut tsrc: Ghost<Seq<int>> = Ghost(Seq::empty());
        let mut i: usize = 0;
        proof {
            assert forall|k: int| 0 <= k < books0.len() implies trades_for(
                trades@,
                (#[trigger] books0[k]).symbol@,
            ).len() == 0 by {
                assert(trades_for(trades@, books0[k].symbol@) =~= Seq::<Trade>::empty());
            }
            assert forall|k: int| 0 <= k < books0.len() implies descends(
                (#[trigger] self.books@[k]).bids@,
                books0[k].bids@,
            ) && descends(self.books@[k].asks@, books0[k].asks@) by {
                lemma_descends_refl(books0[k].bids@);
                lemma_descends_refl(books0[k].asks@);
            }
        }
        while i < self.books.len()
            invariant
                0 <= i <= self.books@.len(),
                self.books@.len() == books0.len(),
                books0 == old(self).books@,
                forall|k: int| i <= k < books0.len() ==> #[trigger] self.books@[k] == books0[k],
                tsrc@.len() == trades@.len(),
                forall|t: int|
                    0 <= t < trades@.len() ==> 0 <= #[trigger] tsrc@[t] < books0.len()
                        && valid_trade(
                        trades@[t],
                        books0[tsrc@[t]].bids@,
                        books0[tsrc@[t]].asks@,
                        books0[tsrc@[t]].symbol@,
                        now,
                    ),
                forall|k: int| 0 <= k < books0.len() ==> (#[trigger] self.books@[k]).wf(),
                forall|k: int|
                    0 <= k < books0.len() ==> (#[trigger] self.books@[k]).symbol@
                        == books0[k].symbol@,
                forall|k: int, l: int|
                    0 <= k < l < books0.len() ==> self.books@[k].symbol@ != self.books@[l].symbol@,
                forall|k: int|
                    0 <= k < i ==> ((#[trigger] self.books@[k]).bids@.len() > 0
                        && self.books@[k].asks@.len() > 0 ==> !crosses(
                        self.books@[k].bids@[0],
                        self.books@[k].asks@[0],
                    ) || blocked(self.books@[k].bids@, self.books@[k].asks@)),
                forall|k: int|
                    i <= k < books0.len() ==> trades_for(
                        trades@,
                        (#[trigger] books0[k]).symbol@,
                    ).len() == 0,
                forall|k: int, id: u64|
                    #![trigger qty_in(self.books@[k].bids@, id)]
                    0 <= k < books0.len() ==> qty_in(self.books@[k].bids@, id) + bid_traded(
                        trades_for(trades@, books0[k].symbol@),
                        id,
                    ) == qty_in(books0[k].bids@, id),
                forall|k: int, id: u64|
                    #![trigger qty_in(self.books@[k].asks@, id)]
                    0 <= k < books0.len() ==> qty_in(self.books@[k].asks@, id) + ask_traded(
                        trades_for(trades@, books0[k].symbol@),
                        id,
                    ) == qty_in(books0[k].asks@, id),
                forall|k: int|
                    0 <= k < books0.len() ==> (trades_for(
                        trades@,
                        (#[trigger] books0[k]).symbol@,
                    ).len() == 0 ==> self.books@[k].bids@ == books0[k].bids@ && self.books@[k].asks@
                        == books0[k].asks@),
                forall|k: int|
                    0 <= k < i && crossed_differ(
                        (#[trigger] books0[k]).bids@,
                        books0[k].asks@,
                    ) ==> trades_for(trades@, books0[k].symbol@).len() >= 1 && top_trade(
                        trades_for(trades@, books0[k].symbol@)[0],
                        books0[k].bids@,
                        books0[k].asks@,
                    ),
                forall|k: int|
                    0 <= k < books0.len() ==> descends(
                        (#[trigger] self.books@[k]).bids@,
                        books0[k].bids@,
                    ) && descends(self.books@[k].asks@, books0[k].asks@),
            decreases self.books@.len() - i,
        {
            let ghost before = self.books@;
            let ghost old_trades = trades@;
            let b = &mut self.books[i];
            let mut ts = b.match_orders(now);
            let ghost nts = ts@;
            trades.append(&mut ts);
            proof {
                tsrc = Ghost(tsrc@ + Seq::new(nts.len(), |j: int| i as int));
                assert(before[i as int] == books0[i as int]);
                let sym_i = books0[i as int].symbol@;
                assert forall|t: int| 0 <= t < nts.len() implies (#[trigger] nts[t]).symbol@
                    == sym_i by {
                    assert(valid_trade(
                        nts[t],
                        books0[i as int].bids@,
                        books0[i as int].asks@,
                        sym_i,
                        now,
                    ));
                }
                lemma_trades_for_all(nts, sym_i);
                // per-symbol split of the enlarged trade list
                assert forall|k: int| 0 <= k < books0.len() implies trades_for(
                    trades@,
                    (#[trigger] books0[k]).symbol@,
                ) == (if k == i as int {
                    nts
                } else {
                    trades_for(old_trades, books0[k].symbol@)
                }) by {
                    let sym_k = books0[k].symbol@;
                    lemma_trades_for_concat(old_trades, nts, sym_k);
                    assert(trades@ == old_trades + nts);
                    if k == i as int {
                        assert(trades_for(old_trades, sym_k).len() == 0);
                        assert(trades_for(old_trades, sym_k) =~= Seq::<Trade>::empty());
                        assert(trades_for(trades@, sym_k) =~= nts);
                    } else {
                        assert(books0[k].symbol@ == self.books@[k].symbol@);
                        assert(sym_k != sym_i);
                        assert forall|t: int|
                            0 <= t < nts.len() implies (#[trigger] nts[t]).symbol@ != sym_k by {}
                        lemma_trades_for_none(nts, sym_k);
                        assert(trades_for(trades@, sym_k) =~= trades_for(old_trades, sym_k));
                    }
                }
                assert forall|t: int|
                    0 <= t < trades@.len() implies 0 <= #[trigger] tsrc@[t] < books0.len()
                        && valid_trade(
                        trades@[t],
                        books0[tsrc@[t]].bids@,
                        books0[tsrc@[t]].asks@,
                        books0[tsrc@[t]].symbol@,
                        now,
                    ) by {
                    if t < old_trades.len() {
                        assert(trades@[t] == old_trades[t]);
                        assert(tsrc@[t] == tsrc@.subrange(0, old_trades.len() as int)[t]);
                    } else {
                        assert(trades@[t] == nts[t - old_trades.len()]);
                        assert(tsrc@[t] == i as int);
                    }
                }
                assert forall|k: int| 0 <= k < books0.len() implies (#[trigger] self
                    .books@[k]).wf() by {
                    if k != i as int {
                        assert(self.books@[k] == before[k]);
                    }
                }
                assert forall|k: int| 0 <= k < books0.len() implies (#[trigger] self
                    .books@[k]).symbol@ == books0[k].symbol@ by {
                    if k != i as int {
                        assert(self.books@[k] == before[k]);
                    }
                }
                assert forall|k: int, l: int|
                    0 <= k < l < books0.len() implies self.books@[k].symbol@
                    != self.books@[l].symbol@ by {
                    assert(self.books@[k].symbol@ == books0[k].symbol@);
                    assert(self.books@[l].symbol@ == books0[l].symbol@);
                }
                assert forall|k: int|
                    0 <= k < i + 1 implies ((#[trigger] self.books@[k]).bids@.len() > 0
                        && self.books@[k].asks@.len() > 0 ==> !crosses(
                        self.books@[k].bids@[0],
                        self.books@[k].asks@[0],
                    ) || blocked(self.books@[k].bids@, self.books@[k].asks@)) by {
                    if k < i as int {
                        assert(self.books@[k] == before[k]);
                    }
                }
                // no trades yet for unprocessed books
                assert forall|k: int| i + 1 <= k < books0.len() implies trades_for(
                    trades@,
                    (#[trigger] books0[k]).symbol@,
                ).len() == 0 by {
                    assert(trades_for(trades@, books0[k].symbol@) == trades_for(
                        old_trades,
                        books0[k].symbol@,
                    ));
                }
                // conservation per book
                assert forall|k: int, id: u64|
                    #![trigger qty_in(self.books@[k].bids@, id)]
                    0 <= k < books0.len() implies qty_in(self.books@[k].bids@, id) + bid_traded(
                        trades_for(trades@, books0[k].symbol@),
                        id,
                    ) == qty_in(books0[k].bids@, id) by {
                    if k == i as int {
                        assert(qty_in(self.books@[k].bids@, id) + bid_traded(nts, id) == qty_in(
                            books0[k].bids@,
                            id,
                        ));
                    } else {
                        assert(self.books@[k] == before[k]);
                        assert(qty_in(before[k].bids@, id) + bid_traded(
                            trades_for(old_trades, books0[k].symbol@),
                            id,
                        ) == qty_in(books0[k].bids@, id));
                    }
                }
                assert forall|k: int, id: u64|
                    #![trigger qty_in(self.books@[k].asks@, id)]
                    0 <= k < books0.len() implies qty_in(self.books@[k].asks@, id) + ask_traded(
                        trades_for(trades@, books0[k].symbol@),
                        id,
                    ) == qty_in(books0[k].asks@, id) by {
                    if k == i as int {
                        assert(qty_in(self.books@[k].asks@, id) + ask_traded(nts, id) == qty_in(
                            books0[k].asks@,
                            id,
                        ));
                    } else {
                        assert(self.books@[k] == before[k]);
                        assert(qty_in(before[k].asks@, id) + ask_traded(
                            trades_for(old_trades, books0[k].symbol@),
                            id,
                        ) == qty_in(books0[k].asks@, id));
                    }
                }
                // a book with no trades is untouched
                assert forall|k: int|
                    0 <= k < books0.len() implies (trades_for(
                        trades@,
                        (#[trigger] books0[k]).symbol@,
                    ).len() == 0 ==> self.books@[k].bids@ == books0[k].bids@ && self.books@[k].asks@
                        == books0[k].asks@) by {
                    if k != i as int {
                        assert(self.books@[k] == before[k]);
                    }
                }
                // crossed different-user tops forced their top trade
                assert forall|k: int|
                    0 <= k < i + 1 && crossed_differ(
                        (#[trigger] books0[k]).bids@,
                        books0[k].asks@,
                    ) implies trades_for(trades@, books0[k].symbol@).len() >= 1 && top_trade(
                        trades_for(trades@, books0[k].symbol@)[0],
                        books0[k].bids@,
                        books0[k].asks@,
                    ) by {
                    if k == i as int {
                        assert(nts.len() >= 1 && top_trade(
                            nts[0],
                            books0[k].bids@,
                            books0[k].asks@,
                        ));
                    }
                }
                // the survivors descend from the starting book
                assert forall|k: int| 0 <= k < books0.len() implies descends(
                    (#[trigger] self.books@[k]).bids@,
                    books0[k].bids@,
                ) && descends(self.books@[k].asks@, books0[k].asks@) by {
                    if k != i as int {
                        assert(self.books@[k] == before[k]);
                    }
                }
            }
            i = i + 1;
        }
        proof {
            assert forall|t: int| 0 <= t < trades@.len() implies trade_from_some_book(
                #[trigger] trades@[t],
                books0,
                now,
            ) by {
                let k = tsrc@[t];
                assert(0 <= k < books0.len() && valid_trade(
                    trades@[t],
                    books0[k].bids@,
                    books0[k].asks@,
                    books0[k].symbol@,
                    now,
                ));
            }
        }
        trades
    }
}

} // verus!
