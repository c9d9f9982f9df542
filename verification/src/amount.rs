//! Fixed-point decimal quantities for prices and amounts.
//!
//! Every price, amount and balance in the engine is a non-negative decimal
//! with at most eighteen fractional digits, held as an integer count of
//! `10^-18` units.  With a `u128` carrier this covers more than twenty
//! integer digits, which is ample for any trading pair.

use vstd::prelude::*;
use vstd::string::StringSliceAdditionalSpecFns;

verus! {

/// Number of `10^-18` units in one whole: `10^18`.
pub const SCALE: u128 = 1_000_000_000_000_000_000;

/// Number of fractional digits carried by an `Amount`.
pub const FRAC_DIGITS: u128 = 18;

/// A non-negative fixed-point decimal: `units * 10^-18`.
#[derive(Clone, Copy, Debug, PartialEq, Eq, Structural)]
pub struct Amount {
    pub units: u128,
}

impl Amount {
    /// The zero amount.
    pub fn zero() -> (r: Amount)
        ensures
            r.units == 0,
            r == (Amount { units: 0 }),
    {
        Amount { units: 0 }
    }

    /// Builds an amount from a raw unit count (`10^-18` units).
    pub fn from_units(units: u128) -> (r: Amount)
        ensures
            r.units == units,
    {
        Amount { units }
    }

    /// True when the amount is exactly zero.
    pub fn is_zero(&self) -> (r: bool)
        ensures
            r == (self.units == 0),
    {
        self.units == 0
    }

    /// `self <= other`.
    pub fn le(&self, other: &Amount) -> (r: bool)
        ensures
            r == (self.units <= other.units),
    {
        self.units <= other.units
    }

    /// `self < other`.
    pub fn lt(&self, other: &Amount) -> (r: bool)
        ensures
            r == (self.units < other.units),
    {
        self.units < other.units
    }

    /// The smaller of the two amounts.
    pub fn min(&self, other: &Amount) -> (r: Amount)
        ensures
            r.units == if self.units <= other.units {
                self.units
            } else {
                other.units
            },
    {
        if self.units <= other.units {
            *self
        } else {
            *other
        }
    }

    /// Exact subtraction; the caller must know that no underflow occurs.
    pub fn minus(&self, other: &Amount) -> (r: Amount)
        requires
            other.units <= self.units,
        ensures
            r.units == self.units - other.units,
    {
        Amount { units: self.units - other.units }
    }

    /// Addition, `None` on overflow of the unit carrier.
    pub fn checked_add(&self, other: &Amount) -> (r: Option<Amount>)
        ensures
            self.units + other.units <= u128::MAX ==> (r matches Some(a)
                && a.units == self.units + other.units),
            self.units + other.units > u128::MAX ==> r is None,
    {
        if self.units <= u128::MAX - other.units {
            Some(Amount { units: self.units + other.units })
        } else {
            None
        }
    }
}


/// A decimal digit byte.
pub open spec fn is_digit(b: u8) -> bool {
    48 <= b <= 57
}

/// Every byte is a decimal digit.
pub open spec fn all_digits(s: Seq<u8>) -> bool {
    forall|i: int| 0 <= i < s.len() ==> is_digit(#[trigger] s[i])
}

/// The number a digit string denotes, most significant digit first.
pub open spec fn digits_val(s: Seq<u8>) -> nat
    decreases s.len(),
{
    if s.len() == 0 {
        0
    } else {
        digits_val(s.drop_last()) * 10 + (s.last() - 48) as nat
    }
}

/// Ten to the `n`.
pub open spec fn pow10(n: nat) -> nat
    decreases n,
{
    if n == 0 {
        1
    } else {
        10 * pow10((n - 1) as nat)
    }
}

/// A digit string of length `n` denotes a value below `10^n`.
pub proof fn lemma_digits_val_bound(s: Seq<u8>)
    requires
        all_digits(s),
    ensures
        digits_val(s) < pow10(s.len()),
    decreases s.len(),
{
    if s.len() > 0 {
        assert(all_digits(s.drop_last())) by {
            assert(forall|i: int|
                0 <= i < s.drop_last().len() ==> #[trigger] s.drop_last()[i] == s[i]);
        }
        lemma_digits_val_bound(s.drop_last());
        assert(is_digit(s.last()));
    }
}

/// Powers of ten multiply by adding exponents.
pub proof fn lemma_pow10_add(a: nat, b: nat)
    ensures
        pow10(a + b) == pow10(a) * pow10(b),
    decreases a,
{
    if a == 0 {
    } else {
        lemma_pow10_add((a - 1) as nat, b);
        assert(pow10(a + b) == 10 * pow10((a + b - 1) as nat));
        assert(10 * (pow10((a - 1) as nat) * pow10(b)) == (10 * pow10((a - 1) as nat)) * pow10(
            b,
        )) by (nonlinear_arith);
    }
}

/// One whole is `10^18` units.
pub proof fn lemma_scale_is_pow10()
    ensures
        SCALE as nat == pow10(18),
{
    reveal_with_fuel(pow10, 19);
}

/// `10^38` plus a fractional part still fits the unit carrier.
pub proof fn lemma_pow10_38_fits()
    ensures
        pow10(38) + pow10(18) <= u128::MAX,
{
    reveal_with_fuel(pow10, 39);
}

/// The wire form of an amount: an integer part of one to twenty
/// digits, optionally followed by a dot and one to eighteen
/// fractional digits.
pub open spec fn valid_decimal(s: Seq<u8>) -> bool {
    (1 <= s.len() <= 20 && all_digits(s)) || (exists|i: int|
        1 <= i < s.len() && i <= 20 && #[trigger] s[i] == 46 && all_digits(s.take(i))
            && all_digits(s.skip(i + 1)) && 1 <= s.len() - i - 1 <= 18)
}

/// The unit count a valid wire form denotes.
pub open spec fn decimal_val(s: Seq<u8>) -> nat {
    if all_digits(s) {
        digits_val(s) * (SCALE as nat)
    } else {
        let i = choose|i: int|
            1 <= i < s.len() && i <= 20 && #[trigger] s[i] == 46 && all_digits(s.take(i))
                && all_digits(s.skip(i + 1)) && 1 <= s.len() - i - 1 <= 18;
        digits_val(s.take(i)) * (SCALE as nat) + digits_val(s.skip(i + 1)) * pow10(
            (18 - (s.len() - i - 1)) as nat,
        )
    }
}

/// First dot in the byte string, if any.
fn find_dot(b: &[u8]) -> (r: Option<usize>)
    ensures
        (r matches Some(i) && i < b@.len() && b@[i as int] == 46 && forall|k: int|
            0 <= k < i ==> b@[k] != 46) || (r is None && forall|k: int|
            0 <= k < b@.len() ==> b@[k] != 46),
{
    let mut i: usize = 0;
    while i < b.len()
        invariant
            0 <= i <= b@.len(),
            forall|k: int| 0 <= k < i ==> b@[k] != 46,
        decreases b@.len() - i,
    {
        if b[i] == 46 {
            return Some(i);
        }
        i = i + 1;
    }
    None
}

/// Reads the digit substring `b[from..to]` as a number; `None` when it
/// is empty, longer than `cap`, or holds a non-digit.
fn digits_value(b: &[u8], from: usize, to: usize, cap: usize) -> (r: Option<u128>)
    requires
        from <= to <= b@.len(),
        cap <= 20,
    ensures
        ({
            let sub = b@.subrange(from as int, to as int);
            match r {
                Some(v) => all_digits(sub) && 1 <= sub.len() <= cap && v as nat == digits_val(sub)
                    && v < pow10(cap as nat),
                None => !(all_digits(sub) && 1 <= sub.len() <= cap),
            }
        }),
{
    let ghost sub = b@.subrange(from as int, to as int);
    if to == from || to - from > cap {
        return None;
    }
    let mut acc: u128 = 0;
    let mut j: usize = from;
    proof {
        assert(b@.subrange(from as int, from as int) =~= Seq::<u8>::empty());
    }
    while j < to
        invariant
            from <= j <= to <= b@.len(),
            to - from <= cap <= 20,
            sub == b@.subrange(from as int, to as int),
            all_digits(b@.subrange(from as int, j as int)),
            acc as nat == digits_val(b@.subrange(from as int, j as int)),
            acc < pow10((j - from) as nat),
        decreases to - j,
    {
        let d = b[j];
        if d < 48 || d > 57 {
            proof {
                assert(sub[j - from as int] == b@[j as int]);
                assert(!is_digit(sub[j - from as int]));
            }
            return None;
        }
        proof {
            let pre = b@.subrange(from as int, j as int);
            let nxt = b@.subrange(from as int, j as int + 1);
            assert(nxt.drop_last() =~= pre);
            assert(nxt.last() == b@[j as int]);
            assert(pow10(((j + 1) - from) as nat) == 10 * pow10((j - from) as nat));
            assert(acc * 10 + 9 < 10 * pow10((j - from) as nat)) by (nonlinear_arith)
                requires
                    acc < pow10((j - from) as nat),
            ;
            assert(10 * pow10((j - from) as nat) <= pow10(20)) by {
                if ((j + 1) - from) as nat <= 20 {
                    lemma_pow10_mono(((j + 1) - from) as nat, 20);
                }
            }
            lemma_pow10_20_fits();
        }
        acc = acc * 10 + ((d - 48) as u128);
        j = j + 1;
    }
    proof {
        assert(b@.subrange(from as int, j as int) =~= sub);
        lemma_pow10_mono((to - from) as nat, cap as nat);
    }
    Some(acc)
}

/// Powers of ten grow with the exponent.
pub proof fn lemma_pow10_mono(a: nat, b: nat)
    requires
        a <= b,
    ensures
        pow10(a) <= pow10(b),
    decreases b,
{
    if a < b {
        lemma_pow10_mono(a, (b - 1) as nat);
        assert(pow10(b) == 10 * pow10((b - 1) as nat));
    }
}

/// `10^20` fits the unit carrier.
pub proof fn lemma_pow10_20_fits()
    ensures
        pow10(20) <= u128::MAX,
{
    reveal_with_fuel(pow10, 21);
}

/// Ten to the `n`, executable.
fn pow10_exec(n: usize) -> (r: u128)
    requires
        n <= 18,
    ensures
        r as nat == pow10(n as nat),
{
    let mut acc: u128 = 1;
    let mut k: usize = 0;
    while k < n
        invariant
            0 <= k <= n <= 18,
            acc as nat == pow10(k as nat),
        decreases n - k,
    {
        proof {
            lemma_pow10_mono((k + 1) as nat, 18);
            lemma_scale_is_pow10();
        }
        acc = acc * 10;
        k = k + 1;
    }
    acc
}

/// Parses a wire decimal string into an amount: an integer part of up
/// to twenty digits, optionally a dot and up to eighteen fractional
/// digits.  Exactly the valid forms parse; everything else is `None`.
pub fn parse_amount(s: &str) -> (r: Option<Amount>)
    ensures
        ({
            let b = s.spec_bytes();
            match r {
                Some(a) => valid_decimal(b) && a.units as nat == decimal_val(b),
                None => !valid_decimal(b),
            }
        }),
{
    let b = s.as_bytes();
    let ghost bs = s.spec_bytes();
    match find_dot(b) {
        None => {
            match digits_value(b, 0, b.len(), 20) {
                Some(iv) => {
                    proof {
                        assert(b@.subrange(0, b@.len() as int) =~= bs);
                        lemma_scale_is_pow10();
                        lemma_pow10_add(20, 18);
                        lemma_pow10_38_fits();
                        assert(iv * (SCALE as nat) < pow10(20) * pow10(18)) by (nonlinear_arith)
                            requires
                                iv < pow10(20),
                                SCALE as nat == pow10(18),
                        ;
                    }
                    Some(Amount { units: iv * SCALE })
                },
                None => {
                    proof {
                        assert(b@.subrange(0, b@.len() as int) =~= bs);
                        assert forall|i: int|
                            1 <= i < bs.len() && i <= 20 implies #[trigger] bs[i] != 46 by {}
                    }
                    None
                },
            }
        },
        Some(p) => {
            let n = b.len();
            let ghost ip = bs.take(p as int);
            let ghost fp = bs.skip(p as int + 1);
            proof {
                assert(b@.subrange(0, p as int) =~= ip);
                assert(b@.subrange(p as int + 1, n as int) =~= fp);
                // the dot at p is the only admissible split point
                assert forall|i: int|
                    1 <= i < bs.len() && i <= 20 && #[trigger] bs[i] == 46 && all_digits(
                        bs.take(i),
                    ) && all_digits(bs.skip(i + 1)) && 1 <= bs.len() - i - 1 <= 18 implies i
                    == p by {
                    if i < p {
                        assert(bs[i] != 46);
                    }
                    if i > p {
                        assert(bs.take(i)[p as int] == bs[p as int]);
                        assert(!is_digit(bs.take(i)[p as int]));
                    }
                }
                assert(!all_digits(bs)) by {
                    assert(!is_digit(bs[p as int]));
                }
            }
            if p >= 1 && p <= 20 && n - p - 1 >= 1 && n - p - 1 <= 18 {
                match digits_value(b, 0, p, 20) {
                    Some(iv) => {
                        match digits_value(b, p + 1, n, 18) {
                            Some(fv) => {
                                let pad = pow10_exec(18 - (n - p - 1));
                                proof {
                                    lemma_scale_is_pow10();
                                    lemma_pow10_add(20, 18);
                                    lemma_pow10_38_fits();
                                    assert(iv * (SCALE as nat) <= (pow10(20) - 1) * pow10(
                                        18,
                                    )) by (nonlinear_arith)
                                        requires
                                            iv < pow10(20),
                                            SCALE as nat == pow10(18),
                                    ;
                                    assert((pow10(20) - 1) * pow10(18) == pow10(20) * pow10(18)
                                        - pow10(18)) by (nonlinear_arith);
                                    lemma_pow10_add((fp.len()) as nat, (18 - fp.len()) as nat);
                                    assert(fv as nat == digits_val(fp));
                                    lemma_digits_val_bound(fp);
                                    lemma_pow10_mono(0, (18 - fp.len()) as nat);
                                    assert(fv * (pad as nat) < pow10(fp.len() as nat) * pow10(
                                        (18 - fp.len()) as nat,
                                    )) by (nonlinear_arith)
                                        requires
                                            fv < pow10(fp.len() as nat),
                                            pad as nat == pow10((18 - fp.len()) as nat),
                                            pad > 0,
                                    ;
                                    // the chosen split point is p itself
                                    let i = choose|i: int|
                                        1 <= i < bs.len() && i <= 20 && #[trigger] bs[i] == 46
                                            && all_digits(bs.take(i)) && all_digits(bs.skip(i + 1))
                                            && 1 <= bs.len() - i - 1 <= 18;
                                    assert(bs[p as int] == 46 && all_digits(bs.take(p as int))
                                        && all_digits(bs.skip(p as int + 1)));
                                    assert(i == p);
                                }
                                Some(Amount { units: iv * SCALE + fv * pad })
                            },
                            None => {
                                proof {
                                    assert(!valid_decimal(bs)) by {
                                        assert forall|i: int|
                                            1 <= i < bs.len() && i <= 20 && #[trigger] bs[i] == 46
                                                && all_digits(bs.take(i)) && all_digits(
                                                bs.skip(i + 1),
                                            ) && 1 <= bs.len() - i - 1 <= 18 implies false by {
                                            assert(i == p);
                                        }
                                    }
                                }
                                None
                            },
                        }
                    },
                    None => {
                        proof {
                            assert(!valid_decimal(bs)) by {
                                assert forall|i: int|
                                    1 <= i < bs.len() && i <= 20 && #[trigger] bs[i] == 46
                                        && all_digits(bs.take(i)) && all_digits(bs.skip(i + 1)) && 1
                                        <= bs.len() - i - 1 <= 18 implies false by {
                                    assert(i == p);
                                }
                            }
                        }
                        None
                    },
                }
            } else {
                proof {
                    assert(!valid_decimal(bs)) by {
                        assert forall|i: int|
                            1 <= i < bs.len() && i <= 20 && #[trigger] bs[i] == 46 && all_digits(
                                bs.take(i),
                            ) && all_digits(bs.skip(i + 1)) && 1 <= bs.len() - i - 1 <= 18 implies
                            false by {
                            assert(i == p);
                        }
                    }
                }
                None
            }
        },
    }
}

} // verus!
