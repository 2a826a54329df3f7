//! Exact fixed-point decimal amounts.
//!
//! Every monetary value in this crate is a count of minor units, where one
//! currency unit is `UNIT_SCALE` minor units.  All arithmetic is integer
//! arithmetic on that count, so sums and comparisons are exact; divisions
//! truncate toward zero at the fourth decimal place.

use vstd::prelude::*;

use crate::text::{
    all_digits, append_pad2, append_pad4, append_uint, chars_of, find_char_from, find_from,
    lemma_find_from_first, lemma_find_from_skip, lemma_uint_str_val,
    lemma_uint_str_wf, lemma_uint_val_nonneg, lemma_uint_val_upper, lemma_pad_str_wf, pad2_str,
    pad4_str, parse_digits, uint_str, uint_val,
};

verus! {

/// Minor units per currency unit: amounts carry four decimal places.
pub const UNIT_SCALE: i128 = 10_000;

/// Largest magnitude, in minor units, that the amount grammar accepts:
/// ten billion currency units.  Keeping every stored amount within this
/// bound lets document-wide sums and percentage numerators stay inside
/// `i128` for any number of transactions.
pub const MAX_AMOUNT_UNITS: i128 = 100_000_000_000_000;

/// A signed exact decimal amount, stored as minor units (`UNIT_SCALE` per
/// currency unit).  The mathematical value of `m: Money` is `m@` minor units.
#[derive(Clone, Copy, Debug, PartialEq, Eq, Structural, Hash)]
pub struct Money {
    pub units: i128,
}

impl View for Money {
    type V = int;

    open spec fn view(&self) -> int {
        self.units as int
    }
}

/// Truncating division (toward zero), the rounding used by every report
/// average in this crate.
pub open spec fn spec_div_trunc(a: int, b: int) -> int {
    if a >= 0 {
        a / b
    } else {
        -((-a) / b)
    }
}

/// Quotient of two non-negative `i128` values.
fn div_nonneg(a: i128, b: i128) -> (r: i128)
    requires
        0 <= a,
        0 < b,
    ensures
        r == a as int / b as int,
{
    let q: u128 = (a as u128) / (b as u128);
    q as i128
}

/// Truncating division on `i128`.
fn div_trunc(a: i128, b: i128) -> (r: i128)
    requires
        0 < b,
        i128::MIN < a,
    ensures
        r == spec_div_trunc(a as int, b as int),
{
    if a >= 0 {
        div_nonneg(a, b)
    } else {
        let m = div_nonneg(-a, b);
        -m
    }
}

impl Money {
    /// The zero amount.
    pub fn zero() -> (r: Money)
        ensures
            r@ == 0,
    {
        Money { units: 0 }
    }

    /// An amount given directly in minor units (`UNIT_SCALE` per currency unit).
    pub fn from_minor_units(u: i64) -> (r: Money)
        ensures
            r@ == u as int,
    {
        Money { units: u as i128 }
    }

    /// An amount given in hundredths of a currency unit.
    pub fn from_cents(c: i64) -> (r: Money)
        ensures
            r@ == c as int * 100,
    {
        Money { units: (c as i128) * 100 }
    }

    /// An amount given in whole currency units.
    pub fn from_whole(n: i64) -> (r: Money)
        ensures
            r@ == n as int * UNIT_SCALE,
    {
        Money { units: (n as i128) * UNIT_SCALE }
    }

    /// Exact sum.
    pub fn add(&self, other: &Money) -> (r: Money)
        requires
            i128::MIN <= self@ + other@ <= i128::MAX,
        ensures
            r@ == self@ + other@,
    {
        Money { units: self.units + other.units }
    }

    /// Exact difference.
    pub fn sub(&self, other: &Money) -> (r: Money)
        requires
            i128::MIN <= self@ - other@ <= i128::MAX,
        ensures
            r@ == self@ - other@,
    {
        Money { units: self.units - other.units }
    }

    /// Exact negation.
    pub fn neg(&self) -> (r: Money)
        requires
            i128::MIN < self@,
        ensures
            r@ == -self@,
    {
        Money { units: -self.units }
    }

    /// Absolute value.
    pub fn abs(&self) -> (r: Money)
        requires
            i128::MIN < self@,
        ensures
            r@ == if self@ >= 0 { self@ } else { -self@ },
    {
        if self.units < 0 {
            Money { units: -self.units }
        } else {
            *self
        }
    }

    /// Exact product with a small integer factor.
    pub fn scaled_by(&self, k: i128) -> (r: Money)
        requires
            i128::MIN <= self@ * k <= i128::MAX,
        ensures
            r@ == self@ * k,
    {
        Money { units: self.units * k }
    }

    /// Mean denominator step: this amount divided by a positive count,
    /// truncating toward zero.
    pub fn divided_by(&self, n: usize) -> (r: Money)
        requires
            0 < n,
            i128::MIN < self@,
        ensures
            r@ == spec_div_trunc(self@, n as int),
    {
        Money { units: div_trunc(self.units, n as i128) }
    }

    /// This amount as a percentage of `total`, carried to four decimal
    /// places and truncated: `(self * 100 * UNIT_SCALE) / total` minor units.
    pub fn percent_of(&self, total: &Money) -> (r: Money)
        requires
            0 <= self@ <= total@,
            0 < total@,
            total@ * UNIT_SCALE <= i128::MAX,
        ensures
            r@ == (self@ * 100 * UNIT_SCALE) / total@,
    {
        let ghost t: int = total.units as int;
        let hundreds: i128 = self.units * 100;
        let q: i128 = div_nonneg(hundreds, total.units);
        proof {
            vstd::arithmetic::div_mod::lemma_fundamental_div_mod(hundreds as int, t);
            vstd::arithmetic::div_mod::lemma_mod_bound(hundreds as int, t);
            assert(0 <= q && q * t <= hundreds && q <= 100) by (nonlinear_arith)
                requires
                    (hundreds as int) == t * (q as int) + (hundreds as int) % t,
                    0 <= (hundreds as int) % t < t,
                    0 <= (hundreds as int) <= t * 100,
                    0 < t,
            ;
        }
        let rem: i128 = hundreds - q * total.units;
        let frac: i128 = div_nonneg(rem * UNIT_SCALE, total.units);
        proof {
            vstd::arithmetic::div_mod::lemma_fundamental_div_mod(rem as int * UNIT_SCALE, t);
            vstd::arithmetic::div_mod::lemma_mod_bound(rem as int * UNIT_SCALE, t);
            assert(0 <= frac < UNIT_SCALE) by (nonlinear_arith)
                requires
                    (rem as int) * UNIT_SCALE == t * (frac as int) + ((rem as int) * UNIT_SCALE) % t,
                    0 <= ((rem as int) * UNIT_SCALE) % t < t,
                    0 <= (rem as int) < t,
                    0 < t,
                    0 <= (frac as int),
            ;
        }
        let r: i128 = q * UNIT_SCALE + frac;
        proof {
            lemma_split_div(hundreds as int, t, UNIT_SCALE as int);
            assert(hundreds * UNIT_SCALE == self@ * 100 * UNIT_SCALE) by (nonlinear_arith)
                requires
                    hundreds == self@ * 100,
            ;
        }
        Money { units: r }
    }

    /// True when the amount is strictly negative.
    pub fn is_negative(&self) -> (r: bool)
        ensures
            r == (self@ < 0),
    {
        self.units < 0
    }

    /// True when the amount is zero.
    pub fn is_zero(&self) -> (r: bool)
        ensures
            r == (self@ == 0),
    {
        self.units == 0
    }

    /// Strict comparison.
    pub fn lt(&self, other: &Money) -> (r: bool)
        ensures
            r == (self@ < other@),
    {
        self.units < other.units
    }

    /// Non-strict comparison.
    pub fn le(&self, other: &Money) -> (r: bool)
        ensures
            r == (self@ <= other@),
    {
        self.units <= other.units
    }

    /// Strict comparison.
    pub fn gt(&self, other: &Money) -> (r: bool)
        ensures
            r == (self@ > other@),
    {
        self.units > other.units
    }
}

/// Scale factor for a fraction field of the given length: the digit run is
/// worth `uint_val * frac_scale(len)` minor units.
pub open spec fn frac_scale(len: int) -> int {
    if len == 1 {
        1000
    } else if len == 2 {
        100
    } else if len == 3 {
        10
    } else {
        1
    }
}

/// The unsigned amount grammar: a non-empty digit run, optionally followed
/// by a dot and one to four fraction digits, denoting at most
/// `MAX_AMOUNT_UNITS` minor units.
pub open spec fn parse_mag_chars(s: Seq<char>) -> Option<int> {
    let di = find_from(s, '.', 0);
    if di == -1 {
        if s.len() >= 1 && all_digits(s) && uint_val(s) * UNIT_SCALE <= MAX_AMOUNT_UNITS {
            Some(uint_val(s) * UNIT_SCALE)
        } else {
            None
        }
    } else {
        let ip = s.take(di);
        let fp = s.skip(di + 1);
        if di >= 1 && all_digits(ip) && 1 <= fp.len() <= 4 && all_digits(fp) && uint_val(ip)
            * UNIT_SCALE + uint_val(fp) * frac_scale(fp.len() as int) <= MAX_AMOUNT_UNITS {
            Some(uint_val(ip) * UNIT_SCALE + uint_val(fp) * frac_scale(fp.len() as int))
        } else {
            None
        }
    }
}

/// The signed amount grammar: an optional sign before the unsigned form.
pub open spec fn parse_amount_chars(s: Seq<char>) -> Option<int> {
    if s.len() == 0 {
        None
    } else if s[0] == '-' {
        match parse_mag_chars(s.skip(1)) {
            Some(m) => Some(-m),
            None => None,
        }
    } else if s[0] == '+' {
        parse_mag_chars(s.skip(1))
    } else {
        parse_mag_chars(s)
    }
}

/// The canonical text of a non-negative amount: whole units, a dot, and
/// two fraction digits, or four when the amount needs them.
pub open spec fn mag_str(m: int) -> Seq<char> {
    let whole = m / (UNIT_SCALE as int);
    let frac = m % (UNIT_SCALE as int);
    if frac % 100 == 0 {
        uint_str(whole as nat) + seq!['.'] + pad2_str((frac / 100) as nat)
    } else {
        uint_str(whole as nat) + seq!['.'] + pad4_str(frac as nat)
    }
}

/// The canonical text of an amount: a minus sign before the magnitude for
/// negative amounts.
pub open spec fn amount_str(v: int) -> Seq<char> {
    if v < 0 {
        seq!['-'] + mag_str(-v)
    } else {
        mag_str(v)
    }
}

impl Money {
    /// Read an amount field.  Succeeds exactly on the signed amount grammar,
    /// yielding its value.
    pub fn parse(s: &str) -> (r: Option<Money>)
        ensures
            match r {
                Some(m) => parse_amount_chars(s@) == Some(m@) && -MAX_AMOUNT_UNITS <= m@
                    <= MAX_AMOUNT_UNITS,
                None => parse_amount_chars(s@) is None,
            },
    {
        let v = chars_of(s);
        let n: usize = v.len();
        if n == 0 {
            return None;
        }
        let c0 = v[0];
        let neg: bool = c0 == '-';
        let start: usize = if c0 == '-' || c0 == '+' {
            1
        } else {
            0
        };
        proof {
            if start == 0 {
                assert(v@.skip(0) =~= v@);
            }
        }
        let m = match parse_mag(&v, start) {
            Some(m) => m,
            None => {
                return None;
            },
        };
        if neg {
            Some(Money { units: -m })
        } else {
            Some(Money { units: m })
        }
    }

    /// Write the canonical text of this amount.
    pub fn to_amount_string(&self) -> (r: String)
        requires
            -MAX_AMOUNT_UNITS <= self@ <= MAX_AMOUNT_UNITS,
        ensures
            r@ == amount_str(self@),
    {
        let mut out = String::new();
        if self.units < 0 {
            out.append("-");
            append_mag(&mut out, (-self.units) as u128);
            proof {
                reveal_strlit("-");
                assert(out@ =~= amount_str(self@));
            }
        } else {
            append_mag(&mut out, self.units as u128);
            proof {
                assert(out@ =~= amount_str(self@));
            }
        }
        out
    }
}

/// Append the canonical magnitude text of `m` minor units.
fn append_mag(out: &mut String, m: u128)
    requires
        m <= MAX_AMOUNT_UNITS as u128,
    ensures
        final(out)@ == old(out)@ + mag_str(m as int),
{
    let whole: u128 = m / (UNIT_SCALE as u128);
    let frac: u128 = m % (UNIT_SCALE as u128);
    append_uint(out, whole);
    out.append(".");
    proof {
        reveal_strlit(".");
    }
    if frac % 100 == 0 {
        append_pad2(out, frac / 100);
        proof {
            assert(final(out)@ =~= old(out)@ + mag_str(m as int));
        }
    } else {
        append_pad4(out, frac);
        proof {
            assert(final(out)@ =~= old(out)@ + mag_str(m as int));
        }
    }
}

/// Read the unsigned amount grammar from `v[start..]`.
fn parse_mag(v: &Vec<char>, start: usize) -> (r: Option<i128>)
    requires
        start <= v@.len(),
    ensures
        ({
            let s = v@.skip(start as int);
            match r {
                Some(m) => parse_mag_chars(s) == Some(m as int) && 0 <= m <= MAX_AMOUNT_UNITS,
                None => parse_mag_chars(s) is None,
            }
        }),
{
    let ghost s = v@.skip(start as int);
    let n: usize = v.len();
    let dot = find_char_from(v, '.', start);
    proof {
        lemma_find_from_skip(v@, '.', start as int, 0);
        crate::text::lemma_find_from_range(s, '.', 0);
    }
    match dot {
        None => {
            let x = match parse_digits(v, start, n, 10_000_000_000) {
                Some(x) => x,
                None => {
                    proof {
                        assert(s =~= v@.subrange(start as int, n as int));
                        if all_digits(s) && s.len() >= 1 {
                            lemma_uint_val_nonneg(s);
                        }
                    }
                    return None;
                },
            };
            proof {
                assert(s =~= v@.subrange(start as int, n as int));
                assert(s.len() >= 1);
                assert(all_digits(s));
                assert(uint_val(s) == x as int);
                assert(find_from(s, '.', 0) == -1);
                assert(uint_val(s) * UNIT_SCALE <= MAX_AMOUNT_UNITS);
            }
            Some(x * UNIT_SCALE)
        },
        Some(di) => {
            proof {
                assert(find_from(s, '.', 0) == di - start);
            }
            if di == start {
                return None;
            }
            let flen: usize = n - (di + 1);
            if flen < 1 || flen > 4 {
                return None;
            }
            let ghost ip = s.take(di - start);
            let ghost fp = s.skip(di - start + 1);
            proof {
                assert(ip =~= v@.subrange(start as int, di as int));
                assert(fp =~= v@.subrange(di + 1, n as int));
            }
            let ipv = match parse_digits(v, start, di, 10_000_000_000) {
                Some(x) => x,
                None => {
                    proof {
                        if all_digits(ip) {
                            lemma_uint_val_nonneg(fp);
                        }
                    }
                    return None;
                },
            };
            let fpv = match parse_digits(v, di + 1, n, 9999) {
                Some(x) => x,
                None => {
                    proof {
                        if all_digits(fp) {
                            lemma_uint_val_upper(fp);
                            crate::text::lemma_ten_pow_vals();
                        }
                    }
                    return None;
                },
            };
            proof {
                lemma_uint_val_upper(fp);
                crate::text::lemma_ten_pow_vals();
            }
            let scale: i128 = if flen == 1 {
                1000
            } else if flen == 2 {
                100
            } else if flen == 3 {
                10
            } else {
                1
            };
            let value: i128 = ipv * UNIT_SCALE + fpv * scale;
            if value > MAX_AMOUNT_UNITS {
                None
            } else {
                Some(value)
            }
        },
    }
}

/// Reading back the canonical text of an amount yields the amount itself.
pub proof fn lemma_amount_roundtrip(v: int)
    requires
        -MAX_AMOUNT_UNITS <= v <= MAX_AMOUNT_UNITS,
    ensures
        parse_amount_chars(amount_str(v)) == Some(v),
{
    if v < 0 {
        lemma_mag_roundtrip(-v);
        let s = seq!['-'] + mag_str(-v);
        assert(s[0] == '-');
        assert(s.skip(1) =~= mag_str(-v));
        assert(s.len() > 0);
    } else {
        lemma_mag_roundtrip(v);
        let s = mag_str(v);
        lemma_mag_head_digit(v);
        assert(parse_amount_chars(s) == parse_mag_chars(s));
    }
}

/// The canonical magnitude text starts with a digit.
proof fn lemma_mag_head_digit(m: int)
    requires
        0 <= m,
    ensures
        mag_str(m).len() > 0,
        crate::text::is_digit_char(mag_str(m)[0]),
{
    let whole = (m / (UNIT_SCALE as int)) as nat;
    lemma_uint_str_wf(whole);
    assert(mag_str(m)[0] == uint_str(whole)[0]);
}

/// Reading back the canonical magnitude text yields the magnitude.
proof fn lemma_mag_roundtrip(m: int)
    requires
        0 <= m <= MAX_AMOUNT_UNITS,
    ensures
        parse_mag_chars(mag_str(m)) == Some(m),
{
    let whole = (m / (UNIT_SCALE as int)) as nat;
    let frac = m % (UNIT_SCALE as int);
    vstd::arithmetic::div_mod::lemma_fundamental_div_mod(m, UNIT_SCALE as int);
    vstd::arithmetic::div_mod::lemma_mod_bound(m, UNIT_SCALE as int);
    lemma_uint_str_wf(whole);
    lemma_uint_str_val(whole);
    let w = uint_str(whole);
    let f = if frac % 100 == 0 {
        pad2_str((frac / 100) as nat)
    } else {
        pad4_str(frac as nat)
    };
    let s = w + seq!['.'] + f;
    assert(mag_str(m) == s);
    lemma_pad_str_wf((frac / 100) as nat);
    lemma_pad_str_wf(frac as nat);
    vstd::arithmetic::div_mod::lemma_fundamental_div_mod(frac, 100);
    vstd::arithmetic::div_mod::lemma_mod_bound(frac, 100);
    let di = w.len() as int;
    assert(s[di] == '.');
    assert(forall|t: int| 0 <= t < di ==> s[t] == w[t] && s[t] != '.');
    lemma_find_from_first(s, '.', di, 0);
    assert(s.take(di) =~= w);
    assert(s.skip(di + 1) =~= f);
    assert(1 <= f.len() <= 4);
    if frac % 100 == 0 {
        assert(uint_val(f) * frac_scale(f.len() as int) == frac);
    } else {
        assert(uint_val(f) * frac_scale(f.len() as int) == frac);
    }
    assert(uint_val(w) * UNIT_SCALE + uint_val(f) * frac_scale(f.len() as int) == m);
}

/// For `a = q*b + rem` with `0 <= rem < b`, hoisting the scale factor `s`
/// over the division: `(a*s)/b == q*s + (rem*s)/b`.
proof fn lemma_split_div(a: int, b: int, s: int)
    requires
        0 <= a,
        0 < b,
        0 < s,
    ensures
        (a * s) / b == (a / b) * s + ((a % b) * s) / b,
{
    let q = a / b;
    let rem = a % b;
    vstd::arithmetic::div_mod::lemma_fundamental_div_mod(a, b);
    assert(a * s == rem * s + (q * s) * b) by (nonlinear_arith)
        requires
            a == b * q + rem,
    ;
    vstd::arithmetic::div_mod::lemma_hoist_over_denominator(rem * s, q * s, b as nat);
}

} // verus!
