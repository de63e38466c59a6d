//! Binary floating point in 64 bits (IEEE 754 binary64), by exact arithmetic.
//!
//! Every operation is defined as the double nearest to the exact result, ties
//! to the even significand, so what is computed does not depend on a machine.

use vstd::prelude::*;

use crate::natural;
use crate::natural::Natural;
use crate::text;

verus! {

/// A binary64 number.
#[derive(Clone, Copy, Debug, PartialEq, Eq, Structural)]
pub enum Double {
    /// `mant * 2^exp`, negated where `neg` holds. Zero has a sign too.
    Finite { neg: bool, mant: u64, exp: i32 },
    Infinite { neg: bool },
    NotANumber,
}

// ---------------------------------------------------------------------------
// Rounding
// ---------------------------------------------------------------------------

/// The integer nearest to `p / q`, ties to even.
pub open spec fn half_even(p: nat, q: nat) -> nat {
    let d = p / q;
    let r = p % q;
    if 2 * r < q || (2 * r == q && d % 2 == 0) {
        d
    } else {
        d + 1
    }
}

/// The least `k` with `p < q * 2^(53 + k)`.
pub open spec fn shift_for(p: nat, q: nat) -> nat
    decreases p - q,
{
    if q == 0 || p < q * 0x20_0000_0000_0000 {
        0
    } else {
        1 + shift_for(p, 2 * q)
    }
}

/// The double nearest to `p / q`, negated where `neg` holds.
///
/// The spacing of doubles near `p / q` is `2^(k - 1074)`: the least one, from
/// `2^-1074` on, at which the significand stays below `2^53`.
#[verifier::opaque]
pub open spec fn nearest(neg: bool, p: nat, q: nat) -> Double {
    let scaled = p * natural::pow2(1074);
    let k = shift_for(scaled, q);
    let m = half_even(scaled, q * natural::pow2(k));
    let (mant, shift) = if m == 0x20_0000_0000_0000 {
        (0x10_0000_0000_0000nat, k + 1)
    } else {
        (m, k)
    };
    if shift > 2045 {
        Double::Infinite { neg }
    } else {
        Double::Finite { neg, mant: mant as u64, exp: (shift - 1074) as i32 }
    }
}

/// The double nearest to `m * 2^e`.
pub open spec fn nearest_scaled(neg: bool, m: nat, e: int) -> Double {
    if e >= 0 {
        nearest(neg, m * natural::pow2(e as nat), 1)
    } else {
        nearest(neg, m, natural::pow2((-e) as nat))
    }
}

/// The double nearest to `m * 10^e`.
pub open spec fn nearest_decimal(neg: bool, m: nat, e: int) -> Double {
    if e >= 0 {
        nearest(neg, m * natural::pow10(e as nat), 1)
    } else {
        nearest(neg, m, natural::pow10((-e) as nat))
    }
}

pub open spec fn zero(neg: bool) -> Double {
    Double::Finite { neg, mant: 0, exp: -1074i32 }
}

/// Every fraction that is not too large has a significand of at most `2^53`
/// at its spacing, and one of at least `2^52` unless the spacing is the least.
proof fn lemma_shift_for(p: nat, q: nat)
    requires
        q > 0,
    ensures
        p < (q * natural::pow2(shift_for(p, q))) * 0x20_0000_0000_0000,
        shift_for(p, q) > 0 ==> p >= (q * natural::pow2(shift_for(p, q))) * 0x10_0000_0000_0000,
    decreases p - q,
{
    assert(q * 1 == q) by (nonlinear_arith);
    if p >= q * 0x20_0000_0000_0000 {
        lemma_shift_for(p, 2 * q);
        let j = shift_for(p, 2 * q);
        assert((2 * q) * natural::pow2(j) == q * natural::pow2(j + 1)) by (nonlinear_arith)
            requires
                natural::pow2(j + 1) == 2 * natural::pow2(j),
        ;
        if j == 0 {
            assert((2 * q) * 1 == 2 * q) by (nonlinear_arith);
        }
    }
}

proof fn lemma_half_even_bounds(p: nat, q: nat, lo: nat, hi: nat)
    requires
        q > 0,
        q * lo <= p,
        p < q * hi,
    ensures
        lo <= half_even(p, q) <= hi,
{
    vstd::arithmetic::div_mod::lemma_fundamental_div_mod(p as int, q as int);
    let d = p / q;
    assert(lo <= d < hi) by (nonlinear_arith)
        requires
            q > 0,
            q * lo <= p,
            p < q * hi,
            p == q * d + p % q,
            0 <= p % q < q,
    ;
}

impl Double {
    /// What every double satisfies: significands stay below `2^53`, and each
    /// value has one form only.
    pub open spec fn wf(self) -> bool {
        match self {
            Double::Finite { neg, mant, exp } => {
                &&& mant < 0x20_0000_0000_0000
                &&& -1074 <= exp <= 971
                &&& exp > -1074 ==> mant >= 0x10_0000_0000_0000
            },
            _ => true,
        }
    }

    pub open spec fn negated(self) -> Double {
        match self {
            Double::Finite { neg, mant, exp } => Double::Finite { neg: !neg, mant, exp },
            Double::Infinite { neg } => Double::Infinite { neg: !neg },
            Double::NotANumber => Double::NotANumber,
        }
    }
}

/// Rounding always gives a well-formed double.
pub proof fn lemma_nearest_wf(neg: bool, p: nat, q: nat)
    requires
        q > 0,
    ensures
        nearest(neg, p, q).wf(),
{
    reveal(nearest);
    let scaled = p * natural::pow2(1074);
    let k = shift_for(scaled, q);
    let d = q * natural::pow2(k);
    lemma_shift_for(scaled, q);
    natural::lemma_pow2_pos(k);
    assert(d > 0) by (nonlinear_arith)
        requires
            d == q * natural::pow2(k),
            q > 0,
            natural::pow2(k) > 0,
    ;
    if k > 0 {
        lemma_half_even_bounds(scaled, d, 0x10_0000_0000_0000, 0x20_0000_0000_0000);
    } else {
        lemma_half_even_bounds(scaled, d, 0, 0x20_0000_0000_0000);
    }
}

/// The integer nearest to `num / den`, ties to even, for a quotient below two
/// to the power `bits`.
pub fn divide_even(num: Natural, den: &Natural, bits: u32) -> (r: u128)
    requires
        den@ > 0,
        bits <= 127,
        num@ < den@ * natural::pow2(bits as nat),
    ensures
        r == half_even(num@, den@),
        r <= natural::pow2(bits as nat),
{
    let ghost n = num@;
    let (quot, rest) = num.div_rem(den, bits);
    let mut twice = rest;
    twice.double();
    proof {
        natural::lemma_quotient_bound(n, den@, bits as nat);
        natural::lemma_pow2_grows(bits as nat, 127);
        natural::lemma_pow2_127();
    }
    if den.less(&twice) || (!twice.less(den) && quot % 2 == 1) {
        quot + 1
    } else {
        quot
    }
}

/// Rounds `p / q`.
fn round(neg: bool, p: Natural, q: &Natural) -> (r: Double)
    requires
        q@ > 0,
    ensures
        r == nearest(neg, p@, q@),
        r.wf(),
{
    proof {
        reveal(nearest);
    }
    let ghost v = q@;
    let ghost scaled = p@ * natural::pow2(1074);
    proof {
        lemma_nearest_wf(neg, p@, q@);
        lemma_pow2_53();
    }
    let mut num = p;
    num.shift_left(1074);
    let mut den = q.copy();
    let mut wide = q.copy();
    wide.shift_left(53);
    let mut k: u32 = 0;
    assert(v * 1 == v) by (nonlinear_arith);
    while !num.less(&wide)
        invariant
            v > 0,
            k <= 2046,
            num@ == scaled,
            den@ == v * natural::pow2(k as nat),
            den@ > 0,
            wide@ == den@ * 0x20_0000_0000_0000,
            shift_for(scaled, v) == k + shift_for(scaled, den@),
            nearest(neg, p@, q@).wf(),
            scaled == p@ * natural::pow2(1074),
            v == q@,
        decreases 2046 - k,
    {
        if k == 2046 {
            proof {
                reveal(nearest);
            }
            return Double::Infinite { neg };
        }
        den.double();
        wide.double();
        k += 1;
        assert(2 * (v * natural::pow2((k - 1) as nat)) == v * (2 * natural::pow2((k - 1) as nat)))
            by (nonlinear_arith);
    }
    let m = divide_even(num, &den, 53) as u64;
    let (mant, shift) = if m == 0x20_0000_0000_0000 {
        (0x10_0000_0000_0000u64, k + 1)
    } else {
        (m, k)
    };
    if shift > 2045 {
        Double::Infinite { neg }
    } else {
        Double::Finite { neg, mant, exp: shift as i32 - 1074 }
    }
}

proof fn lemma_pow2_53()
    ensures
        natural::pow2(53) == 0x20_0000_0000_0000,
{
    reveal_with_fuel(natural::pow2, 54);
}

/// Rounds `m * 2^e`.
fn round_scaled(neg: bool, m: Natural, e: i64) -> (r: Double)
    requires
        e > i64::MIN,
    ensures
        r == nearest_scaled(neg, m@, e as int),
        r.wf(),
{
    if e >= 0 {
        let mut p = m;
        p.shift_left(e as u64);
        round(neg, p, &Natural::from_u128(1))
    } else {
        let mut q = Natural::from_u128(1);
        q.shift_left((-e) as u64);
        proof {
            natural::lemma_pow2_pos((-e) as nat);
            assert(1 * natural::pow2((-e) as nat) == natural::pow2((-e) as nat))
                by (nonlinear_arith);
        }
        round(neg, m, &q)
    }
}

// ---------------------------------------------------------------------------
// Arithmetic
// ---------------------------------------------------------------------------

/// `a * b`.
pub open spec fn product(a: Double, b: Double) -> Double {
    match (a, b) {
        (
            Double::Finite { neg: s, mant: m, exp: e },
            Double::Finite { neg: t, mant: n, exp: f },
        ) => nearest_scaled(s != t, m as nat * n as nat, e + f),
        (Double::Infinite { neg: s }, Double::Infinite { neg: t }) => Double::Infinite {
            neg: s != t,
        },
        (Double::Infinite { neg: s }, Double::Finite { neg: t, mant: n, .. }) => if n == 0 {
            Double::NotANumber
        } else {
            Double::Infinite { neg: s != t }
        },
        (Double::Finite { neg: s, mant: m, .. }, Double::Infinite { neg: t }) => if m == 0 {
            Double::NotANumber
        } else {
            Double::Infinite { neg: s != t }
        },
        _ => Double::NotANumber,
    }
}

/// The double nearest to `m / n * 2^e`.
pub open spec fn nearest_ratio(neg: bool, m: nat, n: nat, e: int) -> Double {
    if e >= 0 {
        nearest(neg, m * natural::pow2(e as nat), n)
    } else {
        nearest(neg, m, n * natural::pow2((-e) as nat))
    }
}

/// `a / b`.
pub open spec fn quotient(a: Double, b: Double) -> Double {
    match (a, b) {
        (
            Double::Finite { neg: s, mant: m, exp: e },
            Double::Finite { neg: t, mant: n, exp: f },
        ) => if n > 0 {
            nearest_ratio(s != t, m as nat, n as nat, e - f)
        } else if m > 0 {
            Double::Infinite { neg: s != t }
        } else {
            Double::NotANumber
        },
        (Double::Infinite { neg: s }, Double::Finite { neg: t, .. }) => Double::Infinite {
            neg: s != t,
        },
        (Double::Finite { neg: s, .. }, Double::Infinite { neg: t }) => zero(s != t),
        _ => Double::NotANumber,
    }
}

pub open spec fn signed(neg: bool, n: nat) -> int {
    if neg {
        -(n as int)
    } else {
        n as int
    }
}

pub open spec fn smaller(e: int, f: int) -> int {
    if e <= f {
        e
    } else {
        f
    }
}

/// The exact sum of two finite doubles, in units of `2^smaller(e, f)`.
pub open spec fn aligned_sum(s: bool, m: nat, e: int, t: bool, n: nat, f: int) -> int {
    let g = smaller(e, f);
    signed(s, m * natural::pow2((e - g) as nat)) + signed(t, n * natural::pow2((f - g) as nat))
}

/// `a + b`.
pub open spec fn sum(a: Double, b: Double) -> Double {
    match (a, b) {
        (
            Double::Finite { neg: s, mant: m, exp: e },
            Double::Finite { neg: t, mant: n, exp: f },
        ) => {
            let x = aligned_sum(s, m as nat, e as int, t, n as nat, f as int);
            if x == 0 {
                zero(s && t)
            } else if x < 0 {
                nearest_scaled(true, (-x) as nat, smaller(e as int, f as int))
            } else {
                nearest_scaled(false, x as nat, smaller(e as int, f as int))
            }
        },
        (Double::Infinite { neg: s }, Double::Infinite { neg: t }) => if s == t {
            a
        } else {
            Double::NotANumber
        },
        (Double::Infinite { .. }, Double::Finite { .. }) => a,
        (Double::Finite { .. }, Double::Infinite { .. }) => b,
        _ => Double::NotANumber,
    }
}

impl Double {
    /// The double nearest to `n`.
    pub fn from_u64(n: u64) -> (r: Double)
        ensures
            r == nearest(false, n as nat, 1),
            r.wf(),
    {
        round(false, Natural::from_u128(n as u128), &Natural::from_u128(1))
    }

    pub fn neg(self) -> (r: Double)
        ensures
            r == self.negated(),
            self.wf() ==> r.wf(),
    {
        match self {
            Double::Finite { neg, mant, exp } => Double::Finite { neg: !neg, mant, exp },
            Double::Infinite { neg } => Double::Infinite { neg: !neg },
            Double::NotANumber => Double::NotANumber,
        }
    }

    pub fn times(self, other: Double) -> (r: Double)
        ensures
            r == product(self, other),
            r.wf(),
    {
        match (self, other) {
            (
                Double::Finite { neg: s, mant: m, exp: e },
                Double::Finite { neg: t, mant: n, exp: f },
            ) => {
                assert(0 <= m * n <= 0xffff_ffff_ffff_ffff * 0xffff_ffff_ffff_ffff)
                    by (nonlinear_arith)
                    requires
                        m <= 0xffff_ffff_ffff_ffff,
                        n <= 0xffff_ffff_ffff_ffff,
                ;
                let p = Natural::from_u128(m as u128 * n as u128);
                round_scaled(s != t, p, e as i64 + f as i64)
            },
            (Double::Infinite { neg: s }, Double::Infinite { neg: t }) => Double::Infinite {
                neg: s != t,
            },
            (Double::Infinite { neg: s }, Double::Finite { neg: t, mant: n, .. }) => if n == 0 {
                Double::NotANumber
            } else {
                Double::Infinite { neg: s != t }
            },
            (Double::Finite { neg: s, mant: m, .. }, Double::Infinite { neg: t }) => if m == 0 {
                Double::NotANumber
            } else {
                Double::Infinite { neg: s != t }
            },
            _ => Double::NotANumber,
        }
    }

    pub fn over(self, other: Double) -> (r: Double)
        ensures
            r == quotient(self, other),
            r.wf(),
    {
        match (self, other) {
            (
                Double::Finite { neg: s, mant: m, exp: e },
                Double::Finite { neg: t, mant: n, exp: f },
            ) => {
                if n > 0 {
                    let g: i64 = e as i64 - f as i64;
                    let mut p = Natural::from_u128(m as u128);
                    let mut q = Natural::from_u128(n as u128);
                    if g >= 0 {
                        p.shift_left(g as u64);
                    } else {
                        q.shift_left((-g) as u64);
                        proof {
                            natural::lemma_pow2_pos((-g) as nat);
                            assert(n * natural::pow2((-g) as nat) > 0) by (nonlinear_arith)
                                requires
                                    n > 0,
                                    natural::pow2((-g) as nat) > 0,
                            ;
                        }
                    }
                    round(s != t, p, &q)
                } else if m > 0 {
                    Double::Infinite { neg: s != t }
                } else {
                    Double::NotANumber
                }
            },
            (Double::Infinite { neg: s }, Double::Finite { neg: t, .. }) => Double::Infinite {
                neg: s != t,
            },
            (Double::Finite { neg: s, .. }, Double::Infinite { neg: t }) => Double::Finite {
                neg: s != t,
                mant: 0,
                exp: -1074,
            },
            _ => Double::NotANumber,
        }
    }

    pub fn plus(self, other: Double) -> (r: Double)
        requires
            self.wf(),
            other.wf(),
        ensures
            r == sum(self, other),
            r.wf(),
    {
        match (self, other) {
            (
                Double::Finite { neg: s, mant: m, exp: e },
                Double::Finite { neg: t, mant: n, exp: f },
            ) => {
                let g: i32 = if e <= f {
                    e
                } else {
                    f
                };
                let mut x = Natural::from_u128(m as u128);
                x.shift_left((e - g) as u64);
                let mut y = Natural::from_u128(n as u128);
                y.shift_left((f - g) as u64);
                if s == t {
                    let z = x.plus(&y);
                    if z.is_zero() {
                        return Double::Finite { neg: s, mant: 0, exp: -1074 };
                    }
                    round_scaled(s, z, g as i64)
                } else if x.less(&y) {
                    round_scaled(t, y.minus(&x), g as i64)
                } else {
                    let z = x.minus(&y);
                    if z.is_zero() {
                        return Double::Finite { neg: false, mant: 0, exp: -1074 };
                    }
                    round_scaled(s, z, g as i64)
                }
            },
            (Double::Infinite { neg: s }, Double::Infinite { neg: t }) => if s == t {
                self
            } else {
                Double::NotANumber
            },
            (Double::Infinite { .. }, Double::Finite { .. }) => self,
            (Double::Finite { .. }, Double::Infinite { .. }) => other,
            _ => Double::NotANumber,
        }
    }
}

// ---------------------------------------------------------------------------
// Decimal text
// ---------------------------------------------------------------------------

/// `c` with ASCII capitals made small.
pub open spec fn fold_case(c: char) -> char {
    if 'A' <= c <= 'Z' {
        (c as u32 + 32) as char
    } else {
        c
    }
}

/// Whether `s` spells `word`, in capitals or not.
pub open spec fn spells(s: Seq<char>, word: Seq<char>) -> bool {
    s.len() == word.len() && forall|i: int| 0 <= i < s.len() ==> fold_case(#[trigger] s[i]) == word[i]
}

/// A decimal exponent: an optional sign, then one digit or more.
pub open spec fn exponent(s: Seq<char>) -> Option<int> {
    let t = if s.len() > 0 && (s[0] == '-' || s[0] == '+') {
        s.skip(1)
    } else {
        s
    };
    if t.len() > 0 && text::all_digits(t) {
        Some(signed(s[0] == '-', text::digits_value(t)))
    } else {
        None
    }
}

/// Where the exponent mark stands in `s`, or the length of `s`.
pub open spec fn exponent_mark(s: Seq<char>) -> int {
    smaller(text::find(s, 'e'), text::find(s, 'E'))
}

/// A decimal number without sign: digits with at most one point among them,
/// then an optional exponent. The pair `(m, e)` stands for `m * 10^e`.
pub open spec fn number(s: Seq<char>) -> Option<(nat, int)> {
    let mark = exponent_mark(s);
    let mantissa = s.take(mark);
    let point = text::find(mantissa, '.');
    let whole = mantissa.take(point);
    let fraction = if point < mantissa.len() {
        mantissa.skip(point + 1)
    } else {
        Seq::empty()
    };
    let power = if mark < s.len() {
        exponent(s.skip(mark + 1))
    } else {
        Some(0)
    };
    if power is Some && text::all_digits(whole) && text::all_digits(fraction) && whole.len()
        + fraction.len() > 0 {
        Some((text::digits_value(whole + fraction), power->0 - fraction.len()))
    } else {
        None
    }
}

/// The double that a text denotes: an optional sign, then a decimal number,
/// `inf`, `infinity` or `nan`.
pub open spec fn parse_double(s: Seq<char>) -> Option<Double> {
    let neg = s.len() > 0 && s[0] == '-';
    let t = if s.len() > 0 && (s[0] == '-' || s[0] == '+') {
        s.skip(1)
    } else {
        s
    };
    match number(t) {
        Some((m, e)) => Some(nearest_decimal(neg, m, e)),
        None => if spells(t, seq!['i', 'n', 'f']) || spells(
            t,
            seq!['i', 'n', 'f', 'i', 'n', 'i', 't', 'y'],
        ) {
            Some(Double::Infinite { neg })
        } else if spells(t, seq!['n', 'a', 'n']) {
            Some(Double::NotANumber)
        } else {
            None
        },
    }
}

fn fold(c: char) -> (r: char)
    ensures
        r == fold_case(c),
{
    if 'A' <= c && c <= 'Z' {
        let k: u8 = c as u8 + 32;
        k as char
    } else {
        c
    }
}

fn spelled(v: &[char], word: &[char]) -> (b: bool)
    ensures
        b == spells(v@, word@),
{
    if v.len() != word.len() {
        return false;
    }
    for i in 0..v.len()
        invariant
            v@.len() == word@.len(),
            forall|j: int| 0 <= j < i ==> fold_case(#[trigger] v@[j]) == word@[j],
    {
        if fold(v[i]) != word[i] {
            return false;
        }
    }
    true
}

fn only_digits(v: &[char]) -> (b: bool)
    ensures
        b == text::all_digits(v@),
{
    for i in 0..v.len()
        invariant
            forall|j: int| 0 <= j < i ==> text::is_digit(#[trigger] v@[j]),
    {
        if text::digit(v[i]).is_none() {
            return false;
        }
    }
    true
}

/// Beyond this, an exponent no longer matters.
const FAR: u128 = 0x10_0000_0000_0000_0000_0000_0000;

/// The number that digits denote, or `FAR` where it is larger.
fn capped_value(v: &[char]) -> (n: u128)
    requires
        text::all_digits(v@),
    ensures
        n <= FAR,
        n < FAR ==> n == text::digits_value(v@),
        n == FAR ==> text::digits_value(v@) >= FAR,
{
    let mut n: u128 = 0;
    for i in 0..v.len()
        invariant
            text::all_digits(v@),
            n <= FAR,
            n < FAR ==> n == text::digits_value(v@.take(i as int)),
            n == FAR ==> text::digits_value(v@.take(i as int)) >= FAR,
    {
        assert(text::is_digit(v@[i as int]));
        assert(v@.take(i + 1).drop_last() =~= v@.take(i as int));
        match text::digit(v[i]) {
            Some(d) => {
                let next = n * 10 + d as u128;
                n = if next < FAR {
                    next
                } else {
                    FAR
                };
            },
            None => {},
        }
    }
    assert(v@.take(v@.len() as int) =~= v@);
    n
}

/// The number that digits denote, and how many of them follow the leading
/// zeros.
fn full_value(v: &[char]) -> (r: (Natural, usize))
    requires
        text::all_digits(v@),
    ensures
        r.0@ == text::digits_value(v@),
        r.0@ < natural::pow10(r.1 as nat),
        r.0@ > 0 ==> r.1 > 0 && r.0@ >= natural::pow10((r.1 - 1) as nat),
        r.1 <= v@.len(),
{
    let mut n = Natural::from_u128(0);
    let mut width: usize = 0;
    for i in 0..v.len()
        invariant
            text::all_digits(v@),
            n@ == text::digits_value(v@.take(i as int)),
            n@ < natural::pow10(width as nat),
            n@ > 0 ==> width > 0 && n@ >= natural::pow10((width - 1) as nat),
            n@ == 0 ==> width == 0,
            width <= i,
    {
        assert(text::is_digit(v@[i as int]));
        assert(v@.take(i + 1).drop_last() =~= v@.take(i as int));
        match text::digit(v[i]) {
            Some(d) => {
                let nonzero = width > 0 || d > 0;
                n.mul_add(10, d);
                if nonzero {
                    width += 1;
                }
            },
            None => {},
        }
    }
    assert(v@.take(v@.len() as int) =~= v@);
    (n, width)
}

proof fn lemma_pow10_sum(a: nat, b: nat)
    ensures
        natural::pow10(a + b) == natural::pow10(a) * natural::pow10(b),
    decreases a,
{
    if a > 0 {
        lemma_pow10_sum((a - 1) as nat, b);
        assert(natural::pow10(a + b) == 10 * natural::pow10((a - 1 + b) as nat));
        assert(10 * (natural::pow10((a - 1) as nat) * natural::pow10(b)) == (10 * natural::pow10(
            (a - 1) as nat,
        )) * natural::pow10(b)) by (nonlinear_arith);
    } else {
        assert(1 * natural::pow10(b) == natural::pow10(b)) by (nonlinear_arith);
    }
}

proof fn lemma_pow10_grows(a: nat, b: nat)
    requires
        a <= b,
    ensures
        natural::pow10(a) <= natural::pow10(b),
    decreases b - a,
{
    if a < b {
        lemma_pow10_grows(a, (b - 1) as nat);
    }
}

/// `10^n` is at least `8^n`.
proof fn lemma_pow10_pow2(n: nat)
    ensures
        natural::pow10(n) >= natural::pow2(3 * n),
    decreases n,
{
    if n > 0 {
        lemma_pow10_pow2((n - 1) as nat);
        reveal_with_fuel(natural::pow2, 4);
        assert(natural::pow2(3 * n) == 8 * natural::pow2((3 * (n - 1)) as nat));
    }
}

proof fn lemma_shift_at_least(p: nat, q: nat, k: nat)
    requires
        q > 0,
        p >= (q * natural::pow2(k)) * 0x20_0000_0000_0000,
    ensures
        shift_for(p, q) > k,
{
    lemma_shift_for(p, q);
    let j = shift_for(p, q);
    if j <= k {
        natural::lemma_pow2_grows(j, k);
        assert(q * natural::pow2(j) <= q * natural::pow2(k)) by (nonlinear_arith)
            requires
                natural::pow2(j) <= natural::pow2(k),
        ;
    }
}

/// Fractions of `2^1024` and more have no finite double.
proof fn lemma_nearest_large(neg: bool, p: nat, q: nat)
    requires
        q > 0,
        p >= q * natural::pow2(1025),
    ensures
        nearest(neg, p, q) == (Double::Infinite { neg }),
{
    reveal(nearest);
    let s = natural::pow2(1074);
    natural::lemma_pow2_sum(1025, 1074);
    natural::lemma_pow2_sum(2046, 53);
    lemma_pow2_53();
    let a = natural::pow2(1025);
    let b = natural::pow2(2046);
    assert(p * s >= (q * b) * 0x20_0000_0000_0000) by (nonlinear_arith)
        requires
            p >= q * a,
            a * s == b * 0x20_0000_0000_0000,
            s >= 0,
    ;
    lemma_shift_at_least(p * s, q, 2046);
}

/// Fractions below `2^-1075` round to zero.
proof fn lemma_nearest_small(neg: bool, p: nat, q: nat)
    requires
        q > 0,
        p * natural::pow2(1075) < q,
    ensures
        nearest(neg, p, q) == zero(neg),
{
    reveal(nearest);
    let s = natural::pow2(1074);
    assert(natural::pow2(1075) == 2 * s);
    assert(2 * (p * s) < q) by (nonlinear_arith)
        requires
            p * (2 * s) < q,
    ;
    let scaled = p * s;
    assert(shift_for(scaled, q) == 0);
    assert(q * natural::pow2(0) == q) by (nonlinear_arith)
        requires
            natural::pow2(0) == 1,
    ;
    vstd::arithmetic::div_mod::lemma_basic_div(scaled as int, q as int);
    vstd::arithmetic::div_mod::lemma_small_mod(scaled, q);
}

proof fn lemma_decimal_large(neg: bool, m: nat, width: nat, e: int)
    requires
        width > 0,
        m >= natural::pow10((width - 1) as nat),
        width - 1 + e >= 342,
    ensures
        nearest_decimal(neg, m, e) == (Double::Infinite { neg }),
{
    lemma_pow10_pow2(342);
    natural::lemma_pow2_grows(1025, 1026);
    natural::lemma_pow2_pos(1025);
    let w = (width - 1) as nat;
    if e >= 0 {
        lemma_pow10_sum(w, e as nat);
        lemma_pow10_grows(342, w + e as nat);
        let x = natural::pow10(e as nat);
        assert(m * x >= natural::pow10(w) * x) by (nonlinear_arith)
            requires
                m >= natural::pow10(w),
        ;
        assert(1 * natural::pow2(1025) == natural::pow2(1025)) by (nonlinear_arith);
        lemma_nearest_large(neg, m * x, 1);
    } else {
        let d = (-e) as nat;
        lemma_pow10_sum((w - d) as nat, d);
        lemma_pow10_grows(342, (w - d) as nat);
        natural::lemma_pow10_pos(d);
        let x = natural::pow10(d);
        assert(m >= x * natural::pow2(1025)) by (nonlinear_arith)
            requires
                m >= natural::pow10((w - d) as nat) * x,
                natural::pow10((w - d) as nat) >= natural::pow2(1025),
        ;
        lemma_nearest_large(neg, m, x);
    }
}

proof fn lemma_decimal_small(neg: bool, m: nat, width: nat, e: int)
    requires
        m < natural::pow10(width),
        width + e <= -360,
    ensures
        nearest_decimal(neg, m, e) == zero(neg),
{
    let d = (-e) as nat;
    lemma_pow10_pow2(360);
    natural::lemma_pow2_grows(1075, 1080);
    lemma_pow10_sum(width, (d - width) as nat);
    lemma_pow10_grows(360, (d - width) as nat);
    let y = natural::pow10((d - width) as nat);
    let z = natural::pow2(1075);
    natural::lemma_pow2_pos(1075);
    natural::lemma_pow10_pos(d);
    assert(m * z < natural::pow10(width) * y) by (nonlinear_arith)
        requires
            m < natural::pow10(width),
            z <= y,
            0 < z,
    ;
    lemma_nearest_small(neg, m, natural::pow10(d));
}

proof fn lemma_decimal_zero(neg: bool, e: int)
    ensures
        nearest_decimal(neg, 0, e) == zero(neg),
{
    assert(0 * natural::pow2(1075) == 0) by (nonlinear_arith);
    if e >= 0 {
        assert(0 * natural::pow10(e as nat) == 0) by (nonlinear_arith);
        lemma_nearest_small(neg, 0, 1);
    } else {
        natural::lemma_pow10_pos((-e) as nat);
        lemma_nearest_small(neg, 0, natural::pow10((-e) as nat));
    }
}

/// Rounds `digits * 10^(power - scale)`, where `power` is `sign` applied to
/// the number that `exp` denotes.
fn round_decimal(neg: bool, digits: &[char], down: bool, exp: &[char], scale: usize) -> (r: Double)
    requires
        text::all_digits(digits@),
        text::all_digits(exp@),
    ensures
        r == nearest_decimal(
            neg,
            text::digits_value(digits@),
            signed(down, text::digits_value(exp@)) - scale,
        ),
        r.wf(),
{
    let (m, width) = full_value(digits);
    let far = capped_value(exp);
    let ghost e = signed(down, text::digits_value(exp@)) - scale;
    let power: i128 = if down {
        -(far as i128) - scale as i128
    } else {
        far as i128 - scale as i128
    };
    if m.is_zero() {
        proof {
            lemma_decimal_zero(neg, e);
        }
        return Double::Finite { neg, mant: 0, exp: -1074 };
    }
    let reach = width as i128 + power;
    if reach > 342 {
        proof {
            lemma_decimal_large(neg, m@, width as nat, e);
        }
        return Double::Infinite { neg };
    }
    if reach <= -360 {
        proof {
            lemma_decimal_small(neg, m@, width as nat, e);
        }
        return Double::Finite { neg, mant: 0, exp: -1074 };
    }
    assert(power == e);
    if power >= 0 {
        let mut p = m;
        p.mul_pow10(power as u128);
        round(neg, p, &Natural::from_u128(1))
    } else {
        let mut q = Natural::from_u128(1);
        q.mul_pow10((-power) as u128);
        proof {
            natural::lemma_pow10_pos((-e) as nat);
            assert(1 * natural::pow10((-e) as nat) == natural::pow10((-e) as nat))
                by (nonlinear_arith);
        }
        round(neg, m, &q)
    }
}

/// Reads a decimal number without sign, and rounds it.
fn read_number(neg: bool, v: &[char]) -> (r: Option<Double>)
    ensures
        match r {
            Some(d) => number(v@) matches Some(p) && d == nearest_decimal(neg, p.0, p.1) && d.wf(),
            None => number(v@) is None,
        },
{
    let small = text::find_char(v, 'e', 0);
    let big = text::find_char(v, 'E', 0);
    let mark = if small <= big {
        small
    } else {
        big
    };
    let mantissa = text::slice_of(v, 0, mark);
    assert(mantissa@ =~= v@.take(mark as int));
    let point = text::find_char(&mantissa, '.', 0);
    let mut digits = text::slice_of(&mantissa, 0, point);
    assert(digits@ =~= mantissa@.take(point as int));
    let ghost whole = digits@;
    let mut fraction: Vec<char> = Vec::new();
    if point < mantissa.len() {
        fraction = text::slice_of(&mantissa, point + 1, mantissa.len());
        assert(fraction@ =~= mantissa@.skip(point + 1));
    }
    let scale = fraction.len();
    if !only_digits(&digits) || !only_digits(&fraction) {
        return None;
    }
    let ghost part = fraction@;
    digits.append(&mut fraction);
    assert(digits@ =~= whole + part);
    if digits.len() == 0 {
        return None;
    }
    let mut down = false;
    let mut exp: Vec<char> = Vec::new();
    if mark < v.len() {
        let mut start: usize = mark + 1;
        let ghost rest = v@.skip(mark + 1);
        if start < v.len() && (v[start] == '-' || v[start] == '+') {
            down = v[start] == '-';
            start += 1;
            assert(v@.subrange(start as int, v@.len() as int) =~= rest.skip(1));
        } else {
            assert(v@.subrange(start as int, v@.len() as int) =~= rest);
        }
        exp = text::slice_of(v, start, v.len());
        if exp.len() == 0 || !only_digits(&exp) {
            return None;
        }
        assert(exponent(rest) == Some(signed(down, text::digits_value(exp@))));
    }
    Some(round_decimal(neg, &digits, down, &exp, scale))
}

impl Double {
    /// Reads a double from its decimal text.
    pub fn parse(v: &[char]) -> (r: Option<Double>)
        ensures
            r == parse_double(v@),
            r matches Some(d) ==> d.wf(),
    {
        let mut start: usize = 0;
        let mut neg = false;
        if v.len() > 0 && (v[0] == '-' || v[0] == '+') {
            neg = v[0] == '-';
            start = 1;
        }
        let t = text::slice_of(v, start, v.len());
        assert(start == 0 ==> t@ =~= v@);
        assert(start == 1 ==> t@ =~= v@.skip(1));
        match read_number(neg, &t) {
            Some(d) => Some(d),
            None => if spelled(&t, &['i', 'n', 'f']) || spelled(
                &t,
                &['i', 'n', 'f', 'i', 'n', 'i', 't', 'y'],
            ) {
                Some(Double::Infinite { neg })
            } else if spelled(&t, &['n', 'a', 'n']) {
                Some(Double::NotANumber)
            } else {
                None
            },
        }
    }
}

// ---------------------------------------------------------------------------
// Encoding
// ---------------------------------------------------------------------------

/// The 64 bits of the interchange format.
pub open spec fn bits(d: Double) -> int {
    match d {
        Double::Finite { neg, mant, exp } => {
            let sign: int = if neg {
                0x8000_0000_0000_0000
            } else {
                0
            };
            if mant < 0x10_0000_0000_0000 {
                sign + mant
            } else {
                sign + (exp + 1075) * 0x10_0000_0000_0000 + (mant - 0x10_0000_0000_0000)
            }
        },
        Double::Infinite { neg } => if neg {
            0xfff0_0000_0000_0000
        } else {
            0x7ff0_0000_0000_0000
        },
        Double::NotANumber => 0x7ff8_0000_0000_0000,
    }
}

impl Double {
    pub fn to_bits(self) -> (r: u64)
        requires
            self.wf(),
        ensures
            r == bits(self),
    {
        match self {
            Double::Finite { neg, mant, exp } => {
                let sign: u64 = if neg {
                    0x8000_0000_0000_0000
                } else {
                    0
                };
                if mant < 0x10_0000_0000_0000 {
                    sign + mant
                } else {
                    sign + (exp + 1075) as u64 * 0x10_0000_0000_0000 + (mant - 0x10_0000_0000_0000)
                }
            },
            Double::Infinite { neg } => if neg {
                0xfff0_0000_0000_0000
            } else {
                0x7ff0_0000_0000_0000
            },
            Double::NotANumber => 0x7ff8_0000_0000_0000,
        }
    }
}

// ---------------------------------------------------------------------------
// Laws
// ---------------------------------------------------------------------------

/// Whether `d` is exactly `p / q`, compared in units of `2^-1074`.
pub open spec fn is_exactly(d: Double, p: nat, q: nat) -> bool {
    match d {
        Double::Finite { neg, mant, exp } => {
            &&& !neg
            &&& mant as nat * natural::pow2((exp + 1074) as nat) * q == p * natural::pow2(1074)
        },
        _ => false,
    }
}

proof fn lemma_half_even_scaled(p: nat, q: nat, c: nat)
    requires
        q > 0,
        c > 0,
    ensures
        half_even(p * c, q * c) == half_even(p, q),
{
    let d = p / q;
    let r = p % q;
    vstd::arithmetic::div_mod::lemma_fundamental_div_mod(p as int, q as int);
    assert(p * c == d * (q * c) + r * c) by (nonlinear_arith)
        requires
            p == q * d + r,
    ;
    assert(0 <= r * c < q * c) by (nonlinear_arith)
        requires
            0 <= r < q,
            c > 0,
    ;
    vstd::arithmetic::div_mod::lemma_fundamental_div_mod_converse(
        (p * c) as int,
        (q * c) as int,
        d as int,
        (r * c) as int,
    );
    assert(2 * (r * c) < q * c <==> 2 * r < q) by (nonlinear_arith)
        requires
            c > 0,
    ;
    assert(2 * (r * c) == q * c <==> 2 * r == q) by (nonlinear_arith)
        requires
            c > 0,
    ;
}

proof fn lemma_shift_for_scaled(p: nat, q: nat, c: nat)
    requires
        q > 0,
        c > 0,
    ensures
        shift_for(p * c, q * c) == shift_for(p, q),
    decreases p - q,
{
    assert((p * c < (q * c) * 0x20_0000_0000_0000) <==> p < q * 0x20_0000_0000_0000)
        by (nonlinear_arith)
        requires
            c > 0,
    ;
    assert(q * c > 0) by (nonlinear_arith)
        requires
            q > 0,
            c > 0,
    ;
    if p >= q * 0x20_0000_0000_0000 {
        lemma_shift_for_scaled(p, 2 * q, c);
        assert((2 * q) * c == 2 * (q * c)) by (nonlinear_arith);
    }
}

/// A fraction rounds to the same double in whatever terms it is written.
pub proof fn law_rounding_ignores_common_factors(neg: bool, p: nat, q: nat, c: nat)
    requires
        q > 0,
        c > 0,
    ensures
        nearest(neg, p * c, q * c) == nearest(neg, p, q),
{
    reveal(nearest);
    let s = natural::pow2(1074);
    assert((p * c) * s == (p * s) * c) by (nonlinear_arith);
    lemma_shift_for_scaled(p * s, q, c);
    let k = shift_for(p * s, q);
    natural::lemma_pow2_pos(k);
    assert((q * c) * natural::pow2(k) == (q * natural::pow2(k)) * c) by (nonlinear_arith);
    assert(q * natural::pow2(k) > 0) by (nonlinear_arith)
        requires
            q > 0,
            natural::pow2(k) > 0,
    ;
    lemma_half_even_scaled(p * s, q * natural::pow2(k), c);
}

proof fn lemma_shift_for_bound(p: nat, q: nat, j: nat)
    requires
        q > 0,
        p < (q * natural::pow2(j)) * 0x20_0000_0000_0000,
    ensures
        shift_for(p, q) <= j,
    decreases j,
{
    if p >= q * 0x20_0000_0000_0000 {
        if j == 0 {
            assert(q * 1 == q) by (nonlinear_arith);
        } else {
            let i = (j - 1) as nat;
            assert(q * natural::pow2(j) == (2 * q) * natural::pow2(i)) by (nonlinear_arith)
                requires
                    natural::pow2(j) == 2 * natural::pow2(i),
            ;
            lemma_shift_for_bound(p, 2 * q, i);
        }
    }
}

/// What divides evenly is not rounded.
pub proof fn lemma_half_even_exact(x: nat, d: nat)
    requires
        d > 0,
    ensures
        half_even(x * d, d) == x,
{
    assert(x * d == d * x + 0) by (nonlinear_arith);
    vstd::arithmetic::div_mod::lemma_fundamental_div_mod_converse(
        (x * d) as int,
        d as int,
        x as int,
        0,
    );
}

/// Every integer below `2^53` is a double.
pub proof fn law_integers_are_exact(n: nat)
    requires
        n < 0x20_0000_0000_0000,
    ensures
        is_exactly(nearest(false, n, 1), n, 1),
        nearest(false, n, 1).wf(),
{
    reveal(nearest);
    let s = natural::pow2(1074);
    let scaled = n * s;
    natural::lemma_pow2_pos(1074);
    lemma_nearest_wf(false, n, 1);
    let k = shift_for(scaled, 1);
    assert(scaled < (1 * s) * 0x20_0000_0000_0000) by (nonlinear_arith)
        requires
            scaled == n * s,
            n < 0x20_0000_0000_0000,
            s > 0,
    ;
    lemma_shift_for_bound(scaled, 1, 1074);
    lemma_shift_for(scaled, 1);
    let d = natural::pow2(k);
    assert(1 * d == d) by (nonlinear_arith);
    natural::lemma_pow2_pos(k);
    let rest = natural::pow2((1074 - k) as nat);
    natural::lemma_pow2_sum((1074 - k) as nat, k);
    let x = n * rest;
    assert(scaled == x * d) by (nonlinear_arith)
        requires
            scaled == n * s,
            s == rest * d,
            x == n * rest,
    ;
    lemma_half_even_exact(x, d);
    assert(x < 0x20_0000_0000_0000) by (nonlinear_arith)
        requires
            x * d < d * 0x20_0000_0000_0000,
            d > 0,
    ;
    assert(x * d * 1 == x * d) by (nonlinear_arith);
}

/// The double nearest to nothing is zero.
pub proof fn law_nothing_is_zero(neg: bool, q: nat)
    requires
        q > 0,
    ensures
        nearest(neg, 0, q) == zero(neg),
{
    reveal(nearest);
    assert(0 * natural::pow2(1074) == 0) by (nonlinear_arith);
    assert(0 < q * 0x20_0000_0000_0000) by (nonlinear_arith)
        requires
            q > 0,
    ;
    assert(shift_for(0, q) == 0);
    assert(q * 1 == q) by (nonlinear_arith);
    assert(q * natural::pow2(0) == q);
    lemma_half_even_exact(0, q);
    assert(0 * q == 0) by (nonlinear_arith);
}

/// For a sum the sign of zero does not matter beside a number above zero.
pub proof fn lemma_sum_with_negative_zero(a: Double)
    requires
        a is Finite,
        !a->Finite_neg,
        a->mant > 0,
    ensures
        sum(a, zero(true)) == sum(a, zero(false)),
{
    let g = smaller(a->exp as int, -1074);
    let w = natural::pow2((-1074 - g) as nat);
    assert(0 * w == 0) by (nonlinear_arith);
    let u = natural::pow2((a->exp - g) as nat);
    natural::lemma_pow2_pos((a->exp - g) as nat);
    assert(a->mant as nat * u > 0) by (nonlinear_arith)
        requires
            a->mant > 0,
            u > 0,
    ;
}

/// An integer above zero and below `2^64` rounds to a number above zero.
pub proof fn lemma_positive(n: nat)
    requires
        0 < n < 0x1_0000_0000_0000_0000,
    ensures
        nearest(false, n, 1) is Finite,
        !nearest(false, n, 1)->Finite_neg,
        nearest(false, n, 1)->mant > 0,
{
    reveal(nearest);
    let s = natural::pow2(1074);
    let scaled = n * s;
    let k = shift_for(scaled, 1);
    lemma_nearest_wf(false, n, 1);
    natural::lemma_pow2_pos(1074);
    natural::lemma_pow2_sum(11, 1074);
    assert(natural::pow2(11) == 2048) by {
        reveal_with_fuel(natural::pow2, 12);
    }
    assert(scaled < (1 * (2048 * s)) * 0x20_0000_0000_0000) by (nonlinear_arith)
        requires
            scaled == n * s,
            n < 0x1_0000_0000_0000_0000,
            s > 0,
    ;
    lemma_shift_for_bound(scaled, 1, 1085);
    lemma_shift_for(scaled, 1);
    let d = 1 * natural::pow2(k);
    assert(d == natural::pow2(k)) by (nonlinear_arith)
        requires
            d == 1 * natural::pow2(k),
    ;
    natural::lemma_pow2_pos(k);
    if k > 0 {
        lemma_half_even_bounds(scaled, d, 0x10_0000_0000_0000, 0x20_0000_0000_0000);
    } else {
        assert(scaled > 0) by (nonlinear_arith)
            requires
                scaled == n * s,
                n > 0,
                s > 0,
        ;
        assert(scaled * 1 == scaled) by (nonlinear_arith);
        lemma_half_even_exact(scaled, 1);
        lemma_half_even_bounds(scaled, d, 0, 0x20_0000_0000_0000);
    }
}

/// Nothing divided by something is nothing.
pub proof fn lemma_quotient_of_nothing(b: Double)
    requires
        b is Finite,
        !b->Finite_neg,
        b->mant > 0,
    ensures
        quotient(zero(false), b) == zero(false),
{
    let g = -1074 - b->exp;
    let n = b->mant as nat;
    if g >= 0 {
        assert(0 * natural::pow2(g as nat) == 0) by (nonlinear_arith);
        law_nothing_is_zero(false, n);
    } else {
        natural::lemma_pow2_pos((-g) as nat);
        assert(n * natural::pow2((-g) as nat) > 0) by (nonlinear_arith)
            requires
                n > 0,
                natural::pow2((-g) as nat) > 0,
        ;
        law_nothing_is_zero(false, n * natural::pow2((-g) as nat));
    }
}

/// `m * 2^e` rounds to the same double as the integer that it is.
proof fn lemma_nearest_scaled(neg: bool, m: nat, e: int, n: nat)
    requires
        -1074 <= e,
        m * natural::pow2((e + 1074) as nat) == n * natural::pow2(1074),
    ensures
        nearest_scaled(neg, m, e) == nearest(neg, n, 1),
{
    if e >= 0 {
        natural::lemma_pow2_sum(e as nat, 1074);
        natural::lemma_pow2_pos(1074);
        let a = natural::pow2(e as nat);
        let s = natural::pow2(1074);
        assert(m * a == n) by (nonlinear_arith)
            requires
                m * (a * s) == n * s,
                s > 0,
        ;
    } else {
        let a = natural::pow2((-e) as nat);
        let b = natural::pow2((e + 1074) as nat);
        natural::lemma_pow2_sum((-e) as nat, (e + 1074) as nat);
        natural::lemma_pow2_pos((-e) as nat);
        natural::lemma_pow2_pos((e + 1074) as nat);
        assert(m == n * a) by (nonlinear_arith)
            requires
                m * b == n * (a * b),
                b > 0,
        ;
        assert(1 * a == a) by (nonlinear_arith);
        law_rounding_ignores_common_factors(neg, n, 1, a);
    }
}

/// Integers below `2^53` add up exactly, as long as their sum stays below it.
pub proof fn law_integers_add_exactly(a: nat, b: nat)
    requires
        a + b < 0x20_0000_0000_0000,
    ensures
        sum(nearest(false, a, 1), nearest(false, b, 1)) == nearest(false, a + b, 1),
{
    law_integers_are_exact(a);
    law_integers_are_exact(b);
    let (m, e) = (nearest(false, a, 1)->mant as nat, nearest(false, a, 1)->exp as int);
    let (n, f) = (nearest(false, b, 1)->mant as nat, nearest(false, b, 1)->exp as int);
    let g = smaller(e, f);
    let x = m * natural::pow2((e - g) as nat);
    let y = n * natural::pow2((f - g) as nat);
    let u = natural::pow2((g + 1074) as nat);
    let s = natural::pow2(1074);
    natural::lemma_pow2_pos((g + 1074) as nat);
    natural::lemma_pow2_pos(1074);
    natural::lemma_pow2_sum((e - g) as nat, (g + 1074) as nat);
    natural::lemma_pow2_sum((f - g) as nat, (g + 1074) as nat);
    let ee = natural::pow2((e + 1074) as nat);
    let ff = natural::pow2((f + 1074) as nat);
    assert(m * ee * 1 == m * ee) by (nonlinear_arith);
    assert(n * ff * 1 == n * ff) by (nonlinear_arith);
    assert(x * u == a * s) by (nonlinear_arith)
        requires
            x == m * natural::pow2((e - g) as nat),
            natural::pow2((e - g) as nat) * u == ee,
            m * ee == a * s,
    ;
    assert(y * u == b * s) by (nonlinear_arith)
        requires
            y == n * natural::pow2((f - g) as nat),
            natural::pow2((f - g) as nat) * u == ff,
            n * ff == b * s,
    ;
    assert((x + y) * u == (a + b) * s) by (nonlinear_arith)
        requires
            x * u == a * s,
            y * u == b * s,
    ;
    if x + y == 0 {
        assert(a + b == 0) by (nonlinear_arith)
            requires
                0 * u == (a + b) * s,
                s > 0,
        ;
        law_nothing_is_zero(false, 1);
    } else {
        lemma_nearest_scaled(false, x + y, g, a + b);
    }
}

/// Integers below `2^53` multiply exactly, as long as their product stays below
/// it.
pub proof fn law_integers_multiply_exactly(a: nat, b: nat)
    requires
        a < 0x20_0000_0000_0000,
        b < 0x20_0000_0000_0000,
        a * b < 0x20_0000_0000_0000,
    ensures
        product(nearest(false, a, 1), nearest(false, b, 1)) == nearest(false, a * b, 1),
{
    law_integers_are_exact(a);
    law_integers_are_exact(b);
    let (m, e) = (nearest(false, a, 1)->mant as nat, nearest(false, a, 1)->exp as int);
    let (n, f) = (nearest(false, b, 1)->mant as nat, nearest(false, b, 1)->exp as int);
    let s = natural::pow2(1074);
    let ee = natural::pow2((e + 1074) as nat);
    let ff = natural::pow2((f + 1074) as nat);
    natural::lemma_pow2_pos(1074);
    assert(m * ee * 1 == m * ee) by (nonlinear_arith);
    assert(n * ff * 1 == n * ff) by (nonlinear_arith);
    assert((m * n) * (ee * ff) == (a * b) * (s * s)) by (nonlinear_arith)
        requires
            m * ee == a * s,
            n * ff == b * s,
    ;
    natural::lemma_pow2_sum((e + 1074) as nat, (f + 1074) as nat);
    natural::lemma_pow2_sum(1074, 1074);
    let h = e + f;
    if h >= 0 {
        natural::lemma_pow2_sum(h as nat, 2148);
        natural::lemma_pow2_pos(2148);
        let w = natural::pow2(h as nat);
        let t = natural::pow2(2148);
        assert((m * n) * w == a * b) by (nonlinear_arith)
            requires
                (m * n) * (w * t) == (a * b) * t,
                t > 0,
        ;
    } else {
        let c = natural::pow2((-h) as nat);
        let u = natural::pow2((h + 2148) as nat);
        natural::lemma_pow2_sum((-h) as nat, (h + 2148) as nat);
        natural::lemma_pow2_pos((h + 2148) as nat);
        natural::lemma_pow2_pos((-h) as nat);
        assert(m * n == (a * b) * c) by (nonlinear_arith)
            requires
                (m * n) * u == (a * b) * (c * u),
                u > 0,
        ;
        assert(1 * c == c) by (nonlinear_arith);
        law_rounding_ignores_common_factors(false, a * b, 1, c);
    }
}

/// The quotient of two integers below `2^53` is the double nearest to it.
pub proof fn law_quotients_of_integers_are_nearest(a: nat, b: nat)
    requires
        a < 0x20_0000_0000_0000,
        0 < b < 0x20_0000_0000_0000,
    ensures
        quotient(nearest(false, a, 1), nearest(false, b, 1)) == nearest(false, a, b),
{
    law_integers_are_exact(a);
    law_integers_are_exact(b);
    let (m, e) = (nearest(false, a, 1)->mant as nat, nearest(false, a, 1)->exp as int);
    let (n, f) = (nearest(false, b, 1)->mant as nat, nearest(false, b, 1)->exp as int);
    let s = natural::pow2(1074);
    let ee = natural::pow2((e + 1074) as nat);
    let ff = natural::pow2((f + 1074) as nat);
    natural::lemma_pow2_pos(1074);
    natural::lemma_pow2_pos((e + 1074) as nat);
    natural::lemma_pow2_pos((f + 1074) as nat);
    assert(m * ee * 1 == m * ee) by (nonlinear_arith);
    assert(n * ff * 1 == n * ff) by (nonlinear_arith);
    assert(n > 0) by (nonlinear_arith)
        requires
            n * ff == b * s,
            b > 0,
            s > 0,
    ;
    // m / n * 2^(e - f) is a / b: with common factors s * s on either side.
    let h = e - f;
    assert((m * ee) * (b * s) == (a * s) * (n * ff)) by (nonlinear_arith)
        requires
            m * ee == a * s,
            n * ff == b * s,
    ;
    if h >= 0 {
        let w = natural::pow2(h as nat);
        natural::lemma_pow2_sum(h as nat, (f + 1074) as nat);
        natural::lemma_pow2_pos(h as nat);
        assert((m * w) * b == a * n) by (nonlinear_arith)
            requires
                (m * ee) * (b * s) == (a * s) * (n * ff),
                ee == w * ff,
                ff > 0,
                s > 0,
        ;
        lemma_same_fraction(false, m * w, n, a, b);
    } else {
        let w = natural::pow2((-h) as nat);
        natural::lemma_pow2_sum((-h) as nat, (e + 1074) as nat);
        natural::lemma_pow2_pos((-h) as nat);
        assert(m * b == a * (n * w)) by (nonlinear_arith)
            requires
                (m * ee) * (b * s) == (a * s) * (n * ff),
                ff == w * ee,
                ee > 0,
                s > 0,
        ;
        assert(n * w > 0) by (nonlinear_arith)
            requires
                n > 0,
                w > 0,
        ;
        lemma_same_fraction(false, m, n * w, a, b);
    }
}

/// Equal fractions round to the same double.
proof fn lemma_same_fraction(neg: bool, p: nat, q: nat, a: nat, b: nat)
    requires
        q > 0,
        b > 0,
        p * b == a * q,
    ensures
        nearest(neg, p, q) == nearest(neg, a, b),
{
    law_rounding_ignores_common_factors(neg, p, q, b);
    law_rounding_ignores_common_factors(neg, a, b, q);
    assert(q * b == b * q) by (nonlinear_arith);
}

/// The digits of an integer denote the double nearest to it.
pub proof fn law_integers_are_read(n: nat)
    ensures
        parse_double(text::decimal(n)) == Some(nearest(false, n, 1)),
{
    let s = text::decimal(n);
    let none = Seq::<char>::empty();
    text::lemma_decimal(n);
    assert(s + none =~= s);
    text::lemma_find_behind_digits(s, none, 'e');
    text::lemma_find_behind_digits(s, none, 'E');
    text::lemma_find_behind_digits(s, none, '.');
    assert(s.take(s.len() as int) =~= s);
    assert(text::is_digit(s[0]));
    assert(n * natural::pow10(0) == n) by (nonlinear_arith)
        requires
            natural::pow10(0) == 1,
    ;
}

/// A double that is not negative, in units of `2^-1074`.
pub open spec fn units(d: Double) -> nat {
    match d {
        Double::Finite { mant, exp, .. } => mant as nat * natural::pow2((exp + 1074) as nat),
        _ => 0,
    }
}

/// Whether `d` is a number from zero to `n`.
pub open spec fn up_to(d: Double, n: nat) -> bool {
    &&& d.wf()
    &&& d is Finite
    &&& !d->Finite_neg
    &&& units(d) <= n * natural::pow2(1074)
}

proof fn lemma_half_even_grows(a: nat, b: nat, q: nat)
    requires
        q > 0,
        a <= b,
    ensures
        half_even(a, q) <= half_even(b, q),
{
    vstd::arithmetic::div_mod::lemma_div_is_ordered(a as int, b as int, q as int);
    vstd::arithmetic::div_mod::lemma_fundamental_div_mod(a as int, q as int);
    vstd::arithmetic::div_mod::lemma_fundamental_div_mod(b as int, q as int);
}

/// Rounding keeps the order of fractions.
pub proof fn law_rounding_keeps_the_order(a: nat, b: nat, q: nat)
    requires
        q > 0,
        a <= b,
        nearest(false, b, q) is Finite,
    ensures
        nearest(false, a, q) is Finite,
        !nearest(false, a, q)->Finite_neg,
        units(nearest(false, a, q)) <= units(nearest(false, b, q)),
{
    reveal(nearest);
    let s = natural::pow2(1074);
    let x = a * s;
    let y = b * s;
    assert(x <= y) by (nonlinear_arith)
        requires
            x == a * s,
            y == b * s,
            a <= b,
    ;
    let j = shift_for(x, q);
    let k = shift_for(y, q);
    lemma_shift_for(x, q);
    lemma_shift_for(y, q);
    lemma_shift_for_bound(x, q, k);
    natural::lemma_pow2_pos(j);
    natural::lemma_pow2_pos(k);
    let c = q * natural::pow2(j);
    let d = q * natural::pow2(k);
    assert(c > 0 && d > 0) by (nonlinear_arith)
        requires
            c == q * natural::pow2(j),
            d == q * natural::pow2(k),
            q > 0,
            natural::pow2(j) > 0,
            natural::pow2(k) > 0,
    ;
    let m = half_even(x, c);
    let n = half_even(y, d);
    lemma_half_even_bounds(x, c, 0, 0x20_0000_0000_0000);
    lemma_half_even_bounds(y, d, 0, 0x20_0000_0000_0000);
    if j == k {
        lemma_half_even_grows(x, y, c);
        assert(m * natural::pow2(j) <= n * natural::pow2(k)) by (nonlinear_arith)
            requires
                m <= n,
                j == k,
        ;
    } else {
        lemma_half_even_bounds(y, d, 0x10_0000_0000_0000, 0x20_0000_0000_0000);
        natural::lemma_pow2_grows(j + 1, k);
        assert(m * natural::pow2(j) <= n * natural::pow2(k)) by (nonlinear_arith)
            requires
                m <= 0x20_0000_0000_0000,
                n >= 0x10_0000_0000_0000,
                2 * natural::pow2(j) <= natural::pow2(k),
        ;
    }
    lemma_units_of_nearest(a, q);
    lemma_units_of_nearest(b, q);
}

proof fn lemma_units_of_nearest(p: nat, q: nat)
    requires
        q > 0,
    ensures
        ({
            let scaled = p * natural::pow2(1074);
            let k = shift_for(scaled, q);
            let m = half_even(scaled, q * natural::pow2(k));
            nearest(false, p, q) is Finite ==> units(nearest(false, p, q)) == m * natural::pow2(k)
        }),
{
    reveal(nearest);
    let scaled = p * natural::pow2(1074);
    let k = shift_for(scaled, q);
    let d = q * natural::pow2(k);
    let m = half_even(scaled, d);
    lemma_shift_for(scaled, q);
    natural::lemma_pow2_pos(k);
    assert(d > 0) by (nonlinear_arith)
        requires
            d == q * natural::pow2(k),
            q > 0,
            natural::pow2(k) > 0,
    ;
    lemma_half_even_bounds(scaled, d, 0, 0x20_0000_0000_0000);
    if m == 0x20_0000_0000_0000 {
        assert(0x10_0000_0000_0000 * (2 * natural::pow2(k)) == 0x20_0000_0000_0000 * natural::pow2(
            k,
        )) by (nonlinear_arith);
    }
}

/// A fraction that is no more than an integer does not round to more.
pub proof fn law_rounding_stays_up_to_integers(p: nat, q: nat, n: nat)
    requires
        q > 0,
        p <= n * q,
        n < 0x20_0000_0000_0000,
    ensures
        up_to(nearest(false, p, q), n),
{
    lemma_nearest_wf(false, p, q);
    law_integers_are_exact(n);
    assert(1 * q == q) by (nonlinear_arith);
    law_rounding_ignores_common_factors(false, n, 1, q);
    law_rounding_keeps_the_order(p, n * q, q);
    let d = nearest(false, n, 1);
    assert(units(d) * 1 == units(d)) by (nonlinear_arith);
}

/// `m * 2^e` that is no more than an integer does not round to more.
pub proof fn lemma_scaled_up_to(m: nat, e: int, n: nat, t: nat)
    requires
        e + t >= 0,
        m * natural::pow2((e + t) as nat) <= n * natural::pow2(t),
        n < 0x20_0000_0000_0000,
    ensures
        up_to(nearest_scaled(false, m, e), n),
{
    if e >= 0 {
        let a = natural::pow2(e as nat);
        let s = natural::pow2(t);
        natural::lemma_pow2_sum(e as nat, t);
        natural::lemma_pow2_pos(t);
        assert(m * a <= n * 1) by (nonlinear_arith)
            requires
                m * (a * s) <= n * s,
                s > 0,
        ;
        law_rounding_stays_up_to_integers(m * a, 1, n);
    } else {
        let a = natural::pow2((-e) as nat);
        let b = natural::pow2((e + t) as nat);
        natural::lemma_pow2_sum((-e) as nat, (e + t) as nat);
        natural::lemma_pow2_pos((-e) as nat);
        natural::lemma_pow2_pos((e + t) as nat);
        assert(m <= n * a) by (nonlinear_arith)
            requires
                m * b <= n * (a * b),
                b > 0,
        ;
        law_rounding_stays_up_to_integers(m, a, n);
    }
}

/// The quotient of a number by one that is not smaller is at most one.
pub proof fn law_quotient_by_no_less_is_up_to_one(a: Double, b: Double)
    requires
        a.wf(),
        b.wf(),
        a is Finite,
        b is Finite,
        !a->Finite_neg,
        !b->Finite_neg,
        b->mant > 0,
        units(a) <= units(b),
    ensures
        up_to(quotient(a, b), 1),
{
    let m = a->mant as nat;
    let n = b->mant as nat;
    let e = a->exp as int;
    let f = b->exp as int;
    if e - f >= 0 {
        let x = natural::pow2((e - f) as nat);
        let y = natural::pow2((f + 1074) as nat);
        natural::lemma_pow2_sum((e - f) as nat, (f + 1074) as nat);
        natural::lemma_pow2_pos((f + 1074) as nat);
        assert(m * x <= 1 * n) by (nonlinear_arith)
            requires
                m * (x * y) <= n * y,
                y > 0,
        ;
        law_rounding_stays_up_to_integers(m * x, n, 1);
    } else {
        let x = natural::pow2((f - e) as nat);
        let y = natural::pow2((e + 1074) as nat);
        natural::lemma_pow2_sum((f - e) as nat, (e + 1074) as nat);
        natural::lemma_pow2_pos((e + 1074) as nat);
        natural::lemma_pow2_pos((f - e) as nat);
        assert(m <= 1 * (n * x)) by (nonlinear_arith)
            requires
                m * y <= n * (x * y),
                y > 0,
        ;
        assert(n * x > 0) by (nonlinear_arith)
            requires
                n > 0,
                x > 0,
        ;
        law_rounding_stays_up_to_integers(m, n * x, 1);
    }
}

/// One less a number up to one is a number up to one.
pub proof fn law_difference_from_one_is_up_to_one(d: Double)
    requires
        up_to(d, 1),
    ensures
        up_to(sum(nearest(false, 1, 1), d.negated()), 1),
{
    let one = nearest(false, 1, 1);
    let s = natural::pow2(1074);
    law_integers_are_exact(1);
    let m = one->mant as nat;
    let e = one->exp as int;
    let n = d->mant as nat;
    let f = d->exp as int;
    let g = smaller(e, f);
    let x = aligned_sum(false, m, e, true, n, f);
    let unit = natural::pow2((g + 1074) as nat);
    natural::lemma_pow2_sum((e - g) as nat, (g + 1074) as nat);
    natural::lemma_pow2_sum((f - g) as nat, (g + 1074) as nat);
    natural::lemma_pow2_pos((g + 1074) as nat);
    let a = natural::pow2((e - g) as nat);
    let b = natural::pow2((f - g) as nat);
    assert(units(one) == s) by {
        assert(units(one) * 1 == units(one)) by (nonlinear_arith);
        assert(1 * s == s) by (nonlinear_arith);
    }
    assert(x * unit == units(one) - units(d)) by (nonlinear_arith)
        requires
            x == m * a - n * b,
            units(one) == m * (a * unit),
            units(d) == n * (b * unit),
    ;
    assert(1 * s == s) by (nonlinear_arith);
    assert(x >= 0) by (nonlinear_arith)
        requires
            x * unit >= 0,
            unit > 0,
    ;
    if x == 0 {
        lemma_zero_is_up_to(1);
    } else {
        lemma_scaled_up_to(x as nat, g, 1, 1074);
    }
}

/// Zero is no more than any integer.
pub proof fn lemma_zero_is_up_to(n: nat)
    ensures
        up_to(zero(false), n),
{
    assert(0 * natural::pow2(0) == 0);
    natural::lemma_pow2_pos(1074);
    assert(0 <= n * natural::pow2(1074)) by (nonlinear_arith);
}

/// An integer times a number up to one is a number up to that integer.
pub proof fn law_product_is_up_to_the_integer(n: nat, d: Double)
    requires
        up_to(d, 1),
        n < 0x20_0000_0000_0000,
    ensures
        up_to(product(nearest(false, n, 1), d), n),
{
    let whole = nearest(false, n, 1);
    let s = natural::pow2(1074);
    law_integers_are_exact(n);
    let m = whole->mant as nat;
    let e = whole->exp as int;
    let k = d->mant as nat;
    let f = d->exp as int;
    let a = natural::pow2((e + 1074) as nat);
    let b = natural::pow2((f + 1074) as nat);
    natural::lemma_pow2_sum((e + 1074) as nat, (f + 1074) as nat);
    natural::lemma_pow2_sum(1074, 1074);
    assert(m * a == n * s) by {
        assert(m * a * 1 == m * a) by (nonlinear_arith);
    }
    assert((m * k) * (a * b) <= n * (s * s)) by (nonlinear_arith)
        requires
            m * a == n * s,
            k * b <= 1 * s,
            n >= 0,
            s >= 0,
    ;
    lemma_scaled_up_to(m * k, e + f, n, 2148);
}

/// Rounding to an integer goes to a nearest one, and to the even one where two
/// are as near.
pub proof fn law_rounding_is_to_the_nearest(p: nat, q: nat)
    requires
        q > 0,
    ensures
        2 * (half_even(p, q) * q - p) <= q,
        2 * (p - half_even(p, q) * q) <= q,
        2 * (half_even(p, q) * q - p) == q || 2 * (p - half_even(p, q) * q) == q ==> half_even(
            p,
            q,
        ) % 2 == 0,
{
    let d = p / q;
    let r = p % q;
    assert(p == d * q + r && r < q) by (nonlinear_arith)
        requires
            q > 0,
            d == p / q,
            r == p % q,
    ;
    assert((d + 1) * q == d * q + q) by (nonlinear_arith);
}

proof fn lemma_no_mark(s: Seq<char>)
    requires
        forall|i: int| 0 <= i < s.len() ==> #[trigger] s[i] != 'e' && s[i] != 'E',
    ensures
        exponent_mark(s) == s.len(),
{
    text::lemma_find_from(s, 'e', 0);
    text::lemma_find_from(s, 'E', 0);
    if text::find(s, 'e') < s.len() {
        assert(s[text::find(s, 'e')] == 'e');
    }
    if text::find(s, 'E') < s.len() {
        assert(s[text::find(s, 'E')] == 'E');
    }
}

/// Digits with a point among them denote the double nearest to the fraction,
/// below zero where a minus sign stands in front.
pub proof fn law_fractions_are_read(whole: Seq<char>, fraction: Seq<char>)
    requires
        forall|i: int| 0 <= i < whole.len() ==> '0' <= #[trigger] whole[i] <= '9',
        forall|i: int| 0 <= i < fraction.len() ==> '0' <= #[trigger] fraction[i] <= '9',
        fraction.len() > 0,
    ensures
        parse_double(whole + seq!['.'] + fraction) == Some(
            nearest(false, text::digits_value(whole + fraction), natural::pow10(fraction.len())),
        ),
        parse_double(seq!['-'] + (whole + seq!['.'] + fraction)) == Some(
            nearest(true, text::digits_value(whole + fraction), natural::pow10(fraction.len())),
        ),
        parse_double(seq!['+'] + (whole + seq!['.'] + fraction)) == Some(
            nearest(false, text::digits_value(whole + fraction), natural::pow10(fraction.len())),
        ),
{
    let s = whole + seq!['.'] + fraction;
    assert forall|i: int| 0 <= i < s.len() implies #[trigger] s[i] != 'e' && s[i] != 'E' && s[i]
        != '-' && s[i] != '+' by {
        if i < whole.len() {
            assert(s[i] == whole[i]);
        } else if i > whole.len() {
            assert(s[i] == fraction[i - whole.len() - 1]);
        }
    }
    lemma_no_mark(s);
    assert(s.take(s.len() as int) =~= s);
    let point = text::find(s, '.');
    text::lemma_find_from(s, '.', 0);
    assert(s[whole.len() as int] == '.');
    if point < whole.len() {
        assert(s[point] == whole[point]);
    }
    assert(point == whole.len());
    assert(s.take(point) =~= whole);
    assert(s.skip(point + 1) =~= fraction);
    assert(text::all_digits(whole));
    assert(text::all_digits(fraction));
    assert(number(s) == Some((text::digits_value(whole + fraction), -(fraction.len() as int))));
    assert((seq!['-'] + s).skip(1) =~= s);
    assert((seq!['+'] + s).skip(1) =~= s);
    assert(s[0] != '-' && s[0] != '+');
}

/// Digits with an exponent denote the double nearest to that many times a power
/// of ten.
pub proof fn law_exponents_are_read(n: nat, e: nat)
    ensures
        parse_double(text::decimal(n) + seq!['e'] + text::decimal(e)) == Some(
            nearest(false, n * natural::pow10(e), 1),
        ),
        parse_double(text::decimal(n) + seq!['E'] + text::decimal(e)) == Some(
            nearest(false, n * natural::pow10(e), 1),
        ),
        e > 0 ==> parse_double(text::decimal(n) + seq!['e', '-'] + text::decimal(e)) == Some(
            nearest(false, n, natural::pow10(e)),
        ),
{
    lemma_exponent_read(n, seq!['e'], e);
    lemma_exponent_read(n, seq!['E'], e);
    lemma_exponent_read(n, seq!['e', '-'], e);
}

proof fn lemma_exponent_read(n: nat, mark: Seq<char>, e: nat)
    requires
        mark == seq!['e'] || mark == seq!['E'] || mark == seq!['e', '-'],
    ensures
        mark.len() == 1 ==> parse_double(text::decimal(n) + mark + text::decimal(e)) == Some(
            nearest(false, n * natural::pow10(e), 1),
        ),
        mark.len() == 2 && e > 0 ==> parse_double(text::decimal(n) + mark + text::decimal(e))
            == Some(nearest(false, n, natural::pow10(e))),
{
    let a = text::decimal(n);
    let b = text::decimal(e);
    text::lemma_decimal(n);
    text::lemma_decimal(e);
    let s = a + mark + b;
    assert(text::is_digit(a[0]));
    assert(text::is_digit(b[0]));
    text::lemma_find_from(s, 'e', 0);
    text::lemma_find_from(s, 'E', 0);
    assert(s[a.len() as int] == mark[0]);
    assert forall|i: int| 0 <= i < a.len() implies #[trigger] s[i] != 'e' && s[i] != 'E' && s[i]
        != '.' by {
        assert(text::is_digit(a[i]));
    }
    let at = exponent_mark(s);
    assert(at == a.len()) by {
        let x = text::find(s, 'e');
        let y = text::find(s, 'E');
        if x < a.len() {
            assert(s[x] == 'e');
        }
        if y < a.len() {
            assert(s[y] == 'E');
        }
    }
    assert(s.take(at) =~= a);
    text::lemma_find_from(a, '.', 0);
    let point = text::find(a, '.');
    if point < a.len() {
        assert(text::is_digit(a[point]));
    }
    assert(a.take(point) =~= a);
    assert(a + Seq::<char>::empty() =~= a);
    let x = s.skip(at + 1);
    if mark.len() == 1 {
        assert(x =~= b);
        assert(exponent(x) == Some(e as int));
    } else {
        assert(x =~= seq!['-'] + b);
        assert(x.skip(1) =~= b);
        assert(exponent(x) == Some(-(e as int)));
    }
    assert(s[0] == a[0]);
}

/// Every half of an integer below `2^53` is a double.
pub proof fn law_halves_are_exact(n: nat)
    requires
        n < 0x20_0000_0000_0000,
    ensures
        is_exactly(nearest(false, n, 2), n, 2),
        nearest(false, n, 2).wf(),
{
    reveal(nearest);
    let s = natural::pow2(1074);
    let scaled = n * s;
    natural::lemma_pow2_pos(1074);
    lemma_nearest_wf(false, n, 2);
    let k = shift_for(scaled, 2);
    let half = natural::pow2(1073);
    assert(s == 2 * half);
    assert(scaled < (2 * half) * 0x20_0000_0000_0000) by (nonlinear_arith)
        requires
            scaled == n * s,
            n < 0x20_0000_0000_0000,
            s == 2 * half,
            s > 0,
    ;
    lemma_shift_for_bound(scaled, 2, 1073);
    lemma_shift_for(scaled, 2);
    let e = natural::pow2(k);
    let d = 2 * e;
    natural::lemma_pow2_pos(k);
    let rest = natural::pow2((1073 - k) as nat);
    natural::lemma_pow2_sum((1073 - k) as nat, k);
    let x = n * rest;
    assert(scaled == x * d) by (nonlinear_arith)
        requires
            scaled == n * s,
            s == 2 * half,
            half == rest * e,
            d == 2 * e,
            x == n * rest,
    ;
    lemma_half_even_exact(x, d);
    assert(x < 0x20_0000_0000_0000) by (nonlinear_arith)
        requires
            x * d < d * 0x20_0000_0000_0000,
            d > 0,
    ;
    assert(x * e * 2 == x * d) by (nonlinear_arith)
        requires
            d == 2 * e,
    ;
}

/// One less a half is a half.
pub proof fn law_one_less_a_half_is_a_half()
    ensures
        sum(nearest(false, 1, 1), nearest(false, 1, 2).negated()) == nearest(false, 1, 2),
{
    law_integers_are_exact(1);
    law_halves_are_exact(1);
    let (m, e) = (nearest(false, 1, 1)->mant as nat, nearest(false, 1, 1)->exp as int);
    let (n, f) = (nearest(false, 1, 2)->mant as nat, nearest(false, 1, 2)->exp as int);
    let g = smaller(e, f);
    let x = m * natural::pow2((e - g) as nat);
    let y = n * natural::pow2((f - g) as nat);
    let u = natural::pow2((g + 1074) as nat);
    let s = natural::pow2(1074);
    natural::lemma_pow2_pos((g + 1074) as nat);
    natural::lemma_pow2_pos(1074);
    natural::lemma_pow2_sum((e - g) as nat, (g + 1074) as nat);
    natural::lemma_pow2_sum((f - g) as nat, (g + 1074) as nat);
    let ee = natural::pow2((e + 1074) as nat);
    let ff = natural::pow2((f + 1074) as nat);
    assert(m * ee * 1 == m * ee) by (nonlinear_arith);
    assert(x * u == s) by (nonlinear_arith)
        requires
            x == m * natural::pow2((e - g) as nat),
            natural::pow2((e - g) as nat) * u == ee,
            m * ee == s,
    ;
    assert(2 * (y * u) == s) by (nonlinear_arith)
        requires
            y == n * natural::pow2((f - g) as nat),
            natural::pow2((f - g) as nat) * u == ff,
            n * ff * 2 == s,
    ;
    assert(x == 2 * y) by (nonlinear_arith)
        requires
            x * u == s,
            2 * (y * u) == s,
            u > 0,
    ;
    assert(y > 0) by (nonlinear_arith)
        requires
            2 * (y * u) == s,
            s > 0,
    ;
    if g >= 0 {
        let w = natural::pow2(g as nat);
        natural::lemma_pow2_sum(g as nat, 1074);
        assert((y * w) * 2 == 1 * 1) by (nonlinear_arith)
            requires
                2 * (y * u) == s,
                u == w * s,
                s > 0,
        ;
        lemma_same_fraction(false, y * w, 1, 1, 2);
    } else {
        let w = natural::pow2((-g) as nat);
        natural::lemma_pow2_pos((-g) as nat);
        natural::lemma_pow2_sum((-g) as nat, (g + 1074) as nat);
        assert(y * 2 == 1 * w) by (nonlinear_arith)
            requires
                2 * (y * u) == s,
                s == w * u,
                u > 0,
        ;
        lemma_same_fraction(false, y, w, 1, 2);
    }
}

/// Half of an even integer is the integer that it is.
pub proof fn law_half_of_an_even_integer(a: nat)
    requires
        2 * a < 0x20_0000_0000_0000,
    ensures
        product(nearest(false, 2 * a, 1), nearest(false, 1, 2)) == nearest(false, a, 1),
{
    law_integers_are_exact(2 * a);
    law_halves_are_exact(1);
    let (m, e) = (nearest(false, 2 * a, 1)->mant as nat, nearest(false, 2 * a, 1)->exp as int);
    let (n, f) = (nearest(false, 1, 2)->mant as nat, nearest(false, 1, 2)->exp as int);
    let s = natural::pow2(1074);
    let ee = natural::pow2((e + 1074) as nat);
    let ff = natural::pow2((f + 1074) as nat);
    natural::lemma_pow2_pos(1074);
    assert(m * ee * 1 == m * ee) by (nonlinear_arith);
    assert((m * n) * (ee * ff) == a * (s * s)) by (nonlinear_arith)
        requires
            m * ee == 2 * a * s,
            n * ff * 2 == s,
    ;
    let h = e + f;
    natural::lemma_pow2_sum((e + 1074) as nat, (f + 1074) as nat);
    natural::lemma_pow2_sum(1074, 1074);
    let v = natural::pow2((h + 2148) as nat);
    assert(ee * ff == v);
    natural::lemma_pow2_pos((h + 2148) as nat);
    natural::lemma_pow2_pos(2148);
    let t = natural::pow2(2148);
    assert(s * s == t);
    if h >= 0 {
        let w = natural::pow2(h as nat);
        natural::lemma_pow2_sum(h as nat, 2148);
        assert((m * n) * w == a) by (nonlinear_arith)
            requires
                (m * n) * v == a * t,
                v == w * t,
                t > 0,
        ;
    } else {
        let w = natural::pow2((-h) as nat);
        natural::lemma_pow2_pos((-h) as nat);
        natural::lemma_pow2_sum((-h) as nat, (h + 2148) as nat);
        assert((m * n) * 1 == a * w) by (nonlinear_arith)
            requires
                (m * n) * v == a * t,
                t == w * v,
                v > 0,
        ;
        lemma_same_fraction(false, m * n, w, a, 1);
    }
}

/// A sign in front of an integer makes it negative or leaves it as it is.
pub proof fn law_signs_are_read(n: nat)
    ensures
        parse_double(seq!['-'] + text::decimal(n)) == Some(nearest(true, n, 1)),
        parse_double(seq!['+'] + text::decimal(n)) == Some(nearest(false, n, 1)),
{
    let s = text::decimal(n);
    text::lemma_decimal(n);
    assert forall|i: int| 0 <= i < s.len() implies #[trigger] s[i] != 'e' && s[i] != 'E' by {
        assert(text::is_digit(s[i]));
    }
    lemma_no_mark(s);
    text::lemma_find_from(s, '.', 0);
    let point = text::find(s, '.');
    if point < s.len() {
        assert(text::is_digit(s[point]));
    }
    assert(s.take(s.len() as int) =~= s);
    assert(s + Seq::<char>::empty() =~= s);
    assert(number(s) == Some((n, 0int)));
    assert((seq!['-'] + s).skip(1) =~= s);
    assert((seq!['+'] + s).skip(1) =~= s);
    assert(natural::pow10(0) == 1);
    assert(n * 1 == n) by (nonlinear_arith);
}

/// What is a double is not rounded.
pub proof fn law_doubles_are_not_rounded(d: Double)
    requires
        d.wf(),
        d is Finite,
        !d->Finite_neg,
    ensures
        nearest(false, units(d), natural::pow2(1074)) == d,
{
    reveal(nearest);
    let s = natural::pow2(1074);
    let mant = d->mant as nat;
    let j = (d->exp + 1074) as nat;
    let w = natural::pow2(j);
    let u = mant * w;
    natural::lemma_pow2_pos(1074);
    natural::lemma_pow2_pos(j);
    lemma_shift_for_scaled(u, 1, s);
    assert(1 * s == s) by (nonlinear_arith);
    assert(u < (1 * w) * 0x20_0000_0000_0000) by (nonlinear_arith)
        requires
            u == mant * w,
            mant < 0x20_0000_0000_0000,
            w > 0,
    ;
    lemma_shift_for_bound(u, 1, j);
    if j > 0 {
        let v = natural::pow2((j - 1) as nat);
        assert(w == 2 * v);
        assert(u >= (1 * v) * 0x20_0000_0000_0000) by (nonlinear_arith)
            requires
                u == mant * w,
                mant >= 0x10_0000_0000_0000,
                w == 2 * v,
        ;
        lemma_shift_at_least(u, 1, (j - 1) as nat);
    }
    let den = s * w;
    assert(u * s == mant * den) by (nonlinear_arith)
        requires
            u == mant * w,
            den == s * w,
    ;
    assert(den > 0) by (nonlinear_arith)
        requires
            den == s * w,
            s > 0,
            w > 0,
    ;
    lemma_half_even_exact(mant, den);
}

/// Nothing and a double are that double.
pub proof fn law_nothing_adds_nothing(d: Double)
    requires
        d.wf(),
        d is Finite,
        !d->Finite_neg,
    ensures
        sum(zero(false), d) == d,
{
    law_doubles_are_not_rounded(d);
    let n = d->mant as nat;
    let w = natural::pow2((d->exp + 1074) as nat);
    natural::lemma_pow2_pos((d->exp + 1074) as nat);
    assert(0 * natural::pow2(0) == 0) by (nonlinear_arith);
    if n > 0 {
        assert(n * w > 0) by (nonlinear_arith)
            requires
                n > 0,
                w > 0,
        ;
    } else {
        assert(0 * w == 0) by (nonlinear_arith);
    }
}

} // verus!
