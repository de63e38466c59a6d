//! Spans of time.

use vstd::prelude::*;

use crate::double;
use crate::double::Double;
use crate::natural;
use crate::natural::Natural;

verus! {

/// A span of time in whole seconds and nanoseconds below one second.
#[derive(Clone, Copy, Debug, PartialEq, Eq, Structural)]
pub struct Duration {
    pub secs: u64,
    pub nanos: u32,
}

/// The span of `n` nanoseconds.
pub open spec fn of_nanos(n: nat) -> Duration {
    Duration { secs: (n / 1_000_000_000) as u64, nanos: (n % 1_000_000_000) as u32 }
}

/// A number of seconds as nanoseconds, rounded to the nearest, ties to even.
/// Negative numbers, infinities, what is no number, and spans of `2^64`
/// seconds or more have none.
pub open spec fn secs_to_nanos(d: Double) -> Option<nat> {
    match d {
        Double::Finite { neg, mant, exp } => {
            let n = if exp >= 0 {
                mant as nat * 1_000_000_000 * natural::pow2(exp as nat)
            } else {
                double::half_even(mant as nat * 1_000_000_000, natural::pow2((-exp) as nat))
            };
            if (neg && mant > 0) || n >= 0x1_0000_0000_0000_0000 * 1_000_000_000 {
                None
            } else {
                Some(n)
            }
        },
        _ => None,
    }
}

impl Duration {
    /// All of the span in nanoseconds.
    pub open spec fn total(self) -> nat {
        self.secs as nat * 1_000_000_000 + self.nanos as nat
    }

    pub fn as_nanos(self) -> (n: u128)
        ensures
            n == self.total(),
    {
        self.secs as u128 * 1_000_000_000 + self.nanos as u128
    }

    pub fn from_secs(secs: u64) -> (d: Duration)
        ensures
            d == of_nanos(secs as nat * 1_000_000_000),
            d.total() == secs * 1_000_000_000,
    {
        Duration { secs, nanos: 0 }
    }

    pub fn from_millis(millis: u64) -> (d: Duration)
        ensures
            d == of_nanos(millis as nat * 1_000_000),
            d.total() == millis * 1_000_000,
    {
        Duration { secs: millis / 1000, nanos: (millis % 1000) as u32 * 1_000_000 }
    }

    /// The span of `secs` seconds, where there is one.
    pub fn from_double(secs: Double) -> (r: Option<Duration>)
        ensures
            match r {
                Some(d) => secs_to_nanos(secs) matches Some(n) && d == of_nanos(n),
                None => secs_to_nanos(secs) is None,
            },
    {
        match secs {
            Double::Finite { neg, mant, exp } => {
                if neg && mant > 0 {
                    return None;
                }
                let mut p = Natural::from_u128(mant as u128 * 1_000_000_000);
                let mut q = Natural::from_u128(1);
                if exp >= 0 {
                    p.shift_left(exp as u64);
                } else {
                    q.shift_left((-(exp as i64)) as u64);
                    assert(1 * natural::pow2((-exp) as nat) == natural::pow2((-exp) as nat))
                        by (nonlinear_arith);
                }
                proof {
                    natural::lemma_pow2_pos((-exp) as nat);
                    natural::lemma_pow2_127();
                    if exp >= 0 {
                        lemma_half_even_one(p@);
                    }
                }
                let mut limit = q.copy();
                limit.shift_left(127);
                if !p.less(&limit) {
                    proof {
                        lemma_half_even_least(p@, q@, natural::pow2(127));
                    }
                    return None;
                }
                let total = double::divide_even(p, &q, 127);
                if total >= 0x1_0000_0000_0000_0000 * 1_000_000_000 {
                    return None;
                }
                Some(
                    Duration {
                        secs: (total / 1_000_000_000) as u64,
                        nanos: (total % 1_000_000_000) as u32,
                    },
                )
            },
            _ => None,
        }
    }

    /// The span in seconds, as the nearest double to the sum of its two parts.
    pub fn as_secs(self) -> (r: Double)
        ensures
            r == secs_double(self),
            r.wf(),
    {
        let whole = Double::from_u64(self.secs);
        let part = Double::from_u64(self.nanos as u64).over(Double::from_u64(1_000_000_000));
        whole.plus(part)
    }
}

/// A span in seconds: the whole seconds plus the nanoseconds divided by 10^9,
/// each step rounded.
pub open spec fn secs_double(d: Duration) -> Double {
    double::sum(
        double::nearest(false, d.secs as nat, 1),
        double::quotient(
            double::nearest(false, d.nanos as nat, 1),
            double::nearest(false, 1_000_000_000, 1),
        ),
    )
}

proof fn lemma_half_even_one(p: nat)
    ensures
        double::half_even(p, 1) == p,
{
    vstd::arithmetic::div_mod::lemma_fundamental_div_mod(p as int, 1);
}

proof fn lemma_half_even_least(p: nat, q: nat, n: nat)
    requires
        q > 0,
        p >= q * n,
    ensures
        double::half_even(p, q) >= n,
{
    vstd::arithmetic::div_mod::lemma_fundamental_div_mod(p as int, q as int);
    let d = p / q;
    assert(d >= n) by (nonlinear_arith)
        requires
            q > 0,
            p >= q * n,
            p == q * d + p % q,
            0 <= p % q < q,
    ;
}

/// A whole number of seconds below `2^53` is that many seconds.
pub proof fn law_whole_seconds_are_exact(n: nat)
    requires
        n < 0x20_0000_0000_0000,
    ensures
        secs_to_nanos(double::nearest(false, n, 1)) == Some(n * 1_000_000_000),
{
    let d = double::nearest(false, n, 1);
    double::law_integers_are_exact(n);
    let m = d->mant as nat;
    let e = d->exp as int;
    let s = natural::pow2(1074);
    let u = natural::pow2((e + 1074) as nat);
    natural::lemma_pow2_pos(1074);
    assert(m * u * 1 == m * u) by (nonlinear_arith);
    if e >= 0 {
        let w = natural::pow2(e as nat);
        natural::lemma_pow2_sum(e as nat, 1074);
        assert(m * w == n) by (nonlinear_arith)
            requires
                m * (w * s) == n * s,
                s > 0,
        ;
        assert(m * 1_000_000_000 * w == n * 1_000_000_000) by (nonlinear_arith)
            requires
                m * w == n,
        ;
    } else {
        let w = natural::pow2((-e) as nat);
        natural::lemma_pow2_sum((-e) as nat, (e + 1074) as nat);
        natural::lemma_pow2_pos((-e) as nat);
        natural::lemma_pow2_pos((e + 1074) as nat);
        assert(m == n * w) by (nonlinear_arith)
            requires
                m * u == n * (w * u),
                u > 0,
        ;
        assert(m * 1_000_000_000 == (n * 1_000_000_000) * w) by (nonlinear_arith)
            requires
                m == n * w,
        ;
        double::lemma_half_even_exact(n * 1_000_000_000, w);
    }
}

/// A span keeps its nanoseconds, the part below a second apart.
pub proof fn law_spans_keep_their_nanoseconds(n: nat)
    requires
        n < 0x1_0000_0000_0000_0000 * 1_000_000_000,
    ensures
        of_nanos(n).total() == n,
        of_nanos(n).secs * 1_000_000_000 + of_nanos(n).nanos == n,
        of_nanos(n).nanos < 1_000_000_000,
{
}

/// No span is negative or without end.
pub proof fn law_spans_are_finite_and_not_negative(d: Double)
    ensures
        d is Infinite || d is NotANumber ==> secs_to_nanos(d) is None,
        d is Finite && d->Finite_neg && d->mant > 0 ==> secs_to_nanos(d) is None,
        secs_to_nanos(d) is Some ==> secs_to_nanos(d)->0 < 0x1_0000_0000_0000_0000 * 1_000_000_000,
{
}

/// A span is nearest to its number of seconds: no other number of nanoseconds
/// is nearer. A number that is whole in nanoseconds is kept.
pub proof fn law_spans_are_the_nearest(mant: u64, exp: i32)
    ensures
        ({
            let n = secs_to_nanos(Double::Finite { neg: false, mant, exp });
            let unit = natural::pow2((-exp) as nat);
            &&& exp < 0 && n is Some ==> 2 * (n->0 * unit - mant * 1_000_000_000) <= unit && 2 * (
            mant * 1_000_000_000 - n->0 * unit) <= unit
            &&& exp >= 0 && n is Some ==> n->0 == mant * 1_000_000_000 * natural::pow2(exp as nat)
        }),
{
    if exp < 0 {
        natural::lemma_pow2_pos((-exp) as nat);
        double::law_rounding_is_to_the_nearest(
            mant as nat * 1_000_000_000,
            natural::pow2((-exp) as nat),
        );
    }
}

/// A part of a second is the double nearest to it, and so are whole seconds.
pub proof fn law_parts_of_a_second_are_the_nearest(n: u32)
    requires
        n < 1_000_000_000,
    ensures
        secs_double(Duration { secs: 0, nanos: n }) == double::nearest(
            false,
            n as nat,
            1_000_000_000,
        ),
        secs_double(Duration { secs: n as u64, nanos: 0 }) == double::nearest(false, n as nat, 1),
{
    double::law_nothing_is_zero(false, 1);
    double::law_nothing_is_zero(false, 1_000_000_000);
    double::law_quotients_of_integers_are_nearest(n as nat, 1_000_000_000);
    double::law_quotients_of_integers_are_nearest(0, 1_000_000_000);
    double::law_rounding_stays_up_to_integers(n as nat, 1_000_000_000, 1);
    double::law_nothing_adds_nothing(double::nearest(false, n as nat, 1_000_000_000));
    double::law_integers_add_exactly(n as nat, 0);
}

} // verus!
