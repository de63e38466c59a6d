//! Natural numbers without a bound on their size.
//!
//! A number is a list of 32-bit limbs, the least significant first. Only what
//! exact rounding needs is here: multiplication by a small factor, addition,
//! subtraction, comparison, and division with a quotient of bounded width.

use vstd::prelude::*;

verus! {

/// The weight of limb `i`.
pub open spec fn place(i: nat) -> nat
    decreases i,
{
    if i == 0 {
        1
    } else {
        0x1_0000_0000 * place((i - 1) as nat)
    }
}

/// Limb `i`, zero beyond the end.
pub open spec fn limb(s: Seq<u32>, i: int) -> nat {
    if 0 <= i < s.len() {
        s[i] as nat
    } else {
        0
    }
}

/// The number that the lowest `n` limbs denote.
pub open spec fn low(s: Seq<u32>, n: nat) -> nat
    decreases n,
{
    if n == 0 {
        0
    } else {
        low(s, (n - 1) as nat) + limb(s, n - 1) * place((n - 1) as nat)
    }
}

/// Two to the power `n`.
pub open spec fn pow2(n: nat) -> nat
    decreases n,
{
    if n == 0 {
        1
    } else {
        2 * pow2((n - 1) as nat)
    }
}

/// Ten to the power `n`.
pub open spec fn pow10(n: nat) -> nat
    decreases n,
{
    if n == 0 {
        1
    } else {
        10 * pow10((n - 1) as nat)
    }
}

pub proof fn lemma_pow2_pos(n: nat)
    ensures
        pow2(n) > 0,
    decreases n,
{
    if n > 0 {
        lemma_pow2_pos((n - 1) as nat);
    }
}

pub proof fn lemma_pow10_pos(n: nat)
    ensures
        pow10(n) > 0,
    decreases n,
{
    if n > 0 {
        lemma_pow10_pos((n - 1) as nat);
    }
}

pub proof fn lemma_pow2_sum(a: nat, b: nat)
    ensures
        pow2(a + b) == pow2(a) * pow2(b),
    decreases a,
{
    if a > 0 {
        lemma_pow2_sum((a - 1) as nat, b);
        assert(pow2(a + b) == 2 * pow2((a - 1 + b) as nat));
        assert(2 * (pow2((a - 1) as nat) * pow2(b)) == (2 * pow2((a - 1) as nat)) * pow2(b))
            by (nonlinear_arith);
    } else {
        assert(1 * pow2(b) == pow2(b)) by (nonlinear_arith);
    }
}

pub proof fn lemma_pow2_grows(a: nat, b: nat)
    requires
        a <= b,
    ensures
        pow2(a) <= pow2(b),
    decreases b - a,
{
    if a < b {
        lemma_pow2_grows(a, (b - 1) as nat);
    }
}

proof fn lemma_place_pos(i: nat)
    ensures
        place(i) > 0,
    decreases i,
{
    if i > 0 {
        lemma_place_pos((i - 1) as nat);
    }
}

proof fn lemma_low_bound(s: Seq<u32>, n: nat)
    ensures
        low(s, n) < place(n),
    decreases n,
{
    if n > 0 {
        let m = (n - 1) as nat;
        lemma_low_bound(s, m);
        let d = limb(s, m as int);
        let p = place(m);
        assert(d * p <= 0xffff_ffff * p) by (nonlinear_arith)
            requires
                d <= 0xffff_ffff,
        ;
    }
}

/// Limbs beyond the end add nothing.
proof fn lemma_low_end(s: Seq<u32>, n: nat)
    requires
        n >= s.len(),
    ensures
        low(s, n) == low(s, s.len()),
    decreases n,
{
    if n > s.len() {
        let m = (n - 1) as nat;
        lemma_low_end(s, m);
        assert(0 * place(m) == 0) by (nonlinear_arith);
    }
}

/// `low` depends on the lowest limbs only.
proof fn lemma_low_same(s: Seq<u32>, t: Seq<u32>, n: nat)
    requires
        forall|i: int| 0 <= i < n ==> limb(s, i) == limb(t, i),
    ensures
        low(s, n) == low(t, n),
    decreases n,
{
    if n > 0 {
        assert(limb(s, n - 1) == limb(t, n - 1));
        lemma_low_same(s, t, (n - 1) as nat);
    }
}

/// A natural number.
pub struct Natural {
    limbs: Vec<u32>,
}

impl View for Natural {
    type V = nat;

    closed spec fn view(&self) -> nat {
        low(self.limbs@, self.limbs@.len())
    }
}

impl Natural {
    pub fn from_u128(n: u128) -> (r: Natural)
        ensures
            r@ == n,
    {
        let mut limbs: Vec<u32> = Vec::new();
        let l0 = (n % 0x1_0000_0000) as u32;
        let n1 = n / 0x1_0000_0000;
        let l1 = (n1 % 0x1_0000_0000) as u32;
        let n2 = n1 / 0x1_0000_0000;
        let l2 = (n2 % 0x1_0000_0000) as u32;
        let n3 = n2 / 0x1_0000_0000;
        let l3 = n3 as u32;
        limbs.push(l0);
        limbs.push(l1);
        limbs.push(l2);
        limbs.push(l3);
        proof {
            reveal_with_fuel(low, 5);
            reveal_with_fuel(place, 5);
            let s = limbs@;
            assert(limb(s, 0) == l0 && limb(s, 1) == l1 && limb(s, 2) == l2 && limb(s, 3) == l3);
            assert(place(1) == 0x1_0000_0000);
            assert(place(2) == 0x1_0000_0000_0000_0000);
            assert(place(3) == 0x1_0000_0000_0000_0000_0000_0000);
            assert(n3 <= 0xffff_ffff);
            assert(l0 * place(0) == l0) by (nonlinear_arith)
                requires
                    place(0) == 1,
            ;
            assert(l1 * place(1) == l1 * 0x1_0000_0000) by (nonlinear_arith)
                requires
                    place(1) == 0x1_0000_0000,
            ;
            assert(l2 * place(2) == l2 * 0x1_0000_0000_0000_0000) by (nonlinear_arith)
                requires
                    place(2) == 0x1_0000_0000_0000_0000,
            ;
            assert(l3 * place(3) == l3 * 0x1_0000_0000_0000_0000_0000_0000) by (nonlinear_arith)
                requires
                    place(3) == 0x1_0000_0000_0000_0000_0000_0000,
            ;
            assert(low(s, 4) == l0 + l1 * 0x1_0000_0000 + l2 * 0x1_0000_0000_0000_0000 + l3
                * 0x1_0000_0000_0000_0000_0000_0000);
        }
        Natural { limbs }
    }

    pub fn copy(&self) -> (r: Natural)
        ensures
            r@ == self@,
    {
        let mut limbs: Vec<u32> = Vec::new();
        for i in 0..self.limbs.len()
            invariant
                limbs@ == self.limbs@.take(i as int),
        {
            limbs.push(self.limbs[i]);
            assert(self.limbs@.take(i + 1) =~= self.limbs@.take(i as int).push(
                self.limbs@[i as int],
            ));
        }
        assert(limbs@ =~= self.limbs@);
        Natural { limbs }
    }

    /// Multiplies by `m` and adds `a`.
    pub fn mul_add(&mut self, m: u32, a: u32)
        ensures
            final(self)@ == old(self)@ * m + a,
    {
        let ghost s = self.limbs@;
        let mut carry: u64 = a as u64;
        let mut i: usize = 0;
        let n = self.limbs.len();
        assert(0 * (m as int) == 0) by (nonlinear_arith);
        assert(carry * 1 == carry) by (nonlinear_arith);
        while i < n
            invariant
                i <= n,
                n == s.len(),
                n == self.limbs@.len(),
                carry <= 0xffff_ffff,
                low(self.limbs@, i as nat) + carry * place(i as nat) == low(s, i as nat) * m + a,
                forall|j: int| i <= j < n ==> self.limbs@[j] == s[j],
            decreases n - i,
        {
            let d = self.limbs[i];
            assert(0 <= d * m <= 0xffff_ffff * 0xffff_ffff) by (nonlinear_arith)
                requires
                    d <= 0xffff_ffff,
                    m <= 0xffff_ffff,
            ;
            let t: u64 = d as u64 * m as u64 + carry;
            let lo = (t % 0x1_0000_0000) as u32;
            let hi = t / 0x1_0000_0000;
            let ghost before = self.limbs@;
            self.limbs.set(i, lo);
            proof {
                let p = place(i as nat) as int;
                assert forall|j: int| 0 <= j < i implies limb(before, j) == limb(
                    self.limbs@,
                    j,
                ) by {}
                lemma_low_same(before, self.limbs@, i as nat);
                assert(place((i + 1) as nat) == 0x1_0000_0000 * place(i as nat));
                let b = low(s, i as nat) as int;
                assert(hi * (0x1_0000_0000 * p) + lo * p == d * p * m + carry * p)
                    by (nonlinear_arith)
                    requires
                        hi * 0x1_0000_0000 + lo == d * m + carry,
                ;
                assert((b + d * p) * m == b * m + d * p * m) by (nonlinear_arith);
            }
            carry = hi;
            i += 1;
        }
        if carry > 0 {
            let ghost before = self.limbs@;
            self.limbs.push(carry as u32);
            proof {
                lemma_low_same(before, self.limbs@, n as nat);
            }
        } else {
            assert(0 * place(n as nat) == 0) by (nonlinear_arith);
        }
    }

    pub fn double(&mut self)
        ensures
            final(self)@ == 2 * old(self)@,
    {
        self.mul_add(2, 0);
    }

    /// Multiplies by two, `n` times.
    pub fn shift_left(&mut self, n: u64)
        ensures
            final(self)@ == old(self)@ * pow2(n as nat),
    {
        let mut i: u64 = 0;
        let ghost v = self@;
        assert(v * 1 == v) by (nonlinear_arith);
        while i < n
            invariant
                i <= n,
                self@ == v * pow2(i as nat),
            decreases n - i,
        {
            self.double();
            i += 1;
            assert(2 * (v * pow2((i - 1) as nat)) == v * (2 * pow2((i - 1) as nat)))
                by (nonlinear_arith);
        }
    }

    /// Multiplies by ten, `n` times.
    pub fn mul_pow10(&mut self, n: u128)
        ensures
            final(self)@ == old(self)@ * pow10(n as nat),
    {
        let mut i: u128 = 0;
        let ghost v = self@;
        assert(v * 1 == v) by (nonlinear_arith);
        while i < n
            invariant
                i <= n,
                self@ == v * pow10(i as nat),
            decreases n - i,
        {
            self.mul_add(10, 0);
            i += 1;
            assert((v * pow10((i - 1) as nat)) * 10 == v * (10 * pow10((i - 1) as nat)))
                by (nonlinear_arith);
        }
    }

    fn limb_at(&self, i: usize) -> (d: u32)
        ensures
            d == limb(self.limbs@, i as int),
    {
        if i < self.limbs.len() {
            self.limbs[i]
        } else {
            0
        }
    }

    pub fn plus(&self, other: &Natural) -> (r: Natural)
        ensures
            r@ == self@ + other@,
    {
        let n = if self.limbs.len() < other.limbs.len() {
            other.limbs.len()
        } else {
            self.limbs.len()
        };
        let ghost a = self.limbs@;
        let ghost b = other.limbs@;
        let mut limbs: Vec<u32> = Vec::new();
        let mut carry: u64 = 0;
        let mut i: usize = 0;
        while i < n
            invariant
                i <= n,
                a == self.limbs@,
                b == other.limbs@,
                limbs@.len() == i,
                carry <= 1,
                low(limbs@, i as nat) + carry * place(i as nat) == low(a, i as nat) + low(
                    b,
                    i as nat,
                ),
            decreases n - i,
        {
            let x = self.limb_at(i);
            let y = other.limb_at(i);
            let t: u64 = x as u64 + y as u64 + carry;
            let lo = (t % 0x1_0000_0000) as u32;
            let hi = t / 0x1_0000_0000;
            let ghost before = limbs@;
            limbs.push(lo);
            proof {
                lemma_low_same(before, limbs@, i as nat);
                let p = place(i as nat) as int;
                assert(place((i + 1) as nat) == 0x1_0000_0000 * place(i as nat));
                assert(hi * (0x1_0000_0000 * p) + lo * p == x * p + y * p + carry * p)
                    by (nonlinear_arith)
                    requires
                        hi * 0x1_0000_0000 + lo == x + y + carry,
                ;
            }
            carry = hi;
            i += 1;
        }
        proof {
            lemma_low_end(a, n as nat);
            lemma_low_end(b, n as nat);
        }
        let ghost before = limbs@;
        limbs.push(carry as u32);
        proof {
            lemma_low_same(before, limbs@, n as nat);
        }
        Natural { limbs }
    }

    /// `self - other`, where that is not negative.
    pub fn minus(&self, other: &Natural) -> (r: Natural)
        requires
            self@ >= other@,
        ensures
            r@ == self@ - other@,
    {
        let n = if self.limbs.len() < other.limbs.len() {
            other.limbs.len()
        } else {
            self.limbs.len()
        };
        let ghost a = self.limbs@;
        let ghost b = other.limbs@;
        let mut limbs: Vec<u32> = Vec::new();
        let mut borrow: u64 = 0;
        let mut i: usize = 0;
        while i < n
            invariant
                i <= n,
                a == self.limbs@,
                b == other.limbs@,
                limbs@.len() == i,
                borrow <= 1,
                low(limbs@, i as nat) + low(b, i as nat) == low(a, i as nat) + borrow * place(
                    i as nat,
                ),
            decreases n - i,
        {
            let x = self.limb_at(i);
            let y = other.limb_at(i);
            let t: u64 = 0x1_0000_0000 + x as u64 - y as u64 - borrow;
            let lo = (t % 0x1_0000_0000) as u32;
            let hi = 1 - t / 0x1_0000_0000;
            let ghost before = limbs@;
            limbs.push(lo);
            proof {
                lemma_low_same(before, limbs@, i as nat);
                let p = place(i as nat) as int;
                assert(place((i + 1) as nat) == 0x1_0000_0000 * place(i as nat));
                assert(lo * p + y * p + borrow * p == x * p + hi * (0x1_0000_0000 * p))
                    by (nonlinear_arith)
                    requires
                        lo + y + borrow == x + hi * 0x1_0000_0000,
                ;
            }
            borrow = hi;
            i += 1;
        }
        proof {
            lemma_low_end(a, n as nat);
            lemma_low_end(b, n as nat);
            lemma_low_bound(limbs@, n as nat);
            if borrow == 1 {
                assert(1 * place(n as nat) == place(n as nat)) by (nonlinear_arith);
            } else {
                assert(0 * place(n as nat) == 0) by (nonlinear_arith);
            }
        }
        Natural { limbs }
    }

    /// Whether `self < other`.
    pub fn less(&self, other: &Natural) -> (r: bool)
        ensures
            r == (self@ < other@),
    {
        let n = if self.limbs.len() < other.limbs.len() {
            other.limbs.len()
        } else {
            self.limbs.len()
        };
        let ghost a = self.limbs@;
        let ghost b = other.limbs@;
        let mut below = false;
        let mut i: usize = 0;
        while i < n
            invariant
                i <= n,
                a == self.limbs@,
                b == other.limbs@,
                below == (low(a, i as nat) < low(b, i as nat)),
            decreases n - i,
        {
            let x = self.limb_at(i);
            let y = other.limb_at(i);
            proof {
                lemma_low_bound(a, i as nat);
                lemma_low_bound(b, i as nat);
                let p = place(i as nat) as int;
                let la = low(a, i as nat) as int;
                let lb = low(b, i as nat) as int;
                assert(x < y ==> la + x * p < lb + y * p) by (nonlinear_arith)
                    requires
                        0 <= la < p,
                        0 <= lb < p,
                ;
                assert(x > y ==> la + x * p > lb + y * p) by (nonlinear_arith)
                    requires
                        0 <= la < p,
                        0 <= lb < p,
                ;
            }
            if x < y {
                below = true;
            } else if x > y {
                below = false;
            }
            i += 1;
        }
        proof {
            lemma_low_end(a, n as nat);
            lemma_low_end(b, n as nat);
        }
        below
    }

    pub fn is_zero(&self) -> (r: bool)
        ensures
            r == (self@ == 0),
    {
        let zero = Natural::from_u128(0);
        !zero.less(self)
    }

    /// Quotient and remainder by `den`, for a quotient below two to the power
    /// `bits`.
    pub fn div_rem(self, den: &Natural, bits: u32) -> (r: (u128, Natural))
        requires
            den@ > 0,
            bits <= 127,
            self@ < den@ * pow2(bits as nat),
        ensures
            r.0 == self@ / den@,
            r.1@ == self@ % den@,
        decreases bits,
    {
        if bits == 0 {
            proof {
                assert(den@ * 1 == den@) by (nonlinear_arith);
                vstd::arithmetic::div_mod::lemma_basic_div(self@ as int, den@ as int);
                vstd::arithmetic::div_mod::lemma_small_mod(self@, den@);
            }
            return (0, self);
        }
        let ghost n = self@;
        let ghost d = den@;
        let mut twice = den.copy();
        twice.double();
        assert(d * pow2(bits as nat) == (2 * d) * pow2((bits - 1) as nat)) by (nonlinear_arith)
            requires
                pow2(bits as nat) == 2 * pow2((bits - 1) as nat),
        ;
        let (q, rest) = self.div_rem(&twice, bits - 1);
        proof {
            lemma_quotient_bound(n, 2 * d, (bits - 1) as nat);
            vstd::arithmetic::div_mod::lemma_fundamental_div_mod(n as int, (2 * d) as int);
            assert(pow2(126) <= 0x4000_0000_0000_0000_0000_0000_0000_0000) by {
                lemma_pow2_126();
            }
            lemma_pow2_grows((bits - 1) as nat, 126);
        }
        if rest.less(den) {
            proof {
                assert(n == d * (2 * q) + rest@) by (nonlinear_arith)
                    requires
                        n == (2 * d) * q + rest@,
                ;
                vstd::arithmetic::div_mod::lemma_fundamental_div_mod_converse(
                    n as int,
                    d as int,
                    2 * q,
                    rest@ as int,
                );
            }
            (2 * q, rest)
        } else {
            let less = rest.minus(den);
            proof {
                assert(n == d * (2 * q + 1) + (rest@ - d)) by (nonlinear_arith)
                    requires
                        n == (2 * d) * q + rest@,
                ;
                vstd::arithmetic::div_mod::lemma_fundamental_div_mod_converse(
                    n as int,
                    d as int,
                    2 * q + 1,
                    rest@ - d,
                );
            }
            (2 * q + 1, less)
        }
    }
}

/// A quotient is below `pow2(k)` where the numerator is below that many times
/// the denominator.
pub proof fn lemma_quotient_bound(n: nat, d: nat, k: nat)
    requires
        d > 0,
        n < d * pow2(k),
    ensures
        n / d < pow2(k),
{
    vstd::arithmetic::div_mod::lemma_fundamental_div_mod(n as int, d as int);
    let q = n / d;
    assert(q < pow2(k)) by (nonlinear_arith)
        requires
            n == d * q + n % d,
            n % d >= 0,
            n < d * pow2(k),
            d > 0,
    ;
}

pub proof fn lemma_pow2_127()
    ensures
        pow2(127) == 0x8000_0000_0000_0000_0000_0000_0000_0000,
{
    lemma_pow2_126();
}

proof fn lemma_pow2_126()
    ensures
        pow2(126) == 0x4000_0000_0000_0000_0000_0000_0000_0000,
{
    reveal_with_fuel(pow2, 10);
    lemma_pow2_sum(9, 9);
    assert(pow2(18) == 0x40000) by (nonlinear_arith)
        requires
            pow2(18) == pow2(9) * pow2(9),
            pow2(9) == 0x200,
            pow2(9) == 0x200,
    ;
    lemma_pow2_sum(18, 18);
    assert(pow2(36) == 0x1000000000) by (nonlinear_arith)
        requires
            pow2(36) == pow2(18) * pow2(18),
            pow2(18) == 0x40000,
            pow2(18) == 0x40000,
    ;
    lemma_pow2_sum(36, 36);
    assert(pow2(72) == 0x1000000000000000000) by (nonlinear_arith)
        requires
            pow2(72) == pow2(36) * pow2(36),
            pow2(36) == 0x1000000000,
            pow2(36) == 0x1000000000,
    ;
    lemma_pow2_sum(72, 36);
    assert(pow2(108) == 0x1000000000000000000000000000) by (nonlinear_arith)
        requires
            pow2(108) == pow2(72) * pow2(36),
            pow2(72) == 0x1000000000000000000,
            pow2(36) == 0x1000000000,
    ;
    lemma_pow2_sum(108, 18);
    assert(pow2(126) == 0x40000000000000000000000000000000) by (nonlinear_arith)
        requires
            pow2(126) == pow2(108) * pow2(18),
            pow2(108) == 0x1000000000000000000000000000,
            pow2(18) == 0x40000,
    ;
}

} // verus!
