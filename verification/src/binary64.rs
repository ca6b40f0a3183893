//! The numbers of the IEEE 754 binary64 format, computed with integers alone.
//!
//! A number is a significand of at most 53 bits times a power of two. Results are rounded to the
//! nearest such number, and to the one with an even significand where two are equally near.

use vstd::arithmetic::div_mod::*;
use vstd::arithmetic::power2::*;
use vstd::prelude::*;

use crate::natural::Natural;

verus! {

/// The non-negative number `significand * 2^exponent`.
#[derive(Debug, Clone, Copy)]
pub struct Binary64 {
    pub significand: u64,
    pub exponent: i128,
}

/// The integer nearest to `n / d`, and the even one of two that are equally near.
pub open spec fn half_even(n: nat, d: nat) -> nat {
    let q = n / d;
    let r = n % d;
    if 2 * r < d || (2 * r == d && q % 2 == 0) {
        q
    } else {
        q + 1
    }
}

/// By how much `n / d` is too large for a significand.
pub open spec fn excess(n: nat, d: nat) -> nat {
    if n >= 0x20_0000_0000_0000 * d {
        (n - 0x20_0000_0000_0000 * d + 1) as nat
    } else {
        0
    }
}

/// The significand and the exponent of the number nearest to `n / d * 2^e`.
///
/// The exponent is the one that leaves 53 bits before the point, or the least exponent of the
/// format where the number is smaller than that.
pub open spec fn nearest_from(n: nat, d: nat, e: int) -> (nat, int)
    decreases excess(n, d), (if e > -1074 { e + 1074 } else { 0 }),
{
    if d > 0 && n >= 0x20_0000_0000_0000 * d {
        nearest_from(n, 2 * d, e + 1)
    } else if n < 0x10_0000_0000_0000 * d && e > -1074 {
        nearest_from(2 * n, d, e - 1)
    } else {
        (half_even(n, d), e)
    }
}

/// The significand and the exponent of the number nearest to `n / d`.
pub open spec fn nearest(n: nat, d: nat) -> (nat, int) {
    nearest_from(n, d, 0)
}

/// The number nearest to `a / b`, all three as significand and exponent.
pub open spec fn quotient(a: (nat, int), b: (nat, int)) -> (nat, int) {
    let k = a.1 - b.1;
    if k >= 0 {
        nearest(a.0 * pow2(k as nat), b.0)
    } else {
        nearest(a.0, b.0 * pow2((-k) as nat))
    }
}

/// The whole part of the number with significand `a.0` and exponent `a.1`.
pub open spec fn whole(a: (nat, int)) -> nat {
    if a.1 >= 0 {
        a.0 * pow2(a.1 as nat)
    } else {
        a.0 / pow2((-a.1) as nat)
    }
}

impl View for Binary64 {
    type V = (nat, int);

    open spec fn view(&self) -> (nat, int) {
        (self.significand as nat, self.exponent as int)
    }
}

impl Binary64 {
    /// Whether the significand has at most 53 bits, or is 2^53, and the exponent is in range.
    pub open spec fn well_formed(&self) -> bool {
        &&& self.significand <= 0x20_0000_0000_0000
        &&& -1074 <= self.exponent <= 0x20_ffff_ffff_ffff_ffff
    }

    /// The number nearest to `n / d`.
    pub fn nearest(n: &Natural, d: &Natural) -> (b: Binary64)
        requires
            d@ > 0,
        ensures
            b@ == nearest(n@, d@),
            b.well_formed(),
            b.exponent < 0x20_0000_0000_0000_0000,
    {
        let mut num: Natural = n.mul_add(1, 0);
        let mut den: Natural = d.mul_add(1, 0);
        let mut exponent: i128 = 0;
        proof {
            lemma2_to64();
        }
        while den.mul_add(0x20_0000_0000_0000, 0).at_most(&num)
            invariant
                num@ == n@,
                den@ == d@ * pow2(exponent as nat),
                d@ > 0,
                0 <= exponent < 0x20_0000_0000_0000_0000,
                nearest_from(num@, den@, exponent as int) == nearest(n@, d@),
            decreases excess(num@, den@),
        {
            proof {
                let bits = n.lemma_bits();
                let e = exponent as nat;
                lemma_pow2_pos(e);
                assert(d@ * pow2(e) >= pow2(e)) by (nonlinear_arith)
                    requires
                        d@ >= 1,
                ;
                if e >= bits {
                    if e > bits {
                        lemma_pow2_strictly_increases(bits, e);
                    }
                    assert(false);
                }
                lemma_pow2_unfold((e + 1) as nat);
                assert(2 * (d@ * pow2(e)) == d@ * (2 * pow2(e))) by (nonlinear_arith);
            }
            den = den.mul_add(2, 0);
            exponent = exponent + 1;
        }
        proof {
            lemma_pow2_pos(exponent as nat);
            assert(d@ * pow2(exponent as nat) > 0) by (nonlinear_arith)
                requires
                    d@ > 0,
                    pow2(exponent as nat) > 0,
            ;
        }
        while exponent > -1074 && !den.mul_add(0x10_0000_0000_0000, 0).at_most(&num)
            invariant
                den@ > 0,
                num@ < 0x20_0000_0000_0000 * den@,
                -1074 <= exponent < 0x20_0000_0000_0000_0000,
                nearest_from(num@, den@, exponent as int) == nearest(n@, d@),
            decreases exponent + 1074,
        {
            num = num.mul_add(2, 0);
            exponent = exponent - 1;
        }
        let significand: u64 = round_half_even(&num, &den);
        Binary64 { significand, exponent }
    }

    /// The number nearest to `self / other`.
    pub fn quotient(&self, other: &Binary64) -> (b: Binary64)
        requires
            self.well_formed(),
            other.well_formed(),
            other.significand > 0,
        ensures
            b@ == quotient(self@, other@),
            b.well_formed(),
    {
        let k: i128 = self.exponent - other.exponent;
        proof {
            lemma2_to64();
        }
        if k >= 0 {
            let n = scaled(self.significand, k);
            let d = Natural::from_u128(other.significand as u128);
            Binary64::nearest(&n, &d)
        } else {
            let n = Natural::from_u128(self.significand as u128);
            let d = scaled(other.significand, -k);
            proof {
                lemma_pow2_pos((-k) as nat);
                assert(d@ > 0) by (nonlinear_arith)
                    requires
                        d@ == other.significand * pow2((-k) as nat),
                        other.significand > 0,
                        pow2((-k) as nat) > 0,
                ;
            }
            Binary64::nearest(&n, &d)
        }
    }

    /// The whole part, or the largest `usize` where the whole part is larger.
    pub fn whole_saturating(&self) -> (w: usize)
        ensures
            w == if whole(self@) <= usize::MAX {
                whole(self@)
            } else {
                usize::MAX as nat
            },
    {
        proof {
            lemma2_to64();
        }
        if self.significand == 0 {
            proof {
                lemma_whole_zero(self.exponent as int);
            }
            return 0;
        }
        if self.exponent >= 64 {
            proof {
                let e = self.exponent as nat;
                if e > 64 {
                    lemma_pow2_strictly_increases(64, e);
                }
                let m = self.significand as nat;
                assert(m * pow2(e) >= pow2(64)) by (nonlinear_arith)
                    requires
                        m >= 1,
                        pow2(e) >= pow2(64),
                ;
            }
            return usize::MAX;
        }
        if self.exponent < -64 {
            proof {
                let k = (-self.exponent) as nat;
                lemma_pow2_strictly_increases(64, k);
                lemma_small_div(self.significand as int, pow2(k) as int);
            }
            return 0;
        }
        if self.exponent >= 0 {
            let p: u128 = power_of_two(self.exponent as u32);
            proof {
                if self.exponent > 0 {
                    lemma_pow2_strictly_increases(self.exponent as nat, 64);
                }
            }
            assert(self.significand * p <= 0xffff_ffff_ffff_ffff * 0x1_0000_0000_0000_0000)
                by (nonlinear_arith)
                requires
                    self.significand <= 0xffff_ffff_ffff_ffff,
                    p <= 0x1_0000_0000_0000_0000,
            ;
            let product: u128 = self.significand as u128 * p;
            if product <= usize::MAX as u128 {
                product as usize
            } else {
                usize::MAX
            }
        } else {
            let p: u128 = power_of_two((-self.exponent) as u32);
            proof {
                lemma_pow2_pos((-self.exponent) as nat);
            }
            let w: u128 = self.significand as u128 / p;
            if w <= usize::MAX as u128 {
                w as usize
            } else {
                usize::MAX
            }
        }
    }
}

/// The number `significand * 2^k`.
fn scaled(significand: u64, k: i128) -> (n: Natural)
    requires
        k >= 0,
    ensures
        n@ == significand * pow2(k as nat),
{
    let mut n: Natural = Natural::from_u128(significand as u128);
    let mut i: i128 = 0;
    proof {
        lemma2_to64();
        assert(significand * pow2(0) == significand);
    }
    while i < k
        invariant
            0 <= i <= k,
            n@ == significand * pow2(i as nat),
        decreases k - i,
    {
        proof {
            lemma_pow2_unfold((i + 1) as nat);
            assert(significand * (2 * pow2(i as nat)) == (significand * pow2(i as nat)) * 2)
                by (nonlinear_arith);
        }
        n = n.mul_add(2, 0);
        i = i + 1;
    }
    n
}

/// The number `2^k`.
pub fn power_of_two(k: u32) -> (p: u128)
    requires
        k <= 100,
    ensures
        p == pow2(k as nat),
{
    let mut p: u128 = 1;
    let mut i: u32 = 0;
    proof {
        lemma2_to64();
        lemma2_to64_rest();
        lemma_pow2_adds(64, 36);
    }
    while i < k
        invariant
            i <= k <= 100,
            p == pow2(i as nat),
            pow2(100) == 0x1_0000_0000_0000_0000 * 0x10_0000_0000,
        decreases k - i,
    {
        proof {
            lemma_pow2_unfold((i + 1) as nat);
            lemma_pow2_strictly_increases(i as nat, 100);
        }
        p = p * 2;
        i = i + 1;
    }
    p
}

/// The integer nearest to `n / d`, and the even one of two that are equally near.
fn round_half_even(n: &Natural, d: &Natural) -> (m: u64)
    requires
        d@ > 0,
        n@ < 0x20_0000_0000_0000 * d@,
    ensures
        m == half_even(n@, d@),
        m <= 0x20_0000_0000_0000,
{
    let mut low: u64 = 0;
    let mut high: u64 = 0x20_0000_0000_0000;
    while high - low > 1
        invariant
            0 <= low < high <= 0x20_0000_0000_0000,
            low * d@ <= n@,
            n@ < high * d@,
        decreases high - low,
    {
        let mid: u64 = low + (high - low) / 2;
        let product = d.mul_add(mid, 0);
        assert(d@ * mid == mid * d@) by (nonlinear_arith);
        if product.at_most(n) {
            low = mid;
        } else {
            high = mid;
        }
    }
    let twice = n.mul_add(2, 0);
    let middle = d.mul_add(2 * low + 1, 0);
    let ghost r = (n@ - low * d@) as nat;
    proof {
        assert(high * d@ == low * d@ + d@) by (nonlinear_arith)
            requires
                high == low + 1,
        ;
        lemma_fundamental_div_mod_converse(n@ as int, d@ as int, low as int, r as int);
        assert(d@ * (2 * low + 1) == 2 * (low * d@) + d@) by (nonlinear_arith);
    }
    let above: bool = !twice.at_most(&middle);
    let below: bool = !middle.at_most(&twice);
    if above || (!below && low % 2 == 1) {
        low + 1
    } else {
        low
    }
}

/// The whole part of zero is zero.
pub(crate) proof fn lemma_whole_zero(e: int)
    ensures
        whole((0, e)) == 0,
{
    if e >= 0 {
        assert(0nat * pow2(e as nat) == 0);
    } else {
        lemma_pow2_pos((-e) as nat);
        lemma_small_div(0, pow2((-e) as nat) as int);
    }
}

/// A number below the divisor is divided to zero.
pub(crate) proof fn lemma_small_div(n: int, d: int)
    requires
        0 <= n < d,
    ensures
        n / d == 0,
{
    lemma_fundamental_div_mod_converse(n, d, 0, n);
}

/// Rounding does not carry a number below a power of two that it is not below.
pub proof fn lemma_nearest_reaches_power(n: nat, d: nat, j: nat)
    requires
        d > 0,
        n >= pow2(j) * d,
    ensures
        whole(nearest(n, d)) >= pow2(j),
{
    lemma_nearest_from_reaches_power(n, d, 0, j);
}

proof fn lemma_nearest_from_reaches_power(n: nat, d: nat, e: int, j: nat)
    requires
        d > 0,
        e <= j ==> n >= pow2((j - e) as nat) * d,
        e > j ==> n >= 0x10_0000_0000_0000 * d,
    ensures
        whole(nearest_from(n, d, e)) >= pow2(j),
    decreases excess(n, d), (if e > -1074 { e + 1074 } else { 0 }),
{
    if n >= 0x20_0000_0000_0000 * d {
        if e + 1 <= j {
            let p = pow2((j - e - 1) as nat);
            lemma_pow2_unfold((j - e) as nat);
            assert((2 * p) * d == p * (2 * d)) by (nonlinear_arith);
        }
        lemma_nearest_from_reaches_power(n, 2 * d, e + 1, j);
    } else if n < 0x10_0000_0000_0000 * d && e > -1074 {
        let p = pow2((j - e) as nat);
        lemma_pow2_unfold((j - e + 1) as nat);
        assert((2 * p) * d == 2 * (p * d)) by (nonlinear_arith);
        lemma_nearest_from_reaches_power(2 * n, d, e - 1, j);
    } else {
        let m = half_even(n, d);
        let least = if e <= j {
            pow2((j - e) as nat)
        } else {
            0x10_0000_0000_0000
        };
        lemma_div_at_least(n, d, least);
        assert(m >= least);
        if e > j {
            lemma_pow2_strictly_increases(j, e as nat);
            assert(m * pow2(e as nat) >= pow2(e as nat)) by (nonlinear_arith)
                requires
                    m >= 1,
            ;
        } else if e >= 0 {
            lemma_pow2_adds((j - e) as nat, e as nat);
            assert(m * pow2(e as nat) >= least * pow2(e as nat)) by (nonlinear_arith)
                requires
                    m >= least,
            ;
        } else {
            let p = pow2((-e) as nat);
            lemma_pow2_adds(j, (-e) as nat);
            assert((j + (-e) as nat) as nat == (j - e) as nat);
            lemma_pow2_pos((-e) as nat);
            lemma_div_at_least(m, p, pow2(j));
        }
    }
}

proof fn lemma_div_at_least(n: nat, d: nat, q: nat)
    requires
        d > 0,
        n >= q * d,
    ensures
        n / d >= q,
{
    lemma_fundamental_div_mod(n as int, d as int);
    let w = n / d;
    assert(w >= q) by (nonlinear_arith)
        requires
            n == d * w + n % d,
            n % d < d,
            n >= q * d,
            d > 0,
    ;
}

/// A number below half of the least positive number of the format is rounded to zero.
pub proof fn lemma_nearest_vanishes(n: nat, d: nat)
    requires
        n * pow2(1075) < d,
    ensures
        nearest(n, d).0 == 0,
{
    lemma_nearest_from_vanishes(n, d, 0);
}

proof fn lemma_nearest_from_vanishes(n: nat, d: nat, e: int)
    requires
        -1074 <= e <= 0,
        n * pow2((e + 1075) as nat) < d,
    ensures
        nearest_from(n, d, e).0 == 0,
    decreases e + 1074,
{
    let p = pow2((e + 1075) as nat);
    lemma_pow2_unfold((e + 1075) as nat);
    lemma_pow2_pos((e + 1074) as nat);
    assert(n * p >= 2 * n) by (nonlinear_arith)
        requires
            p >= 2,
    ;
    if e > -1074 {
        assert((2 * n) * pow2((e + 1074) as nat) == n * p) by (nonlinear_arith)
            requires
                p == 2 * pow2((e + 1074) as nat),
        ;
        lemma_nearest_from_vanishes(2 * n, d, e - 1);
    } else {
        lemma_small_div(n as int, d as int);
        lemma_fundamental_div_mod(n as int, d as int);
        assert(d * (n / d) == 0) by (nonlinear_arith)
            requires
                n / d == 0,
        ;
    }
}

/// A whole number `v`, given as `n / d`, of at most 53 bits is not changed by rounding.
pub proof fn lemma_nearest_exact(n: nat, d: nat, v: nat)
    requires
        d > 0,
        n == v * d,
        v < 0x20_0000_0000_0000,
    ensures
        nearest(n, d).1 <= 0,
        nearest(n, d).0 == v * pow2((-nearest(n, d).1) as nat),
{
    lemma2_to64();
    assert((v * pow2(0)) * d == v * d);
    lemma_nearest_from_exact(n, d, v, 0);
}

proof fn lemma_nearest_from_exact(n: nat, d: nat, v: nat, e: int)
    requires
        d > 0,
        -1074 <= e <= 0,
        n == (v * pow2((-e) as nat)) * d,
        v * pow2((-e) as nat) < 0x20_0000_0000_0000,
    ensures
        nearest_from(n, d, e).1 <= 0,
        nearest_from(n, d, e).0 == v * pow2((-nearest_from(n, d, e).1) as nat),
    decreases e + 1074,
{
    let p = pow2((-e) as nat);
    let m = v * p;
    assert(m * d < 0x20_0000_0000_0000 * d) by (nonlinear_arith)
        requires
            m < 0x20_0000_0000_0000,
            d > 0,
    ;
    if n < 0x10_0000_0000_0000 * d && e > -1074 {
        lemma_pow2_unfold((1 - e) as nat);
        assert(m < 0x10_0000_0000_0000) by (nonlinear_arith)
            requires
                m * d < 0x10_0000_0000_0000 * d,
        ;
        assert(v * (2 * p) == 2 * (v * p)) by (nonlinear_arith);
        assert((2 * m) * d == 2 * (m * d)) by (nonlinear_arith);
        lemma_nearest_from_exact(2 * n, d, v, e - 1);
    } else {
        assert(m * d == d * m) by (nonlinear_arith);
        lemma_fundamental_div_mod_converse(n as int, d as int, m as int, 0);
    }
}

/// Rounding `a / b`, given as `n / d`, does not change its whole part.
pub proof fn lemma_nearest_keeps_whole(n: nat, d: nat, a: nat, b: nat)
    requires
        d > 0,
        0 < b < 0x20_0000_0000_0000,
        a < 0x20_0000_0000_0000,
        n * b == a * d,
    ensures
        whole(nearest(n, d)) == a / b,
{
    lemma2_to64();
    assert((a * d) * pow2(0) == a * d);
    assert(n < 0x20_0000_0000_0000 * d) by (nonlinear_arith)
        requires
            n * b == a * d,
            a < 0x20_0000_0000_0000,
            b >= 1,
            d > 0,
    ;
    lemma_nearest_from_keeps_whole(n, d, 0, a, b);
}

proof fn lemma_nearest_from_keeps_whole(n: nat, d: nat, e: int, a: nat, b: nat)
    requires
        d > 0,
        -1074 <= e <= 0,
        0 < b < 0x20_0000_0000_0000,
        a < 0x20_0000_0000_0000,
        n < 0x20_0000_0000_0000 * d,
        n * b == (a * d) * pow2((-e) as nat),
    ensures
        whole(nearest_from(n, d, e)) == a / b,
    decreases e + 1074,
{
    let k = (-e) as nat;
    let p = pow2(k);
    lemma_pow2_pos(k);
    if n < 0x10_0000_0000_0000 * d && e > -1074 {
        lemma_pow2_unfold(k + 1);
        assert((2 * n) * b == (a * d) * (2 * p)) by (nonlinear_arith)
            requires
                n * b == (a * d) * p,
        ;
        lemma_nearest_from_keeps_whole(2 * n, d, e - 1, a, b);
    } else {
        let m = half_even(n, d);
        let f = a / b;
        lemma_fundamental_div_mod(a as int, b as int);
        lemma_fundamental_div_mod(n as int, d as int);
        assert(b < 2 * p) by {
            if n >= 0x10_0000_0000_0000 * d {
                assert(n * b >= (0x10_0000_0000_0000 * d) * b) by (nonlinear_arith)
                    requires
                        n >= 0x10_0000_0000_0000 * d,
                ;
                assert(a * p >= 0x10_0000_0000_0000 * b) by (nonlinear_arith)
                    requires
                        (a * d) * p >= (0x10_0000_0000_0000 * d) * b,
                        d > 0,
                ;
                assert(a * p < 0x20_0000_0000_0000 * p) by (nonlinear_arith)
                    requires
                        a < 0x20_0000_0000_0000,
                        p > 0,
                ;
            } else {
                lemma2_to64_rest();
                lemma_pow2_strictly_increases(53, 1074);
            }
        }
        // From below.
        let least = f * p;
        assert(n >= least * d) by (nonlinear_arith)
            requires
                n * b == (a * d) * p,
                a >= b * f,
                least == f * p,
                b > 0,
        ;
        lemma_div_at_least(n, d, least);
        // From above.
        let q = n / d;
        let r = n % d;
        assert(2 * (m * d) <= 2 * n + d) by (nonlinear_arith)
            requires
                n == d * q + r,
                m == q || (m == q + 1 && 2 * r >= d),
                r >= 0,
                d > 0,
        ;
        assert(2 * (m * b) <= 2 * (a * p) + b) by (nonlinear_arith)
            requires
                2 * (m * d) <= 2 * n + d,
                n * b == (a * d) * p,
                d > 0,
                b > 0,
        ;
        assert((f + 1) * b == b * f + b) by (nonlinear_arith);
        assert(a * p <= ((f + 1) * b) * p - p) by (nonlinear_arith)
            requires
                a + 1 <= (f + 1) * b,
                p > 0,
        ;
        assert(m < (f + 1) * p) by (nonlinear_arith)
            requires
                2 * (m * b) <= 2 * (a * p) + b,
                a * p <= ((f + 1) * b) * p - p,
                b < 2 * p,
                b > 0,
        ;
        let rest = m - least;
        assert((f + 1) * p == f * p + p) by (nonlinear_arith);
        assert(p * f == f * p) by (nonlinear_arith);
        lemma_fundamental_div_mod_converse(m as int, p as int, f as int, rest);
        if k == 0 {
            lemma2_to64();
            assert(m * pow2(0) == m);
        }
    }
}

/// A number that is below one by a millionth or more is still below one when it is rounded.
pub proof fn lemma_nearest_stays_below_one(n: nat, d: nat)
    requires
        1_000_000 * n <= 999_999 * d,
        d > 0,
    ensures
        whole(nearest(n, d)) == 0,
{
    lemma2_to64();
    assert(999_999 * (pow2(0) * d) == 999_999 * d) by (nonlinear_arith)
        requires
            pow2(0) == 1,
    ;
    lemma_nearest_from_stays_below_one(n, d, 0);
}

proof fn lemma_nearest_from_stays_below_one(n: nat, d: nat, e: int)
    requires
        d > 0,
        -1074 <= e <= 0,
        n < 0x20_0000_0000_0000 * d,
        1_000_000 * n <= 999_999 * (pow2((-e) as nat) * d),
    ensures
        whole(nearest_from(n, d, e)) == 0,
    decreases e + 1074,
{
    let k = (-e) as nat;
    let p = pow2(k);
    if n < 0x10_0000_0000_0000 * d && e > -1074 {
        lemma_pow2_unfold(k + 1);
        assert((2 * p) * d == 2 * (p * d)) by (nonlinear_arith);
        lemma_nearest_from_stays_below_one(2 * n, d, e - 1);
    } else {
        let m = half_even(n, d);
        lemma2_to64();
        lemma2_to64_rest();
        if k < 53 {
            if k < 52 {
                lemma_pow2_strictly_increases(k, 52);
            }
            assert(p * d <= 0x10_0000_0000_0000 * d) by (nonlinear_arith)
                requires
                    p <= 0x10_0000_0000_0000,
            ;
            assert(false);
        }
        if k > 53 {
            lemma_pow2_strictly_increases(53, k);
        }
        let q = n / d;
        lemma_fundamental_div_mod(n as int, d as int);
        assert(1_000_000 * q <= 999_999 * p) by (nonlinear_arith)
            requires
                n == d * q + n % d,
                n % d >= 0,
                1_000_000 * n <= 999_999 * (p * d),
                d > 0,
        ;
        assert(m < p);
        lemma_small_div(m as int, p as int);
        lemma2_to64();
    }
}

/// A quotient is no more than what is divided.
pub(crate) proof fn lemma_div_no_more(n: nat, d: nat)
    requires
        d > 0,
    ensures
        n / d <= n,
{
    lemma_fundamental_div_mod(n as int, d as int);
    let q = n / d;
    assert(q <= n) by (nonlinear_arith)
        requires
            n == d * q + n % d,
            n % d >= 0,
            d >= 1,
            q >= 0,
    ;
}

/// The whole part of a number with a negative exponent is no more than its significand.
pub(crate) proof fn lemma_whole_at_most(m: nat, k: nat)
    requires
        k > 0,
    ensures
        whole((m, -(k as int))) <= m,
{
    lemma_pow2_pos(k);
    lemma_div_no_more(m, pow2(k));
}

} // verus!
