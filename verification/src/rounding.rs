//! That numbers are rounded to the nearest one, and how far a rounded number is from the exact one.

use vstd::arithmetic::div_mod::*;
use vstd::arithmetic::mul::*;
use vstd::arithmetic::power2::*;
use vstd::prelude::*;

use crate::binary64;

verus! {

/// Whether no whole number is nearer to `n / d` than `m`, and `m` is even where another is as near.
pub open spec fn is_nearest_whole(n: nat, d: nat, m: nat) -> bool {
    &&& 2 * (m * d) <= 2 * n + d
    &&& 2 * n <= 2 * (m * d) + d
    &&& 2 * (m * d) == 2 * n + d || 2 * n == 2 * (m * d) + d ==> m % 2 == 0
}

/// What is divided, and by what, in the value of a number with significand and exponent.
pub open spec fn upper(a: (nat, int)) -> nat {
    if a.1 >= 0 {
        a.0 * pow2(a.1 as nat)
    } else {
        a.0
    }
}

/// By what is divided in the value of a number with significand and exponent.
pub open spec fn lower(a: (nat, int)) -> nat {
    if a.1 >= 0 {
        1
    } else {
        pow2((-a.1) as nat)
    }
}

/// The whole number with rounding to even is a nearest one.
pub proof fn lemma_half_even(n: nat, d: nat)
    requires
        d > 0,
    ensures
        is_nearest_whole(n, d, binary64::half_even(n, d)),
{
    let q = n / d;
    let r = n % d;
    let m = binary64::half_even(n, d);
    lemma_fundamental_div_mod(n as int, d as int);
    assert(q * d == d * q) by (nonlinear_arith);
    assert((q + 1) * d == q * d + d) by (nonlinear_arith);
    if m == q + 1 && 2 * (m * d) == 2 * n + d {
        assert(q % 2 == 1);
    }
}

/// A number of the format: its significand has 53 bits, or its exponent is the least one.
pub open spec fn is_normal(a: (nat, int)) -> bool {
    &&& a.1 >= -1074
    &&& a.0 <= 0x20_0000_0000_0000
    &&& a.0 >= 0x10_0000_0000_0000 || a.1 == -1074
}

proof fn lemma_nearest_from(n: nat, d: nat, e: int)
    requires
        d > 0,
        e >= -1074,
    ensures
        ({
            let a = binary64::nearest_from(n, d, e);
            &&& is_normal(a)
            &&& n < 0x20_0000_0000_0000 * d ==> a.1 <= e
            &&& n >= 0x10_0000_0000_0000 * d ==> a.1 >= e
            &&& a.1 >= e ==> is_nearest_whole(n, d * pow2((a.1 - e) as nat), a.0)
            &&& a.1 <= e ==> is_nearest_whole(n * pow2((e - a.1) as nat), d, a.0)
            &&& a.1 >= e && a.1 > -1074 ==> n >= 0x10_0000_0000_0000 * (d * pow2((a.1 - e) as nat))
            &&& a.1 <= e && a.1 > -1074 ==> n * pow2((e - a.1) as nat) >= 0x10_0000_0000_0000 * d
            &&& a.1 >= e ==> n < 0x20_0000_0000_0000 * (d * pow2((a.1 - e) as nat))
            &&& a.1 <= e ==> n * pow2((e - a.1) as nat) < 0x20_0000_0000_0000 * d
        }),
    decreases binary64::excess(n, d), (if e > -1074 { e + 1074 } else { 0 }),
{
    let a = binary64::nearest_from(n, d, e);
    lemma2_to64();
    if n >= 0x20_0000_0000_0000 * d {
        lemma_nearest_from(n, 2 * d, e + 1);
        let k = (a.1 - e - 1) as nat;
        lemma_pow2_unfold(k + 1);
        assert((2 * d) * pow2(k) == d * (2 * pow2(k))) by (nonlinear_arith);
    } else if n < 0x10_0000_0000_0000 * d && e > -1074 {
        lemma_nearest_from(2 * n, d, e - 1);
        let k = (e - 1 - a.1) as nat;
        lemma_pow2_unfold(k + 1);
        assert((2 * n) * pow2(k) == n * (2 * pow2(k))) by (nonlinear_arith);
    } else {
        lemma_half_even(n, d);
        assert(d * pow2(0) == d && n * pow2(0) == n);
        let m = a.0;
        assert(m <= 0x20_0000_0000_0000) by (nonlinear_arith)
            requires
                2 * (m * d) <= 2 * n + d,
                n < 0x20_0000_0000_0000 * d,
                d > 0,
        ;
        if n >= 0x10_0000_0000_0000 * d {
            assert(m >= 0x10_0000_0000_0000) by (nonlinear_arith)
                requires
                    2 * n <= 2 * (m * d) + d,
                    n >= 0x10_0000_0000_0000 * d,
                    d > 0,
            ;
        }
    }
}

/// Rounding gives the nearest number of the format, and the one with an even significand where
/// two are equally near.
pub proof fn lemma_nearest(n: nat, d: nat)
    requires
        d > 0,
    ensures
        ({
            let a = binary64::nearest(n, d);
            &&& is_normal(a)
            &&& a.1 >= 0 ==> is_nearest_whole(n, d * pow2(a.1 as nat), a.0)
            &&& a.1 < 0 ==> is_nearest_whole(n * pow2((-a.1) as nat), d, a.0)
            &&& a.1 >= 0 ==> n >= 0x10_0000_0000_0000 * (d * pow2(a.1 as nat))
        }),
{
    lemma_nearest_from(n, d, 0);
}

/// Whether `a` is `n / d` up to one part in 2^53.
pub open spec fn is_close(a: (nat, int), n: nat, d: nat) -> bool {
    &&& (upper(a) * d) * 0x20_0000_0000_0000 <= (n * lower(a)) * 0x20_0000_0000_0001
    &&& (upper(a) * d) * 0x20_0000_0000_0000 >= (n * lower(a)) * 0x1f_ffff_ffff_ffff
}

/// A rounded number is off by no more than one part in 2^53, where it does not have the least
/// exponent; and zero is exact.
pub proof fn lemma_close(n: nat, d: nat)
    requires
        d > 0,
        n == 0 || binary64::nearest(n, d).1 > -1074,
    ensures
        is_close(binary64::nearest(n, d), n, d),
{
    let a = binary64::nearest(n, d);
    let m = a.0;
    lemma_nearest_from(n, d, 0);
    lemma2_to64();
    if a.1 >= 0 {
        let p = pow2(a.1 as nat);
        lemma_pow2_pos(a.1 as nat);
        let dd = d * p;
        assert(dd > 0) by (nonlinear_arith)
            requires
                dd == d * p,
                d > 0,
                p > 0,
        ;
        assert((m * p) * d == m * dd) by (nonlinear_arith)
            requires
                dd == d * p,
        ;
        assert(n * 1 == n);
    } else {
        let p = pow2((-a.1) as nat);
        lemma_pow2_pos((-a.1) as nat);
        if n == 0 {
            assert(n * p == 0) by (nonlinear_arith)
                requires
                    n == 0,
            ;
            assert(m == 0) by (nonlinear_arith)
                requires
                    2 * (m * d) <= d,
                    d > 0,
            ;
            assert(m * d == 0) by (nonlinear_arith)
                requires
                    m == 0,
            ;
        }
    }
}

/// A number that is not tiny has more than the least exponent.
pub proof fn lemma_not_tiny(n: nat, d: nat)
    requires
        d > 0,
        n * pow2(1000) >= d,
    ensures
        binary64::nearest(n, d).1 > -1074,
{
    let a = binary64::nearest(n, d);
    lemma_nearest_from(n, d, 0);
    lemma2_to64();
    lemma2_to64_rest();
    if a.1 == -1074 {
        let m = a.0;
        let p = pow2(1074);
        lemma_pow2_adds(1000, 74);
        lemma_pow2_adds(64, 10);
        let q = pow2(1000);
        let w = pow2(74);
        assert(w >= 0x40_0000_0000_0000);
        assert(n * p == (n * q) * w) by (nonlinear_arith)
            requires
                p == q * w,
        ;
        assert((n * q) * w >= d * w) by (nonlinear_arith)
            requires
                n * q >= d,
        ;
        assert(d * w >= 0x40_0000_0000_0000 * d) by (nonlinear_arith)
            requires
                w >= 0x40_0000_0000_0000,
        ;
        assert(m >= 0x30_0000_0000_0000) by (nonlinear_arith)
            requires
                2 * (n * p) <= 2 * (m * d) + d,
                n * p >= 0x40_0000_0000_0000 * d,
                d > 0,
        ;
    }
}

/// The whole part is the largest whole number that is not above.
pub proof fn lemma_whole(a: (nat, int))
    ensures
        binary64::whole(a) * lower(a) <= upper(a),
        upper(a) < (binary64::whole(a) + 1) * lower(a),
{
    let w = binary64::whole(a);
    if a.1 >= 0 {
        assert(w * 1 == w && (w + 1) * 1 == w + 1);
    } else {
        let p = pow2((-a.1) as nat);
        lemma_pow2_pos((-a.1) as nat);
        lemma_fundamental_div_mod(a.0 as int, p as int);
        assert(w * p == p * w) by (nonlinear_arith);
        assert((w + 1) * p == w * p + p) by (nonlinear_arith);
    }
}

/// What is rounded in a quotient, with the two sides of its value.
pub(crate) proof fn lemma_quotient_ratio(a: (nat, int), b: (nat, int))
    requires
        b.0 > 0,
    ensures
        ({
            let k = a.1 - b.1;
            let (n, d) = if k >= 0 {
                (a.0 * pow2(k as nat), b.0)
            } else {
                (a.0, b.0 * pow2((-k) as nat))
            };
            &&& d > 0
            &&& binary64::quotient(a, b) == binary64::nearest(n, d)
            &&& n * (lower(a) * upper(b)) == d * (upper(a) * lower(b))
        }),
{
    let k = a.1 - b.1;
    let (n, d) = if k >= 0 {
        (a.0 * pow2(k as nat), b.0)
    } else {
        (a.0, b.0 * pow2((-k) as nat))
    };
    if k < 0 {
        lemma_pow2_pos((-k) as nat);
        assert(d > 0) by (nonlinear_arith)
            requires
                d == b.0 * pow2((-k) as nat),
                b.0 > 0,
                pow2((-k) as nat) > 0,
        ;
    }
    // The powers of two on both sides: x for what the dividend is multiplied by, and so on.
    let x = if k >= 0 {
        pow2(k as nat)
    } else {
        1
    };
    let y = if k >= 0 {
        1
    } else {
        pow2((-k) as nat)
    };
    let ua = if a.1 >= 0 {
        pow2(a.1 as nat)
    } else {
        1
    };
    let ub = if b.1 >= 0 {
        pow2(b.1 as nat)
    } else {
        1
    };
    let (la, lb) = (lower(a), lower(b));
    lemma_four_powers(a.1, b.1);
    lemma2_to64();
    assert(x * (la * ub) == y * (ua * lb));
    assert(a.0 * 1 == a.0 && b.0 * 1 == b.0);
    assert(n == a.0 * x && d == b.0 * y && upper(a) == a.0 * ua && upper(b) == b.0 * ub);
    assert(n * (la * upper(b)) == (a.0 * b.0) * (x * (la * ub))) by (nonlinear_arith)
        requires
            n == a.0 * x,
            upper(b) == b.0 * ub,
    ;
    assert(d * (upper(a) * lb) == (a.0 * b.0) * (y * (ua * lb))) by (nonlinear_arith)
        requires
            d == b.0 * y,
            upper(a) == a.0 * ua,
    ;
}

spec fn up(e: int) -> nat {
    if e >= 0 {
        pow2(e as nat)
    } else {
        1
    }
}

proof fn lemma_four_powers(e: int, f: int)
    ensures
        up(e - f) * (up(-e) * up(f)) == up(f - e) * (up(e) * up(-f)),
{
    lemma2_to64();
    let (a, b, c) = (up(e - f), up(-e), up(f));
    let (x, y, z) = (up(f - e), up(e), up(-f));
    if e >= f {
        assert(x == 1);
        if f >= 0 {
            lemma_pow2_adds((e - f) as nat, f as nat);
        } else if e >= 0 {
            lemma_pow2_adds(e as nat, (-f) as nat);
        } else {
            lemma_pow2_adds((e - f) as nat, (-e) as nat);
        }
    } else {
        assert(a == 1);
        if e >= 0 {
            lemma_pow2_adds((f - e) as nat, e as nat);
        } else if f >= 0 {
            lemma_pow2_adds((-e) as nat, f as nat);
        } else {
            lemma_pow2_adds((f - e) as nat, (-f) as nat);
        }
    }
    assert(a * (b * c) == x * (y * z)) by (nonlinear_arith)
        requires
            e >= f ==> x == 1,
            e < f ==> a == 1,
            e >= f && f >= 0 ==> b == 1 && z == 1 && a * c == y,
            e >= f && f < 0 && e >= 0 ==> b == 1 && c == 1 && a == y * z,
            e >= f && f < 0 && e < 0 ==> c == 1 && y == 1 && a * b == z,
            e < f && e >= 0 ==> b == 1 && z == 1 && x * y == c,
            e < f && e < 0 && f >= 0 ==> y == 1 && z == 1 && x == b * c,
            e < f && e < 0 && f < 0 ==> c == 1 && y == 1 && x * z == b,
    ;
}

/// A quotient is a number of the format.
pub(crate) proof fn lemma_quotient_normal(a: (nat, int), b: (nat, int))
    requires
        b.0 > 0,
    ensures
        is_normal(binary64::quotient(a, b)),
{
    let k = a.1 - b.1;
    let (n, d) = if k >= 0 {
        (a.0 * pow2(k as nat), b.0)
    } else {
        (a.0, b.0 * pow2((-k) as nat))
    };
    lemma_quotient_ratio(a, b);
    lemma_nearest(n, d);
}

/// A ratio can be replaced by an equal one in an inequality.
proof fn lemma_cancel(u: nat, d: nat, c: nat, n: nat, l: nat, e: nat, x: nat, y: nat)
    requires
        (u * d) * c <= (n * l) * e,
        n * y == d * x,
        d > 0,
    ensures
        (u * y) * c <= (x * l) * e,
{
    let p = (u * y) * c;
    let q = (x * l) * e;
    lemma_mul_inequality(((u * d) * c) as int, ((n * l) * e) as int, y as int);
    assert(((u * d) * c) * y == d * ((u * y) * c)) by (nonlinear_arith);
    assert(((n * l) * e) * y == (n * y) * (l * e)) by (nonlinear_arith);
    assert((d * x) * (l * e) == d * ((x * l) * e)) by (nonlinear_arith);
    assert(p <= q) by (nonlinear_arith)
        requires
            d * p <= d * q,
            d > 0,
    ;
}

proof fn lemma_cancel_from_below(u: nat, d: nat, c: nat, n: nat, l: nat, e: nat, x: nat, y: nat)
    requires
        (u * d) * c >= (n * l) * e,
        n * y == d * x,
        d > 0,
    ensures
        (u * y) * c >= (x * l) * e,
{
    let p = (u * y) * c;
    let q = (x * l) * e;
    lemma_mul_inequality(((n * l) * e) as int, ((u * d) * c) as int, y as int);
    assert(((u * d) * c) * y == d * ((u * y) * c)) by (nonlinear_arith);
    assert(((n * l) * e) * y == (n * y) * (l * e)) by (nonlinear_arith);
    assert((d * x) * (l * e) == d * ((x * l) * e)) by (nonlinear_arith);
    assert(p >= q) by (nonlinear_arith)
        requires
            d * p >= d * q,
            d > 0,
    ;
}

/// A quotient is that of the two values up to one part in 2^53, where it is not tiny.
pub proof fn lemma_quotient_close(a: (nat, int), b: (nat, int))
    requires
        b.0 > 0,
        a.0 == 0 || binary64::quotient(a, b).1 > -1074,
    ensures
        is_close(binary64::quotient(a, b), upper(a) * lower(b), lower(a) * upper(b)),
{
    let q = binary64::quotient(a, b);
    let k = a.1 - b.1;
    let (n, d) = if k >= 0 {
        (a.0 * pow2(k as nat), b.0)
    } else {
        (a.0, b.0 * pow2((-k) as nat))
    };
    lemma_quotient_ratio(a, b);
    if a.0 == 0 {
        assert(n == 0) by (nonlinear_arith)
            requires
                n == 0 * pow2(k as nat) || n == 0,
        ;
    }
    lemma_close(n, d);
    let (u, l) = (upper(q), lower(q));
    let (x, y) = (upper(a) * lower(b), lower(a) * upper(b));
    lemma_cancel(u, d, 0x20_0000_0000_0000, n, l, 0x20_0000_0000_0001, x, y);
    lemma_cancel_from_below(u, d, 0x20_0000_0000_0000, n, l, 0x1f_ffff_ffff_ffff, x, y);
}

/// Whether `a` is `n / d` rounded to a number of the format: its exponent is the one that leaves 53
/// bits before the point, or the least one, and its significand is the nearest whole number.
pub open spec fn is_rounded(a: (nat, int), n: nat, d: nat) -> bool {
    let up = if a.1 >= 0 {
        n
    } else {
        n * pow2((-a.1) as nat)
    };
    let down = if a.1 >= 0 {
        d * pow2(a.1 as nat)
    } else {
        d
    };
    &&& is_normal(a)
    &&& is_nearest_whole(up, down, a.0)
    &&& up < 0x20_0000_0000_0000 * down
    &&& a.1 > -1074 ==> up >= 0x10_0000_0000_0000 * down
}

/// Rounding is to the nearest number of the format.
pub proof fn lemma_rounded(n: nat, d: nat)
    requires
        d > 0,
    ensures
        is_rounded(binary64::nearest(n, d), n, d),
{
    lemma_nearest_from(n, d, 0);
}

/// What is nearest to a ratio is nearest to an equal one.
proof fn lemma_same_ratio(n: nat, d: nat, x: nat, y: nat, m: nat)
    requires
        n * y == d * x,
        d > 0,
        y > 0,
        is_nearest_whole(n, d, m),
    ensures
        is_nearest_whole(x, y, m),
        n < 0x20_0000_0000_0000 * d ==> x < 0x20_0000_0000_0000 * y,
        n >= 0x10_0000_0000_0000 * d ==> x >= 0x10_0000_0000_0000 * y,
{
    let (md, my, dy, dx, ny) = (m * d, m * y, d * y, d * x, n * y);
    assert(md * y == d * my) by (nonlinear_arith)
        requires
            md == m * d,
            my == m * y,
    ;
    let mdy = d * my;
    // Each side times what it has not yet.
    assert((2 * md <= 2 * n + d) == (2 * mdy <= 2 * ny + dy)) by (nonlinear_arith)
        requires
            md * y == mdy,
            ny == n * y,
            dy == d * y,
            y > 0,
    ;
    assert((2 * n <= 2 * md + d) == (2 * ny <= 2 * mdy + dy)) by (nonlinear_arith)
        requires
            md * y == mdy,
            ny == n * y,
            dy == d * y,
            y > 0,
    ;
    assert((2 * my <= 2 * x + y) == (2 * mdy <= 2 * dx + dy)) by (nonlinear_arith)
        requires
            mdy == d * my,
            dx == d * x,
            dy == d * y,
            d > 0,
    ;
    assert((2 * x <= 2 * my + y) == (2 * dx <= 2 * mdy + dy)) by (nonlinear_arith)
        requires
            mdy == d * my,
            dx == d * x,
            dy == d * y,
            d > 0,
    ;
    assert((2 * md == 2 * n + d) == (2 * mdy == 2 * ny + dy)) by (nonlinear_arith)
        requires
            md * y == mdy,
            ny == n * y,
            dy == d * y,
            y > 0,
    ;
    assert((2 * n == 2 * md + d) == (2 * ny == 2 * mdy + dy)) by (nonlinear_arith)
        requires
            md * y == mdy,
            ny == n * y,
            dy == d * y,
            y > 0,
    ;
    assert((2 * my == 2 * x + y) == (2 * mdy == 2 * dx + dy)) by (nonlinear_arith)
        requires
            mdy == d * my,
            dx == d * x,
            dy == d * y,
            d > 0,
    ;
    assert((2 * x == 2 * my + y) == (2 * dx == 2 * mdy + dy)) by (nonlinear_arith)
        requires
            mdy == d * my,
            dx == d * x,
            dy == d * y,
            d > 0,
    ;
    if n < 0x20_0000_0000_0000 * d {
        assert(x < 0x20_0000_0000_0000 * y) by (nonlinear_arith)
            requires
                n < 0x20_0000_0000_0000 * d,
                n * y == d * x,
                d > 0,
                y > 0,
        ;
    }
    if n >= 0x10_0000_0000_0000 * d {
        assert(x >= 0x10_0000_0000_0000 * y) by (nonlinear_arith)
            requires
                n >= 0x10_0000_0000_0000 * d,
                n * y == d * x,
                d > 0,
                y > 0,
        ;
    }
}

/// What a ratio is rounded to, an equal one is rounded to.
pub proof fn lemma_rounded_same(a: (nat, int), n: nat, d: nat, x: nat, y: nat)
    requires
        is_rounded(a, n, d),
        n * y == d * x,
        d > 0,
        y > 0,
    ensures
        is_rounded(a, x, y),
{
    let s = if a.1 >= 0 {
        1
    } else {
        pow2((-a.1) as nat)
    };
    let t = if a.1 >= 0 {
        pow2(a.1 as nat)
    } else {
        1
    };
    if a.1 >= 0 {
        lemma_pow2_pos(a.1 as nat);
    }
    assert(n * 1 == n && d * 1 == d && x * 1 == x && y * 1 == y);
    let (ns, dt, xs, yt) = (n * s, d * t, x * s, y * t);
    assert(ns * yt == dt * xs) by (nonlinear_arith)
        requires
            ns == n * s,
            dt == d * t,
            xs == x * s,
            yt == y * t,
            n * y == d * x,
    ;
    assert(dt > 0 && yt > 0) by (nonlinear_arith)
        requires
            dt == d * t,
            yt == y * t,
            d > 0,
            y > 0,
            t > 0,
    ;
    lemma_same_ratio(ns, dt, xs, yt, a.0);
}

/// A quotient is that of the two values, rounded.
pub proof fn lemma_quotient_rounded(a: (nat, int), b: (nat, int))
    requires
        b.0 > 0,
    ensures
        is_rounded(binary64::quotient(a, b), upper(a) * lower(b), lower(a) * upper(b)),
{
    let k = a.1 - b.1;
    let (n, d) = if k >= 0 {
        (a.0 * pow2(k as nat), b.0)
    } else {
        (a.0, b.0 * pow2((-k) as nat))
    };
    lemma_quotient_ratio(a, b);
    lemma_rounded(n, d);
    lemma_sides_positive(a, b);
    lemma_rounded_same(
        binary64::quotient(a, b),
        n,
        d,
        upper(a) * lower(b),
        lower(a) * upper(b),
    );
}

/// What a quotient divides by is not zero.
pub(crate) proof fn lemma_sides_positive(a: (nat, int), b: (nat, int))
    requires
        b.0 > 0,
    ensures
        lower(a) * upper(b) > 0,
{
    let (l, u) = (lower(a), upper(b));
    if a.1 < 0 {
        lemma_pow2_pos((-a.1) as nat);
    }
    if b.1 >= 0 {
        lemma_pow2_pos(b.1 as nat);
        let p = pow2(b.1 as nat);
        assert(u > 0) by (nonlinear_arith)
            requires
                u == b.0 * p,
                b.0 > 0,
                p > 0,
        ;
    }
    assert(l * u > 0) by (nonlinear_arith)
        requires
            l > 0,
            u > 0,
    ;
}

} // verus!
