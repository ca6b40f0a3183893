//! What a report on the statistics shows.

use vstd::arithmetic::mul::*;
use vstd::arithmetic::power2::*;
use vstd::prelude::*;

use crate::binary64;
use crate::rounding;
use crate::stats;
use crate::stats::Counts;
use crate::text;

verus! {

/// Whether a whole rate is that of `recv` bytes in a time: the bits for each millisecond, rounded
/// down, up to one part in 2^51; and the largest `usize` where the rate is larger.
pub open spec fn is_rate(rate: nat, recv: nat, nanos: nat) -> bool {
    let less = 0x1f_ffff_ffff_ffffnat;
    let more = 0x20_0000_0000_0001nat;
    &&& rate <= usize::MAX
    &&& (rate * nanos) * (less * less) <= (8_000_000 * recv) * (more * more)
    &&& rate < usize::MAX ==> ((rate + 1) * nanos) * (more * more) > (8_000_000 * recv) * (less
        * less)
}

proof fn lemma_no_less(a: nat, b: nat, c: nat)
    requires
        a * c <= b * c,
        c > 0,
    ensures
        a <= b,
{
    assert(a <= b) by (nonlinear_arith)
        requires
            a * c <= b * c,
            c > 0,
    ;
}

/// From above: the bounds on each rounded number make one on the rate.
proof fn lemma_chain_above(
    k: nat,
    pk: nat,
    m: nat,
    pm: nat,
    t: nat,
    pt: nat,
    b: nat,
    pb: nat,
    u: nat,
    pu: nat,
    recv: nat,
    nanos: nat,
    c: nat,
    e: nat,
    f: nat,
)
    requires
        pm > 0,
        pt > 0,
        pb > 0,
        pu > 0,
        c > 0,
        u * pb == (8 * b) * pu,
        (k * (pu * m)) * c <= ((u * pm) * pk) * e,
        b * c <= (recv * pb) * e,
        (m * (pt * 1_000_000)) * c >= (t * pm) * f,
        t * c >= (nanos * pt) * f,
    ensures
        (k * nanos) * (f * f) <= ((8_000_000 * recv) * pk) * (e * e),
{
    // k * m * pb * c <= 8 * b * pm * pk * e
    assert((k * m * pb * c) <= (8 * b) * (pm * pk * e)) by {
        lemma_mul_inequality(
            ((k * (pu * m)) * c) as int,
            (((u * pm) * pk) * e) as int,
            pb as int,
        );
        assert(((k * (pu * m)) * c) * pb == (k * m * pb * c) * pu) by (nonlinear_arith);
        assert((((u * pm) * pk) * e) * pb == (u * pb) * (pm * pk * e)) by (nonlinear_arith);
        assert(((8 * b) * pu) * (pm * pk * e) == ((8 * b) * (pm * pk * e)) * pu)
            by (nonlinear_arith);
        lemma_no_less((k * m * pb * c), (8 * b) * (pm * pk * e), pu);
    }
    // k * m * c * c <= 8 * recv * pm * pk * e * e
    assert((k * m) * (c * c) <= (8 * recv) * (pm * pk * (e * e))) by {
        lemma_mul_inequality((k * m * pb * c) as int, ((8 * b) * (pm * pk * e)) as int, c as int);
        assert(((8 * b) * (pm * pk * e)) * c == (b * c) * (8 * (pm * pk * e))) by (nonlinear_arith);
        lemma_mul_inequality(
            (b * c) as int,
            ((recv * pb) * e) as int,
            (8 * (pm * pk * e)) as int,
        );
        assert(((recv * pb) * e) * (8 * (pm * pk * e)) == ((8 * recv) * (pm * pk * (e * e))) * pb)
            by (nonlinear_arith);
        assert((k * m * pb * c) * c == ((k * m) * (c * c)) * pb) by (nonlinear_arith);
        lemma_no_less((k * m) * (c * c), (8 * recv) * (pm * pk * (e * e)), pb);
    }
    // m * 10^6 * c * c >= nanos * pm * f * f
    assert((m * 1_000_000) * (c * c) >= (nanos * pm) * (f * f)) by {
        lemma_mul_inequality(
            ((t * pm) * f) as int,
            ((m * (pt * 1_000_000)) * c) as int,
            c as int,
        );
        assert(((t * pm) * f) * c == (t * c) * (pm * f)) by (nonlinear_arith);
        lemma_mul_inequality(((nanos * pt) * f) as int, (t * c) as int, (pm * f) as int);
        assert(((nanos * pt) * f) * (pm * f) == ((nanos * pm) * (f * f)) * pt) by (nonlinear_arith);
        assert(((m * (pt * 1_000_000)) * c) * c == ((m * 1_000_000) * (c * c)) * pt)
            by (nonlinear_arith);
        lemma_no_less((nanos * pm) * (f * f), (m * 1_000_000) * (c * c), pt);
    }
    lemma_mul_inequality(
        ((nanos * pm) * (f * f)) as int,
        ((m * 1_000_000) * (c * c)) as int,
        k as int,
    );
    lemma_mul_inequality(
        ((k * m) * (c * c)) as int,
        ((8 * recv) * (pm * pk * (e * e))) as int,
        1_000_000,
    );
    assert(((m * 1_000_000) * (c * c)) * k == ((k * m) * (c * c)) * 1_000_000) by (nonlinear_arith);
    assert(((nanos * pm) * (f * f)) * k == ((k * nanos) * (f * f)) * pm) by (nonlinear_arith);
    assert(((8 * recv) * (pm * pk * (e * e))) * 1_000_000 == (((8_000_000 * recv) * pk) * (e * e))
        * pm) by (nonlinear_arith);
    lemma_no_less((k * nanos) * (f * f), ((8_000_000 * recv) * pk) * (e * e), pm);
}

/// From below: the bounds on each rounded number make one on the rate.
proof fn lemma_chain_below(
    k: nat,
    pk: nat,
    m: nat,
    pm: nat,
    t: nat,
    pt: nat,
    b: nat,
    pb: nat,
    u: nat,
    pu: nat,
    recv: nat,
    nanos: nat,
    c: nat,
    e: nat,
    f: nat,
)
    requires
        pm > 0,
        pt > 0,
        pb > 0,
        pu > 0,
        c > 0,
        u * pb == (8 * b) * pu,
        (k * (pu * m)) * c >= ((u * pm) * pk) * f,
        b * c >= (recv * pb) * f,
        (m * (pt * 1_000_000)) * c <= (t * pm) * e,
        t * c <= (nanos * pt) * e,
    ensures
        (k * nanos) * (e * e) >= ((8_000_000 * recv) * pk) * (f * f),
{
    assert((k * m * pb * c) >= (8 * b) * (pm * pk * f)) by {
        lemma_mul_inequality(
            (((u * pm) * pk) * f) as int,
            ((k * (pu * m)) * c) as int,
            pb as int,
        );
        assert(((k * (pu * m)) * c) * pb == (k * m * pb * c) * pu) by (nonlinear_arith);
        assert((((u * pm) * pk) * f) * pb == (u * pb) * (pm * pk * f)) by (nonlinear_arith);
        assert(((8 * b) * pu) * (pm * pk * f) == ((8 * b) * (pm * pk * f)) * pu)
            by (nonlinear_arith);
        lemma_no_less((8 * b) * (pm * pk * f), (k * m * pb * c), pu);
    }
    assert((k * m) * (c * c) >= (8 * recv) * (pm * pk * (f * f))) by {
        lemma_mul_inequality(((8 * b) * (pm * pk * f)) as int, (k * m * pb * c) as int, c as int);
        assert(((8 * b) * (pm * pk * f)) * c == (b * c) * (8 * (pm * pk * f))) by (nonlinear_arith);
        lemma_mul_inequality(
            ((recv * pb) * f) as int,
            (b * c) as int,
            (8 * (pm * pk * f)) as int,
        );
        assert(((recv * pb) * f) * (8 * (pm * pk * f)) == ((8 * recv) * (pm * pk * (f * f))) * pb)
            by (nonlinear_arith);
        assert((k * m * pb * c) * c == ((k * m) * (c * c)) * pb) by (nonlinear_arith);
        lemma_no_less((8 * recv) * (pm * pk * (f * f)), (k * m) * (c * c), pb);
    }
    assert((m * 1_000_000) * (c * c) <= (nanos * pm) * (e * e)) by {
        lemma_mul_inequality(
            ((m * (pt * 1_000_000)) * c) as int,
            ((t * pm) * e) as int,
            c as int,
        );
        assert(((t * pm) * e) * c == (t * c) * (pm * e)) by (nonlinear_arith);
        lemma_mul_inequality((t * c) as int, ((nanos * pt) * e) as int, (pm * e) as int);
        assert(((nanos * pt) * e) * (pm * e) == ((nanos * pm) * (e * e)) * pt) by (nonlinear_arith);
        assert(((m * (pt * 1_000_000)) * c) * c == ((m * 1_000_000) * (c * c)) * pt)
            by (nonlinear_arith);
        lemma_no_less((m * 1_000_000) * (c * c), (nanos * pm) * (e * e), pt);
    }
    lemma_mul_inequality(
        ((m * 1_000_000) * (c * c)) as int,
        ((nanos * pm) * (e * e)) as int,
        k as int,
    );
    lemma_mul_inequality(
        ((8 * recv) * (pm * pk * (f * f))) as int,
        ((k * m) * (c * c)) as int,
        1_000_000,
    );
    assert(((m * 1_000_000) * (c * c)) * k == ((k * m) * (c * c)) * 1_000_000) by (nonlinear_arith);
    assert(((nanos * pm) * (e * e)) * k == ((k * nanos) * (e * e)) * pm) by (nonlinear_arith);
    assert(((8 * recv) * (pm * pk * (f * f))) * 1_000_000 == (((8_000_000 * recv) * pk) * (f * f))
        * pm) by (nonlinear_arith);
    lemma_no_less(((8_000_000 * recv) * pk) * (f * f), (k * nanos) * (e * e), pm);
}

/// Adding three to an exponent multiplies by eight.
proof fn lemma_times_eight(b: (nat, int))
    ensures
        rounding::upper((b.0, b.1 + 3)) * rounding::lower(b) == (8 * rounding::upper(b))
            * rounding::lower((b.0, b.1 + 3)),
{
    lemma2_to64();
    let e = b.1;
    let m = b.0;
    if e >= 0 {
        lemma_pow2_adds(3, e as nat);
        let p = pow2(e as nat);
        assert(m * (8 * p) == 8 * (m * p)) by (nonlinear_arith);
        assert((m * pow2((e + 3) as nat)) * 1 == (8 * (m * p)) * 1);
    } else if e >= -3 {
        lemma_pow2_adds((e + 3) as nat, (-e) as nat);
        let p = pow2((e + 3) as nat);
        let q = pow2((-e) as nat);
        assert(p * q == 8);
        assert((m * p) * q == m * (p * q)) by (nonlinear_arith);
        assert((8 * m) * 1 == 8 * m);
    } else {
        lemma_pow2_adds(3, (-e - 3) as nat);
        let p = pow2((-e - 3) as nat);
        assert(pow2((-e) as nat) == 8 * p);
        assert(m * (8 * p) == (8 * m) * p) by (nonlinear_arith);
    }
}

proof fn lemma_lower_positive(a: (nat, int))
    ensures
        rounding::lower(a) > 0,
{
    if a.1 < 0 {
        lemma_pow2_pos((-a.1) as nat);
    }
}

/// A number whose whole part is not zero does not have the least exponent.
proof fn lemma_not_least(a: (nat, int))
    requires
        rounding::is_normal(a),
        binary64::whole(a) > 0,
    ensures
        a.1 > -1074,
        a.0 > 0,
{
    if a.0 == 0 {
        binary64::lemma_whole_zero(a.1);
    }
    if a.1 == -1074 {
        lemma2_to64();
        lemma2_to64_rest();
        lemma_pow2_strictly_increases(54, 1074);
        binary64::lemma_small_div(a.0 as int, pow2(1074) as int);
    }
}

/// The rate is that of the bytes in the time, for every number of bytes and every time of a
/// millisecond or more below 2^100 nanoseconds, which is more than there are in a duration.
pub proof fn lemma_rate_is_bits_over_time(recv: nat, nanos: nat)
    requires
        1_000_000 <= nanos < 0x10_0000_0000_0000_0000_0000_0000,
    ensures
        is_rate(stats::rate(recv, nanos), recv, nanos),
{
    let c = 0x20_0000_0000_0000nat;
    let e = 0x20_0000_0000_0001nat;
    let f = 0x1f_ffff_ffff_ffffnat;
    let million = (1_000_000nat, 0int);
    let t = binary64::nearest(nanos, 1);
    let ms = binary64::quotient(t, million);
    let b = binary64::nearest(recv, 1);
    let bits = (b.0, b.1 + 3);
    let k = binary64::quotient(bits, ms);
    lemma2_to64();
    lemma2_to64_rest();
    assert(pow2(1000) >= 1) by {
        lemma_pow2_pos(1000);
    }
    assert(nanos * pow2(1000) >= 1) by (nonlinear_arith)
        requires
            nanos >= 1,
            pow2(1000) >= 1,
    ;
    rounding::lemma_not_tiny(nanos, 1);
    rounding::lemma_close(nanos, 1);
    let (tu, tl) = (rounding::upper(t), rounding::lower(t));
    lemma_lower_positive(t);
    assert(tu * 1 == tu);
    // The milliseconds.
    stats::lemma_milliseconds(nanos);
    rounding::lemma_quotient_normal(t, million);
    lemma_not_least(ms);
    rounding::lemma_quotient_close(t, million);
    assert(rounding::upper(million) == 1_000_000 && rounding::lower(million) == 1);
    let (mu, ml) = (rounding::upper(ms), rounding::lower(ms));
    lemma_lower_positive(ms);
    // The bits.
    if recv > 0 {
        assert(recv * pow2(1000) >= 1) by (nonlinear_arith)
            requires
                recv >= 1,
                pow2(1000) >= 1,
        ;
        rounding::lemma_not_tiny(recv, 1);
    }
    rounding::lemma_close(recv, 1);
    let (bu, bl) = (rounding::upper(b), rounding::lower(b));
    lemma_lower_positive(b);
    assert(bu * 1 == bu);
    let (uu, ul) = (rounding::upper(bits), rounding::lower(bits));
    lemma_lower_positive(bits);
    lemma_times_eight(b);
    // The quotient.
    if b.0 > 0 {
        assert(recv > 0) by {
            if recv == 0 {
                assert(recv * bl == 0) by (nonlinear_arith)
                    requires
                        recv == 0,
                ;
                assert(bu == 0);
                lemma_upper_positive(b);
            }
        }
        lemma_kilobits_not_tiny(t, ms, b, recv, nanos);
    }
    rounding::lemma_quotient_close(bits, ms);
    let (ku, kl) = (rounding::upper(k), rounding::lower(k));
    lemma_lower_positive(k);
    assert(mu * (tl * 1_000_000) == mu * (tl * rounding::upper(million)));
    assert((tu * 1) * ml == tu * ml);
    lemma_chain_above(ku, kl, mu, ml, tu, tl, bu, bl, uu, ul, recv, nanos, c, e, f);
    lemma_chain_below(ku, kl, mu, ml, tu, tl, bu, bl, uu, ul, recv, nanos, c, e, f);
    // The whole part.
    rounding::lemma_whole(k);
    let w = binary64::whole(k);
    let r = stats::rate(recv, nanos);
    assert(k == stats::kilobits(recv, nanos));
    assert((r * nanos) * (f * f) <= (8_000_000 * recv) * (e * e)) by {
        assert(r * kl <= ku) by (nonlinear_arith)
            requires
                r <= w,
                w * kl <= ku,
        ;
        lemma_mul_inequality((r * kl) as int, ku as int, (nanos * (f * f)) as int);
        let ff = f * f;
        let ee = e * e;
        assert(ku * (nanos * ff) == (ku * nanos) * ff) by (nonlinear_arith);
        assert((r * kl) * (nanos * ff) == ((r * nanos) * ff) * kl) by (nonlinear_arith);
        assert(((8_000_000 * recv) * kl) * ee == ((8_000_000 * recv) * ee) * kl)
            by (nonlinear_arith);
        lemma_no_less((r * nanos) * ff, (8_000_000 * recv) * ee, kl);
    }
    if r < usize::MAX {
        assert(r == w);
        let ff = f * f;
        let ee = e * e;
        let x = ((r + 1) * nanos) * ee;
        let y = (8_000_000 * recv) * ff;
        assert((ku + 1) * (nanos * ee) <= x * kl) by {
            lemma_mul_inequality((ku + 1) as int, ((r + 1) * kl) as int, (nanos * ee) as int);
            assert(((r + 1) * kl) * (nanos * ee) == (((r + 1) * nanos) * ee) * kl)
                by (nonlinear_arith);
        }
        assert((ku + 1) * (nanos * ee) > (ku * nanos) * ee) by (nonlinear_arith)
            requires
                nanos > 0,
                ee > 0,
        ;
        assert(((8_000_000 * recv) * kl) * ff == ((8_000_000 * recv) * ff) * kl)
            by (nonlinear_arith);
        assert(x > y) by (nonlinear_arith)
            requires
                y * kl < x * kl,
                kl > 0,
        ;
    }
}

proof fn lemma_upper_positive(a: (nat, int))
    requires
        a.0 > 0,
    ensures
        rounding::upper(a) > 0,
{
    if a.1 >= 0 {
        lemma_pow2_pos(a.1 as nat);
        assert(a.0 * pow2(a.1 as nat) > 0) by (nonlinear_arith)
            requires
                a.0 > 0,
                pow2(a.1 as nat) > 0,
        ;
    }
}

proof fn lemma_kilobits_not_tiny(
    t: (nat, int),
    ms: (nat, int),
    b: (nat, int),
    recv: nat,
    nanos: nat,
)
    requires
        t == binary64::nearest(nanos, 1),
        ms == binary64::quotient(t, (1_000_000nat, 0int)),
        b == binary64::nearest(recv, 1),
        recv > 0,
        ms.0 > 0,
        1_000_000 <= nanos < 0x10_0000_0000_0000_0000_0000_0000,
        rounding::is_close(t, nanos, 1),
        rounding::is_close(ms, rounding::upper(t) * 1, rounding::lower(t) * 1_000_000),
        rounding::is_close(b, recv, 1),
    ensures
        binary64::quotient((b.0, b.1 + 3), ms).1 > -1074,
{
    let bits = (b.0, b.1 + 3);
    let (tu, tl) = (rounding::upper(t), rounding::lower(t));
    let (mu, ml) = (rounding::upper(ms), rounding::lower(ms));
    let (bu, bl) = (rounding::upper(b), rounding::lower(b));
    let (uu, ul) = (rounding::upper(bits), rounding::lower(bits));
    lemma_lower_positive(t);
    lemma_lower_positive(ms);
    lemma_lower_positive(b);
    lemma_lower_positive(bits);
    lemma_times_eight(b);
    lemma_upper_positive(ms);
    let z = 0x10_0000_0000_0000_0000_0000_0000nat;
    // The time is no more than 4 * 2^100, in each of the units.
    assert(tu <= (2 * z) * tl) by (nonlinear_arith)
        requires
            (tu * 1) * 0x20_0000_0000_0000 <= (nanos * tl) * 0x20_0000_0000_0001,
            nanos <= z,
    ;
    assert(mu <= (4 * z) * ml) by {
        let a = tu * ml;
        assert(mu * tl <= 2 * a) by (nonlinear_arith)
            requires
                (mu * (tl * 1_000_000)) * 0x20_0000_0000_0000 <= (tu * 1 * ml)
                    * 0x20_0000_0000_0001,
                a == tu * ml,
        ;
        lemma_mul_inequality(tu as int, ((2 * z) * tl) as int, ml as int);
        assert(2 * (((2 * z) * tl) * ml) == ((4 * z) * ml) * tl) by (nonlinear_arith);
        lemma_no_less(mu, (4 * z) * ml, tl);
    }
    // The bits are at least one.
    assert(uu >= ul) by {
        assert(2 * bu >= bl) by (nonlinear_arith)
            requires
                (bu * 1) * 0x20_0000_0000_0000 >= (recv * bl) * 0x1f_ffff_ffff_ffff,
                recv >= 1,
        ;
        assert(uu * bl >= ul * bl) by (nonlinear_arith)
            requires
                uu * bl == (8 * bu) * ul,
                2 * bu >= bl,
        ;
        lemma_no_less(ul, uu, bl);
    }
    let k = bits.1 - ms.1;
    let (n, d) = if k >= 0 {
        (bits.0 * pow2(k as nat), ms.0)
    } else {
        (bits.0, ms.0 * pow2((-k) as nat))
    };
    rounding::lemma_quotient_ratio(bits, ms);
    let q = 4 * z;
    let (x, y) = (uu * ml, ul * mu);
    assert(y <= q * x) by (nonlinear_arith)
        requires
            y == ul * mu,
            x == uu * ml,
            uu >= ul,
            mu <= q * ml,
    ;
    assert(y > 0) by (nonlinear_arith)
        requires
            y == ul * mu,
            ul > 0,
            mu > 0,
    ;
    assert(d <= n * q) by {
        lemma_mul_inequality(y as int, (q * x) as int, d as int);
        assert((q * x) * d == q * (d * x)) by (nonlinear_arith);
        assert(q * (n * y) == (n * q) * y) by (nonlinear_arith);
        assert(y * d == d * y) by (nonlinear_arith);
        lemma_no_less(d, n * q, y);
    }
    lemma2_to64();
    lemma2_to64_rest();
    lemma_pow2_adds(64, 40);
    lemma_pow2_strictly_increases(104, 1000);
    assert(q <= pow2(1000));
    assert(n * pow2(1000) >= d) by (nonlinear_arith)
        requires
            d <= n * q,
            q <= pow2(1000),
    ;
    rounding::lemma_not_tiny(n, d);
}

/// Whether a text shows a number in decimal: digits with the number as their value and no zero in
/// front, in groups of three from the end with a space before each where there are more than
/// three digits.
pub open spec fn shows_number(s: Seq<char>, n: nat) -> bool {
    let digits = s.filter(|c: char| c != ' ');
    let more = digits.len() > 3;
    &&& digits.len() > 0
    &&& forall|i: int| 0 <= i < digits.len() ==> '0' <= #[trigger] digits[i] <= '9'
    &&& digits.len() > 1 ==> digits[0] != '0'
    &&& text::digits_value(digits, 10) == n
    &&& s.len() == digits.len() + if more {
        digits.len() / 3
    } else {
        0
    }
    &&& forall|i: int| 0 <= i < s.len() ==> (#[trigger] s[i] == ' ' <==> more && (s.len() - i) % 4 == 0)
}

/// What stands before the word for the connections in a report.
pub open spec fn conns_part(t: Seq<char>) -> Seq<char> {
    t.take(text::find(t, 'c') - 1)
}

/// What stands behind the comma and before the unit of the rate in a report.
pub open spec fn rate_part(t: Seq<char>) -> Seq<char> {
    let rest = t.skip(text::find(t, ',') as int + 2);
    rest.take(text::find(rest, 'K') - 1)
}

proof fn lemma_chunks_spaces(s: Seq<char>)
    requires
        s.len() % 3 == 0,
        text::lacks(s, ' '),
    ensures
        stats::chunks(s).len() == s.len() + s.len() / 3,
        forall|i: int|
            0 <= i < stats::chunks(s).len() ==> (#[trigger] stats::chunks(s)[i] == ' ' <==> i % 4
                == 0),
    decreases s.len(),
{
    if s.len() > 0 {
        let tail = s.skip(3);
        lemma_chunks_spaces(tail);
        let t = stats::chunks(s);
        let u = stats::chunks(tail);
        let head = seq![' '] + s.take(3);
        assert(t == head + u);
        assert forall|i: int| 0 <= i < t.len() implies (#[trigger] t[i] == ' ' <==> i % 4 == 0) by {
            if i < 4 {
                if i > 0 {
                    assert(t[i] == s[i - 1]);
                }
            } else {
                assert(t[i] == u[i - 4]);
            }
        }
    }
}

proof fn lemma_fourths(q: int, x: int)
    ensures
        (4 * q - x) % 4 == 0 <==> x % 4 == 0,
{
}

/// Where the spaces stand in a number of more than three digits.
proof fn lemma_group_spaces(d: Seq<char>)
    requires
        d.len() > 3,
        text::lacks(d, ' '),
    ensures
        stats::grouped(d).len() == d.len() + d.len() / 3,
        forall|i: int|
            0 <= i < stats::grouped(d).len() ==> (#[trigger] stats::grouped(d)[i] == ' ' <==> (
            stats::grouped(d).len() - i) % 4 == 0),
{
    let s = stats::grouped(d);
    let k = (d.len() % 3) as int;
    let q = (d.len() / 3) as int;
    let tail = d.skip(k);
    lemma_chunks_spaces(tail);
    let u = stats::chunks(tail);
    assert(tail.len() == 3 * q);
    assert(u.len() == 4 * q);
    assert(s == d.take(k) + u);
    assert forall|i: int| 0 <= i < s.len() implies (#[trigger] s[i] == ' ' <==> (s.len() - i) % 4
        == 0) by {
        lemma_fourths(q, i - k);
        if i < k {
            assert(s[i] == d[i]);
        } else {
            assert(s[i] == u[i - k]);
        }
    }
}

/// A number in groups is shown.
proof fn lemma_shows_number(n: nat)
    ensures
        shows_number(stats::grouped(stats::decimal_text(n)), n),
        text::lacks(stats::grouped(stats::decimal_text(n)), 'c'),
        text::lacks(stats::grouped(stats::decimal_text(n)), ','),
        text::lacks(stats::grouped(stats::decimal_text(n)), 'K'),
{
    let d = stats::decimal_text(n);
    let s = stats::grouped(d);
    stats::lemma_grouped_shows_number(n);
    text::lemma_written(n, 10);
    text::lemma_all_digits(d);
    assert(s.filter(|c: char| c != ' ') == d);
    assert(text::lacks(d, ' '));
    if d.len() > 3 {
        lemma_group_spaces(d);
    }
    assert(text::lacks(s, 'c') && text::lacks(s, ',') && text::lacks(s, 'K')) by {
        lemma_grouped_chars(s, d);
    }
}

/// A text that is digits without its spaces has no other character.
proof fn lemma_grouped_chars(s: Seq<char>, d: Seq<char>)
    requires
        stats::without_spaces(s) == d,
        forall|i: int| 0 <= i < d.len() ==> '0' <= #[trigger] d[i] <= '9',
    ensures
        text::lacks(s, 'c'),
        text::lacks(s, ','),
        text::lacks(s, 'K'),
{
    assert forall|i: int| 0 <= i < s.len() implies s[i] != 'c' && s[i] != ',' && #[trigger] s[i]
        != 'K' by {
        if s[i] != ' ' {
            lemma_filter_keeps(s, i);
            assert(d.contains(s[i]));
            let j = choose|j: int| 0 <= j < d.len() && d[j] == s[i];
            assert('0' <= d[j] <= '9');
        }
    }
}

proof fn lemma_filter_keeps(s: Seq<char>, i: int)
    requires
        0 <= i < s.len(),
        s[i] != ' ',
    ensures
        stats::without_spaces(s).contains(s[i]),
    decreases s.len(),
{
    let keep = |c: char| c != ' ';
    reveal(Seq::filter);
    let front = s.drop_last();
    let f = s.filter(keep);
    if i == s.len() - 1 {
        assert(f[f.len() - 1] == s[i]);
    } else {
        lemma_filter_keeps(front, i);
        let g = front.filter(keep);
        assert(g.contains(front[i]));
        let j = choose|j: int| 0 <= j < g.len() && g[j] == front[i];
        assert(f[j] == s[i]);
    }
}

/// A report shows the open connections, and the rate of all the bytes that came in over the time;
/// there is one exactly from a millisecond on.
pub proof fn lemma_report(counts: Counts, nanos: nat)
    requires
        nanos < 0x10_0000_0000_0000_0000_0000_0000,
    ensures
        stats::report(counts, nanos) is Some <==> nanos >= 1_000_000,
        stats::report(counts, nanos) matches Some(t) ==> {
            &&& t == conns_part(t) + " conns, "@ + rate_part(t) + " Kb/s in"@
            &&& shows_number(conns_part(t), counts.conns as nat)
            &&& exists|rate: nat|
                shows_number(rate_part(t), rate) && #[trigger] is_rate(
                    rate,
                    counts.recv as nat,
                    nanos,
                )
        },
{
    if nanos >= 1_000_000 {
        let rate = stats::rate(counts.recv as nat, nanos);
        lemma_rate_is_bits_over_time(counts.recv as nat, nanos);
        lemma_report_parts(counts, nanos);
    }
}

/// Whether a whole rate comes from `recv` bytes and a time by these roundings to numbers of the
/// format: `t` of the nanoseconds, `ms` of the milliseconds, `b` of the bytes and `k` of the bits
/// for each millisecond. The rate is the whole part of the last, or the largest `usize` where that
/// is less.
pub open spec fn is_rate_by(
    rate: nat,
    recv: nat,
    nanos: nat,
    t: (nat, int),
    ms: (nat, int),
    b: (nat, int),
    k: (nat, int),
) -> bool {
    &&& rounding::is_rounded(t, nanos, 1)
    &&& rounding::is_rounded(ms, rounding::upper(t), rounding::lower(t) * 1_000_000)
    &&& rounding::is_rounded(b, recv, 1)
    &&& rounding::is_rounded(
        k,
        8 * rounding::upper(b) * rounding::lower(ms),
        rounding::lower(b) * rounding::upper(ms),
    )
    &&& rate <= usize::MAX
    &&& rate * rounding::lower(k) <= rounding::upper(k)
    &&& rate < usize::MAX ==> rounding::upper(k) < (rate + 1) * rounding::lower(k)
}

/// The rate is the whole part of the bits for each millisecond, with each step rounded to the
/// nearest number of the format.
pub proof fn lemma_rate_roundings(recv: nat, nanos: nat)
    requires
        nanos >= 1_000_000,
    ensures
        exists|t: (nat, int), ms: (nat, int), b: (nat, int), k: (nat, int)|
            is_rate_by(stats::rate(recv, nanos), recv, nanos, t, ms, b, k),
{
    let million = (1_000_000nat, 0int);
    let t = binary64::nearest(nanos, 1);
    let ms = binary64::quotient(t, million);
    let b = binary64::nearest(recv, 1);
    let bits = (b.0, b.1 + 3);
    let k = binary64::quotient(bits, ms);
    lemma2_to64();
    rounding::lemma_rounded(nanos, 1);
    rounding::lemma_rounded(recv, 1);
    rounding::lemma_quotient_rounded(t, million);
    assert(1_000_000nat * pow2(0) == 1_000_000);
    assert(rounding::upper(t) * 1 == rounding::upper(t));
    stats::lemma_milliseconds(nanos);
    if ms.0 == 0 {
        binary64::lemma_whole_zero(ms.1);
    }
    rounding::lemma_quotient_rounded(bits, ms);
    // Three more bits are the same as a factor of eight.
    let (bu, bl) = (rounding::upper(b), rounding::lower(b));
    let (u, l) = (rounding::upper(bits), rounding::lower(bits));
    lemma_times_eight(b);
    rounding::lemma_sides_positive(bits, ms);
    rounding::lemma_sides_positive(b, ms);
    let (x, y) = (rounding::lower(ms), rounding::upper(ms));
    assert((u * x) * (bl * y) == (l * y) * (8 * bu * x)) by (nonlinear_arith)
        requires
            u * bl == (8 * bu) * l,
    ;
    rounding::lemma_rounded_same(k, u * x, l * y, 8 * bu * x, bl * y);
    rounding::lemma_whole(k);
    let w = binary64::whole(k);
    let rate = stats::rate(recv, nanos);
    let kl = rounding::lower(k);
    assert(rate * kl <= rounding::upper(k)) by (nonlinear_arith)
        requires
            rate <= w,
            w * kl <= rounding::upper(k),
    ;
    assert(is_rate_by(rate, recv, nanos, t, ms, b, k));
}

/// The two parts of a report.
proof fn lemma_report_parts(counts: Counts, nanos: nat)
    requires
        nanos >= 1_000_000,
    ensures
        ({
            let t = stats::report(counts, nanos).unwrap();
            let rate = stats::rate(counts.recv as nat, nanos);
            &&& stats::report(counts, nanos) is Some
            &&& t == conns_part(t) + " conns, "@ + rate_part(t) + " Kb/s in"@
            &&& shows_number(conns_part(t), counts.conns as nat)
            &&& shows_number(rate_part(t), rate)
            &&& rate_part(t) == stats::grouped(stats::decimal_text(rate))
        }),
{
    let t = stats::report(counts, nanos).unwrap();
    let rate = stats::rate(counts.recv as nat, nanos);
    let a = stats::grouped(stats::decimal_text(counts.conns as nat));
    let b = stats::grouped(stats::decimal_text(rate));
    lemma_shows_number(counts.conns as nat);
    lemma_shows_number(rate);
    reveal_strlit(" conns, ");
    reveal_strlit(" Kb/s in");
    let k = a.len() as int;
    assert(t =~= a + " conns, "@ + b + " Kb/s in"@);
    assert forall|j: int| 0 <= j < k + 1 implies t[j] != 'c' by {
        if j < k {
            assert(t[j] == a[j]);
        }
    }
    text::lemma_find_is(t, 'c', k + 1);
    assert(conns_part(t) =~= a);
    assert forall|j: int| 0 <= j < k + 6 implies t[j] != ',' by {
        if j < k {
            assert(t[j] == a[j]);
        } else {
            assert(t[j] == " conns, "@[j - k]);
        }
    }
    text::lemma_find_is(t, ',', k + 6);
    let rest = t.skip(k + 8);
    let m = b.len() as int;
    assert(rest =~= b + " Kb/s in"@);
    assert forall|j: int| 0 <= j < m + 1 implies rest[j] != 'K' by {
        if j < m {
            assert(rest[j] == b[j]);
        }
    }
    text::lemma_find_is(rest, 'K', m + 1);
    assert(rate_part(t) =~= b);
}

/// The rate that a report shows is exactly the one that the roundings give.
pub proof fn lemma_report_roundings(counts: Counts, nanos: nat)
    requires
        nanos >= 1_000_000,
    ensures
        stats::report(counts, nanos) is Some,
        exists|rate: nat, t: (nat, int), ms: (nat, int), b: (nat, int), k: (nat, int)|
            shows_number(rate_part(stats::report(counts, nanos).unwrap()), rate)
                && #[trigger] is_rate_by(rate, counts.recv as nat, nanos, t, ms, b, k),
{
    let rate = stats::rate(counts.recv as nat, nanos);
    lemma_report_parts(counts, nanos);
    lemma_rate_roundings(counts.recv as nat, nanos);
    let (t, ms, b, k) = choose|t: (nat, int), ms: (nat, int), b: (nat, int), k: (nat, int)|
        is_rate_by(rate, counts.recv as nat, nanos, t, ms, b, k);
    assert(is_rate_by(rate, counts.recv as nat, nanos, t, ms, b, k));
}

/// Reports that differ only in the number of open connections show the same rate.
pub proof fn lemma_rate_ignores_connections(a: Counts, b: Counts, nanos: nat)
    requires
        a.recv == b.recv,
        nanos >= 1_000_000,
    ensures
        rate_part(stats::report(a, nanos).unwrap()) == rate_part(stats::report(b, nanos).unwrap()),
{
    lemma_report_parts(a, nanos);
    lemma_report_parts(b, nanos);
}

/// Over whole milliseconds a report shows the whole bits for each of them, as long as the bits
/// and the nanoseconds are below 2^53.
pub proof fn lemma_report_exact(counts: Counts, millis: nat)
    requires
        8 * counts.recv < 0x20_0000_0000_0000,
        0 < millis,
        1_000_000 * millis < 0x20_0000_0000_0000,
        8 * counts.recv / millis as int <= usize::MAX,
    ensures
        stats::report(counts, 1_000_000 * millis) matches Some(t) && shows_number(
            rate_part(t),
            (8 * counts.recv / millis as int) as nat,
        ),
{
    stats::lemma_rate(counts.recv as nat, millis);
    lemma_report_parts(counts, 1_000_000 * millis);
}

/// The counts go up and down by one with the connections, and up by the bytes that come in, each
/// modulo the number of `usize` values; a report sets the bytes to zero.
pub proof fn lemma_counts(c: Counts, bytes: usize)
    ensures
        c.connected().recv == c.recv,
        c.disconnected().recv == c.recv,
        c.received(bytes).conns == c.conns,
        c.reported() == (Counts { conns: c.conns, recv: 0 }),
        c.connected().conns == (c.conns + 1) % (usize::MAX + 1),
        c.disconnected().conns == (c.conns - 1) % (usize::MAX + 1),
        c.received(bytes).recv == (c.recv + bytes) % (usize::MAX + 1),
{
    let n = usize::MAX + 1;
    assert(0 <= c.conns < n && 0 <= c.recv < n && 0 <= bytes < n);
    lemma_mod_step(c.conns + 1, n);
    lemma_mod_step(c.recv + bytes, n);
    if c.conns == 0 {
        vstd::arithmetic::div_mod::lemma_fundamental_div_mod_converse(-1, n, -1, n - 1);
    } else {
        lemma_mod_step(c.conns - 1, n);
    }
}

proof fn lemma_mod_step(x: int, n: int)
    requires
        0 <= x < 2 * n,
    ensures
        x % n == if x < n {
            x
        } else {
            x - n
        },
{
    if x < n {
        vstd::arithmetic::div_mod::lemma_fundamental_div_mod_converse(x, n, 0, x);
    } else {
        vstd::arithmetic::div_mod::lemma_fundamental_div_mod_converse(x, n, 1, x - n);
    }
}

/// What each call on the statistics does to the counts.
pub proof fn lemma_calls(c: Counts, bytes: usize, nanos: nat)
    ensures
        c.after_call(stats::Call::AddConnection) == c.connected(),
        c.after_call(stats::Call::RemoveConnection) == c.disconnected(),
        c.after_call(stats::Call::PushReceivedBytes(bytes)) == c.received(bytes),
        nanos < 1_000_000 ==> c.after_call(stats::Call::GetSnapshot(nanos)) == c,
        nanos >= 1_000_000 ==> c.after_call(stats::Call::GetSnapshot(nanos)) == (Counts {
            conns: c.conns,
            recv: 0,
        }),
{
}

} // verus!
