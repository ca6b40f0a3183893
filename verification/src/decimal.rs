//! How numbers of seconds are written, and what time they stand for.

use vstd::arithmetic::mul::*;
use vstd::arithmetic::power::*;
use vstd::arithmetic::power2::*;
use vstd::prelude::*;

use crate::binary64;
use crate::cli_args;
use crate::cli_args::TimeoutError;
use crate::duration;
use crate::number;
use crate::number::Literal;
use crate::number::Magnitude;
use crate::rounding;
use crate::text;

verus! {

/// The parts of an exponent: `e` or `E`, an optional sign, and digits.
pub struct ExponentParts {
    pub mark: char,
    pub sign: Seq<char>,
    pub digits: Seq<char>,
}

/// The parts of a decimal number without its sign.
pub struct DecimalParts {
    pub whole: Seq<char>,
    pub point: bool,
    pub fraction: Seq<char>,
    pub exponent: Option<ExponentParts>,
}

/// Whether every character is a decimal digit.
pub open spec fn are_decimal_digits(s: Seq<char>) -> bool {
    forall|i: int| 0 <= i < s.len() ==> '0' <= #[trigger] s[i] <= '9'
}

/// Whether a text is an optional sign.
pub open spec fn is_sign(s: Seq<char>) -> bool {
    s.len() == 0 || (s.len() == 1 && (s[0] == '+' || s[0] == '-'))
}

impl DecimalParts {
    /// Whether the parts make a number: digits before or behind the point, and a point where there
    /// are digits behind it.
    pub open spec fn is_number(self) -> bool {
        &&& are_decimal_digits(self.whole)
        &&& are_decimal_digits(self.fraction)
        &&& self.whole.len() + self.fraction.len() > 0
        &&& self.fraction.len() > 0 ==> self.point
        &&& self.exponent matches Some(x) ==> (x.mark == 'e' || x.mark == 'E') && is_sign(x.sign)
            && x.digits.len() > 0 && are_decimal_digits(x.digits)
    }

    /// The text of the exponent.
    pub open spec fn exponent_text(self) -> Seq<char> {
        match self.exponent {
            Some(x) => seq![x.mark] + x.sign + x.digits,
            None => Seq::empty(),
        }
    }

    /// The text of the point.
    pub open spec fn point_text(self) -> Seq<char> {
        if self.point {
            seq!['.']
        } else {
            Seq::empty()
        }
    }

    /// The text of the number.
    pub open spec fn text(self) -> Seq<char> {
        self.whole + (self.point_text() + (self.fraction + self.exponent_text()))
    }

    /// By how many places the point is moved to the right behind all digits.
    pub open spec fn shift(self) -> int {
        let e: int = match self.exponent {
            Some(x) => if x.sign == seq!['-'] {
                -(text::digits_value(x.digits, 10) as int)
            } else {
                text::digits_value(x.digits, 10) as int
            },
            None => 0,
        };
        e - self.fraction.len()
    }

    /// What is divided in the value of the number.
    pub open spec fn numerator(self) -> nat {
        let v = text::digits_value(self.whole + self.fraction, 10);
        if self.shift() >= 0 {
            v * pow(10, self.shift() as nat) as nat
        } else {
            v
        }
    }

    /// By what is divided in the value of the number.
    pub open spec fn denominator(self) -> nat {
        if self.shift() >= 0 {
            1
        } else {
            pow(10, (-self.shift()) as nat) as nat
        }
    }
}

proof fn lemma_digits(s: Seq<char>)
    ensures
        are_decimal_digits(s) == text::all_digits(s, 10),
{
    text::lemma_all_digits(s);
}

/// What stands behind the digits of a number starts with no digit.
proof fn lemma_tail_start(d: DecimalParts)
    requires
        d.is_number(),
    ensures
        d.exponent_text().len() > 0 ==> text::digit_value(d.exponent_text()[0]) >= 10
            && d.exponent_text()[0] != '.',
        d.exponent_text().len() > 0 <==> d.exponent is Some,
{
}

/// The exponent of a number is read.
proof fn lemma_exponent(x: ExponentParts)
    requires
        is_sign(x.sign),
        x.digits.len() > 0,
        are_decimal_digits(x.digits),
    ensures
        number::exponent_value(x.sign + x.digits) == Some(
            if x.sign == seq!['-'] {
                -(text::digits_value(x.digits, 10) as int)
            } else {
                text::digits_value(x.digits, 10) as int
            },
        ),
{
    let s = x.sign + x.digits;
    lemma_digits(x.digits);
    assert('0' <= x.digits[0] <= '9');
    if x.sign.len() == 0 {
        assert(s =~= x.digits);
        assert(x.sign != seq!['-']);
    } else {
        assert(s.skip(1) =~= x.digits);
        assert(s[0] == x.sign[0]);
        if x.sign[0] == '-' {
            assert(x.sign =~= seq!['-']);
        }
    }
}

/// A number that is made of its parts is read as its digits and the place of the point.
pub proof fn lemma_parts_read(d: DecimalParts)
    requires
        d.is_number(),
    ensures
        number::literal(d.text()) == Some(
            Literal::Finite { digits: d.whole + d.fraction, exponent: d.shift() },
        ),
{
    let s = d.text();
    let e = d.exponent_text();
    let k = d.whole.len() as int;
    lemma_tail_start(d);
    lemma_digits(d.whole);
    lemma_digits(d.fraction);
    let behind = d.fraction + e;
    let after = d.point_text() + behind;
    assert forall|j: int| 0 <= j < k implies text::digit_value(#[trigger] s[j]) < 10 by {
        assert(s[j] == d.whole[j]);
        assert(text::digit_value(d.whole[j]) < 10);
    }
    if k < s.len() {
        assert(s[k] == after[0]);
        if d.point {
            assert(after[0] == '.');
        } else {
            assert(after =~= e);
        }
    }
    text::lemma_leading_digits_is(s, k);
    let rest = s.skip(k);
    assert(rest =~= after);
    assert(s.take(k) =~= d.whole);
    let f = d.fraction.len() as int;
    if d.point {
        assert(rest.skip(1) =~= behind);
        assert forall|j: int| 0 <= j < f implies text::digit_value(#[trigger] behind[j]) < 10 by {
            assert(behind[j] == d.fraction[j]);
            assert(text::digit_value(d.fraction[j]) < 10);
        }
        if f < behind.len() {
            assert(behind[f] == e[0]);
        }
        text::lemma_leading_digits_is(behind, f);
        assert(behind.take(f) =~= d.fraction);
        assert(behind.skip(f) =~= e);
    } else {
        assert(rest =~= e);
        assert(d.fraction =~= Seq::<char>::empty());
    }
    assert(number::fraction(rest) =~= d.fraction);
    assert(number::behind_fraction(rest) =~= e);
    if let Some(x) = d.exponent {
        assert(e.skip(1) =~= x.sign + x.digits);
        lemma_exponent(x);
    }
    assert(number::decimal_literal(s) == Some(
        Literal::Finite { digits: d.whole + d.fraction, exponent: d.shift() },
    ));
    // It is none of the words.
    reveal_strlit("inf");
    reveal_strlit("infinity");
    reveal_strlit("nan");
    assert(s[0] == '.' || '0' <= s[0] <= '9') by {
        if k > 0 {
            assert(s[0] == d.whole[0]);
        } else {
            assert(s[0] == after[0]);
        }
    }
}

/// A text that is read as a number has the parts of one.
pub proof fn lemma_read_parts(s: Seq<char>) -> (d: DecimalParts)
    requires
        number::decimal_literal(s) is Some,
    ensures
        d.is_number(),
        d.text() == s,
{
    let k = text::leading_digits(s) as int;
    text::lemma_leading_digits(s);
    let whole = s.take(k);
    let rest = s.skip(k);
    let point = rest.len() > 0 && rest[0] == '.';
    let fraction = number::fraction(rest);
    let tail = number::behind_fraction(rest);
    lemma_digits(whole);
    if point {
        text::lemma_leading_digits(rest.skip(1));
    }
    lemma_digits(fraction);
    let exponent = if tail.len() == 0 {
        None
    } else {
        let t = tail.skip(1);
        if t.len() > 0 && (t[0] == '+' || t[0] == '-') {
            lemma_digits(t.skip(1));
            Some(ExponentParts { mark: tail[0], sign: seq![t[0]], digits: t.skip(1) })
        } else {
            lemma_digits(t);
            Some(ExponentParts { mark: tail[0], sign: Seq::empty(), digits: t })
        }
    };
    let d = DecimalParts { whole, point, fraction, exponent };
    assert(d.exponent_text() =~= tail);
    assert(d.point_text() + (fraction + tail) =~= rest);
    assert(d.text() =~= s);
    d
}

/// Whether a text is a lower case word, in any case.
pub open spec fn spells(s: Seq<char>, word: Seq<char>) -> bool {
    &&& s.len() == word.len()
    &&& forall|i: int|
        0 <= i < s.len() ==> (#[trigger] s[i] == word[i] || s[i] as int == word[i] as int - 32)
}

/// Whether a result is the time of `n / d` seconds: what is not above zero is refused, and so is
/// what is too large; any other is off by no more than half a nanosecond and one part in 2^53.
///
/// Zero is what is not above half of the least number of the format, and too large is what is not
/// below the middle between 2^64 and the number of the format before it.
pub open spec fn is_time(r: Result<nat, TimeoutError>, n: nat, d: nat, negative: bool) -> bool {
    if n * pow2(1075) <= d {
        r == Err::<nat, TimeoutError>(TimeoutError::Zero)
    } else if negative {
        r == Err::<nat, TimeoutError>(TimeoutError::Negative)
    } else if n >= 0xffff_ffff_ffff_fc00 * d {
        r == Err::<nat, TimeoutError>(TimeoutError::TooLarge)
    } else {
        &&& r matches Ok(t)
        &&& 0x40_0000_0000_0000 * (t * d) <= 0x40_0000_0000_0000 * (n * 1_000_000_000)
            + 0x20_0000_0000_0000 * d + 2 * (n * 1_000_000_000)
        &&& 0x40_0000_0000_0000 * (n * 1_000_000_000) <= 0x40_0000_0000_0000 * (t * d)
            + 0x20_0000_0000_0000 * d + 2 * (n * 1_000_000_000)
    }
}

/// The whole nanoseconds are the nearest ones.
pub proof fn lemma_nearest_nanos(a: (nat, int))
    ensures
        rounding::is_nearest_whole(
            rounding::upper(a) * 1_000_000_000,
            rounding::lower(a),
            duration::nearest_nanos(a),
        ),
{
    if a.1 >= 0 {
        let t = duration::nearest_nanos(a);
        assert(t * 1 == t);
    } else {
        lemma_pow2_pos((-a.1) as nat);
        rounding::lemma_half_even(a.0 * 1_000_000_000, pow2((-a.1) as nat));
    }
}

proof fn lemma_cancel_all(x: nat, y: nat, c: nat)
    requires
        x * c <= y * c,
        c > 0,
    ensures
        x <= y,
{
    assert(x <= y) by (nonlinear_arith)
        requires
            x * c <= y * c,
            c > 0,
    ;
}

/// The two roundings together, where the first one does not give the least exponent.
proof fn lemma_time_close(t: nat, u: nat, l: nat, n: nat, d: nat)
    requires
        l > 0,
        2 * (t * l) <= 2 * (u * 1_000_000_000) + l,
        2 * (u * 1_000_000_000) <= 2 * (t * l) + l,
        (u * d) * 0x20_0000_0000_0000 <= (n * l) * 0x20_0000_0000_0001,
        (u * d) * 0x20_0000_0000_0000 >= (n * l) * 0x1f_ffff_ffff_ffff,
    ensures
        0x40_0000_0000_0000 * (t * d) <= 0x40_0000_0000_0000 * (n * 1_000_000_000)
            + 0x20_0000_0000_0000 * d + 2 * (n * 1_000_000_000),
        0x40_0000_0000_0000 * (n * 1_000_000_000) <= 0x40_0000_0000_0000 * (t * d)
            + 0x20_0000_0000_0000 * d + 2 * (n * 1_000_000_000),
{
    let (td, nd, tl) = (t * d, n * 1_000_000_000, t * l);
    let (tdl, ndl, dl, ud, nl) = (td * l, nd * l, d * l, u * d, n * l);
    assert(tl * d == tdl) by (nonlinear_arith)
        requires
            tl == t * l,
            td == t * d,
            tdl == td * l,
    ;
    assert(nl * 1_000_000_000 == ndl) by (nonlinear_arith)
        requires
            nl == n * l,
            nd == n * 1_000_000_000,
            ndl == nd * l,
    ;
    assert(2 * tdl <= 2 * (ud * 1_000_000_000) + dl) by (nonlinear_arith)
        requires
            2 * tl <= 2 * (u * 1_000_000_000) + l,
            tl * d == tdl,
            ud == u * d,
            dl == d * l,
    ;
    assert(2 * (ud * 1_000_000_000) <= 2 * tdl + dl) by (nonlinear_arith)
        requires
            2 * (u * 1_000_000_000) <= 2 * tl + l,
            tl * d == tdl,
            ud == u * d,
            dl == d * l,
    ;
    let x = 0x40_0000_0000_0000 * nd + 0x20_0000_0000_0000 * d + 2 * nd;
    let y = 0x40_0000_0000_0000 * td + 0x20_0000_0000_0000 * d + 2 * nd;
    assert(x * l == 0x40_0000_0000_0000 * ndl + 0x20_0000_0000_0000 * dl + 2 * ndl)
        by (nonlinear_arith)
        requires
            x == 0x40_0000_0000_0000 * nd + 0x20_0000_0000_0000 * d + 2 * nd,
            ndl == nd * l,
            dl == d * l,
    ;
    assert(y * l == 0x40_0000_0000_0000 * tdl + 0x20_0000_0000_0000 * dl + 2 * ndl)
        by (nonlinear_arith)
        requires
            y == 0x40_0000_0000_0000 * td + 0x20_0000_0000_0000 * d + 2 * nd,
            tdl == td * l,
            ndl == nd * l,
            dl == d * l,
    ;
    assert((0x40_0000_0000_0000 * td) * l == 0x40_0000_0000_0000 * tdl) by (nonlinear_arith)
        requires
            tdl == td * l,
    ;
    assert((0x40_0000_0000_0000 * nd) * l == 0x40_0000_0000_0000 * ndl) by (nonlinear_arith)
        requires
            ndl == nd * l,
    ;
    lemma_cancel_all(0x40_0000_0000_0000 * td, x, l);
    lemma_cancel_all(0x40_0000_0000_0000 * nd, y, l);
}

/// A number with the least exponent is no nanosecond at all.
proof fn lemma_least_exponent(n: nat, d: nat)
    requires
        d > 0,
        binary64::nearest(n, d).1 == -1074,
    ensures
        duration::nearest_nanos(binary64::nearest(n, d)) == 0,
        2 * (n * 1_000_000_000) <= d,
{
    let a = binary64::nearest(n, d);
    let m = a.0;
    let t = duration::nearest_nanos(a);
    rounding::lemma_nearest(n, d);
    lemma_nearest_nanos(a);
    lemma2_to64();
    lemma2_to64_rest();
    lemma_pow2_adds(64, 64);
    lemma_pow2_strictly_increases(128, 1074);
    let p = pow2(1074);
    let big = 0x1_0000_0000_0000_0000_0000_0000_0000_0000nat;
    assert(p >= big);
    assert(t == 0) by (nonlinear_arith)
        requires
            2 * (t * p) <= 2 * (m * 1_000_000_000) + p,
            m <= 0x20_0000_0000_0000,
            p >= 0x1_0000_0000_0000_0000_0000_0000_0000_0000,
    ;
    let (np, nb, md) = (n * p, n * big, m * d);
    assert(np >= nb) by (nonlinear_arith)
        requires
            np == n * p,
            nb == n * big,
            p >= big,
    ;
    assert(md <= 0x20_0000_0000_0000 * d) by (nonlinear_arith)
        requires
            md == m * d,
            m <= 0x20_0000_0000_0000,
    ;
}

/// A number below the middle between 2^64 and the number of the format before it is rounded to one
/// below 2^64, and no other is.
proof fn lemma_reaches(n: nat, d: nat)
    requires
        d > 0,
    ensures
        binary64::whole(binary64::nearest(n, d)) >= 0x1_0000_0000_0000_0000 <==> n
            >= 0xffff_ffff_ffff_fc00 * d,
{
    let a = binary64::nearest(n, d);
    let (m, e) = a;
    rounding::lemma_nearest(n, d);
    lemma2_to64();
    if e < 0 {
        binary64::lemma_whole_at_most(m, (-e) as nat);
        let p = pow2((-e) as nat);
        let (np, md) = (n * p, m * d);
        lemma_pow2_pos((-e) as nat);
        assert(np >= n) by (nonlinear_arith)
            requires
                np == n * p,
                p >= 1,
        ;
        assert(md <= 0x20_0000_0000_0000 * d) by (nonlinear_arith)
            requires
                md == m * d,
                m <= 0x20_0000_0000_0000,
        ;
    } else {
        let p = pow2(e as nat);
        let dd = d * p;
        let (mp, md) = (m * p, m * dd);
        lemma_pow2_pos(e as nat);
        if e >= 12 {
            if e > 12 {
                lemma_pow2_strictly_increases(12, e as nat);
            }
            assert(dd >= 4096 * d) by (nonlinear_arith)
                requires
                    dd == d * p,
                    p >= 4096,
            ;
            assert(mp >= 0x1_0000_0000_0000_0000) by (nonlinear_arith)
                requires
                    mp == m * p,
                    m >= 0x10_0000_0000_0000,
                    p >= 4096,
            ;
        } else if e == 11 {
            assert(dd == 2048 * d) by (nonlinear_arith)
                requires
                    dd == d * p,
                    p == 2048,
            ;
            assert(mp == 2048 * m) by (nonlinear_arith)
                requires
                    mp == m * p,
                    p == 2048,
            ;
            if m == 0x20_0000_0000_0000 {
                assert(md == 0x20_0000_0000_0000 * dd);
            } else if m == 0x1f_ffff_ffff_ffff {
                assert(md == 0x1f_ffff_ffff_ffff * dd);
            } else {
                assert(md <= 0x1f_ffff_ffff_fffe * dd) by (nonlinear_arith)
                    requires
                        md == m * dd,
                        m <= 0x1f_ffff_ffff_fffe,
                ;
            }
        } else {
            lemma_pow2_strictly_increases(e as nat, 11);
            assert(p <= 1024) by {
                if e < 10 {
                    lemma_pow2_strictly_increases(e as nat, 10);
                }
            }
            assert(mp < 0x1_0000_0000_0000_0000) by (nonlinear_arith)
                requires
                    mp == m * p,
                    m <= 0x20_0000_0000_0000,
                    p < 2048,
            ;
            assert(dd <= 1024 * d) by (nonlinear_arith)
                requires
                    dd == d * p,
                    p <= 1024,
            ;
            assert(md <= 0x20_0000_0000_0000 * dd) by (nonlinear_arith)
                requires
                    md == m * dd,
                    m <= 0x20_0000_0000_0000,
            ;
        }
    }
}

/// A number that is not above half of the least one of the format is rounded to zero, and no other
/// is.
proof fn lemma_vanishes(n: nat, d: nat)
    requires
        d > 0,
    ensures
        binary64::nearest(n, d).0 == 0 <==> n * pow2(1075) <= d,
{
    let a = binary64::nearest(n, d);
    let (m, e) = a;
    rounding::lemma_nearest(n, d);
    lemma2_to64();
    lemma_pow2_unfold(1075);
    let q = pow2(1074);
    let nq = n * q;
    lemma_pow2_pos(1074);
    assert(n * pow2(1075) == 2 * nq) by (nonlinear_arith)
        requires
            nq == n * q,
            pow2(1075) == 2 * q,
    ;
    if e >= 0 {
        let p = pow2(e as nat);
        let dd = d * p;
        lemma_pow2_pos(e as nat);
        assert(dd >= d) by (nonlinear_arith)
            requires
                dd == d * p,
                p >= 1,
        ;
        assert(nq >= n) by (nonlinear_arith)
            requires
                nq == n * q,
                q >= 1,
        ;
    } else {
        let p = pow2((-e) as nat);
        let (np, md) = (n * p, m * d);
        if e > -1074 {
            lemma_pow2_strictly_increases((-e) as nat, 1074);
            assert(np <= nq) by (nonlinear_arith)
                requires
                    np == n * p,
                    nq == n * q,
                    p <= q,
            ;
            assert(md >= 0x10_0000_0000_0000 * d) by (nonlinear_arith)
                requires
                    md == m * d,
                    m >= 0x10_0000_0000_0000,
            ;
        } else if m == 0 {
            assert(md == 0);
        } else if m == 1 {
            assert(1 * d == d);
        } else {
            assert(md >= 2 * d) by (nonlinear_arith)
                requires
                    md == m * d,
                    m >= 2,
            ;
        }
    }
}

/// The time that a number of seconds stands for, as a fraction of whole numbers.
proof fn lemma_time(s: Seq<char>, digits: Seq<char>, exponent: int, n: nat, d: nat)
    requires
        s.len() > 0,
        number::literal(cli_args::unsigned_part(s)) == Some(Literal::Finite { digits, exponent }),
        number::nearest_decimal(digits, exponent) == binary64::nearest(n, d),
        d > 0,
    ensures
        is_time(cli_args::timeout(s), n, d, s[0] == '-'),
{
    let a = binary64::nearest(n, d);
    let t = duration::nearest_nanos(a);
    let r = cli_args::timeout(s);
    lemma_vanishes(n, d);
    lemma_reaches(n, d);
    if r is Ok {
        rounding::lemma_nearest(n, d);
        if a.1 == -1074 {
            lemma_least_exponent(n, d);
            assert(t * d == 0) by (nonlinear_arith)
                requires
                    t == 0,
            ;
        } else {
            rounding::lemma_close(n, d);
            lemma_nearest_nanos(a);
            if a.1 < 0 {
                lemma_pow2_pos((-a.1) as nat);
            }
            lemma_time_close(t, rounding::upper(a), rounding::lower(a), n, d);
        }
    }
}

/// A sign stands in front of a number, which starts with no sign itself.
proof fn lemma_signed_text(sign: Seq<char>, d: DecimalParts)
    requires
        is_sign(sign),
        d.is_number(),
    ensures
        (sign + d.text()).len() > 0,
        ((sign + d.text())[0] == '-') == (sign == seq!['-']),
        number::literal(cli_args::unsigned_part(sign + d.text())) == Some(
            Literal::Finite { digits: d.whole + d.fraction, exponent: d.shift() },
        ),
{
    let body = d.text();
    let s = sign + body;
    lemma_parts_read(d);
    assert(body.len() > 0 && (body[0] == '.' || '0' <= body[0] <= '9')) by {
        let after = d.point_text() + (d.fraction + d.exponent_text());
        if d.whole.len() > 0 {
            assert(body[0] == d.whole[0]);
        } else {
            assert(body[0] == after[0]);
        }
    }
    if sign.len() == 0 {
        assert(s =~= body);
        assert(cli_args::unsigned_part(s) == body);
        assert(sign != seq!['-']);
    } else {
        assert(s[0] == sign[0]);
        assert(s.skip(1) =~= body);
        if sign[0] == '-' {
            assert(sign =~= seq!['-']);
        }
    }
}

/// A number of seconds is read as that time: digits with a point in any place, or without one, and
/// an exponent or none, behind an optional sign.
pub proof fn lemma_timeout_of_number(sign: Seq<char>, d: DecimalParts)
    requires
        is_sign(sign),
        d.is_number(),
    ensures
        d.denominator() > 0,
        is_time(
            cli_args::timeout(sign + d.text()),
            d.numerator(),
            d.denominator(),
            sign == seq!['-'],
        ),
{
    let s = sign + d.text();
    lemma_signed_text(sign, d);
    let digits = d.whole + d.fraction;
    let e = d.shift();
    if e < 0 {
        lemma_pow_positive(10, (-e) as nat);
    } else {
        lemma_pow_positive(10, e as nat);
    }
    lemma_time(s, digits, e, d.numerator(), d.denominator());
}

/// The number of seconds is rounded to the nearest number `a` of the format, and that one to the
/// nearest whole number of nanoseconds.
pub open spec fn is_time_by(t: nat, n: nat, d: nat, a: (nat, int)) -> bool {
    &&& rounding::is_rounded(a, n, d)
    &&& rounding::is_nearest_whole(rounding::upper(a) * 1_000_000_000, rounding::lower(a), t)
}

/// A timeout is the number of seconds after two roundings to the nearest.
pub proof fn lemma_timeout_roundings(sign: Seq<char>, d: DecimalParts)
    requires
        is_sign(sign),
        d.is_number(),
        cli_args::timeout(sign + d.text()) is Ok,
    ensures
        exists|a: (nat, int)|
            is_time_by(
                cli_args::timeout(sign + d.text())->Ok_0,
                d.numerator(),
                d.denominator(),
                a,
            ),
{
    let s = sign + d.text();
    let (n, m) = (d.numerator(), d.denominator());
    let a = binary64::nearest(n, m);
    lemma_timeout_of_number(sign, d);
    lemma_signed_text(sign, d);
    rounding::lemma_rounded(n, m);
    lemma_nearest_nanos(a);
    assert(is_time_by(cli_args::timeout(s)->Ok_0, n, m, a));
}

/// What a literal alone stands for: zero where it is not above half of the least number of the
/// format, too large where it is not below the middle between 2^64 and the number of the format
/// before it, and else the nearest number of the format.
pub proof fn lemma_magnitude(d: DecimalParts, m: Magnitude)
    requires
        d.is_number(),
        number::literal(d.text()) matches Some(Literal::Finite { digits, exponent })
            ==> number::is_magnitude(m, number::nearest_decimal(digits, exponent)),
    ensures
        m is Zero <==> d.numerator() * pow2(1075) <= d.denominator(),
        m is TooLarge <==> d.numerator() >= 0xffff_ffff_ffff_fc00 * d.denominator(),
        m matches Magnitude::Value(b) ==> rounding::is_rounded(
            b@,
            d.numerator(),
            d.denominator(),
        ),
{
    let (n, k) = (d.numerator(), d.denominator());
    let e = d.shift();
    if e < 0 {
        lemma_pow_positive(10, (-e) as nat);
    } else {
        lemma_pow_positive(10, e as nat);
    }
    lemma_parts_read(d);
    lemma_vanishes(n, k);
    lemma_reaches(n, k);
    rounding::lemma_rounded(n, k);
    let a = binary64::nearest(n, k);
    if a.0 == 0 {
        binary64::lemma_whole_zero(a.1);
    }
}

/// A number of seconds with up to nine digits behind the point, and a whole part below four
/// million, is exact.
pub proof fn lemma_decimal_seconds(whole: Seq<char>, fraction: Seq<char>)
    requires
        are_decimal_digits(whole),
        are_decimal_digits(fraction),
        fraction.len() <= 9,
        text::digits_value(whole, 10) < 4_000_000,
        text::digits_value(whole, 10) + text::digits_value(fraction, 10) > 0,
    ensures
        cli_args::timeout(whole + seq!['.'] + fraction) == Ok::<nat, TimeoutError>(
            (text::digits_value(whole, 10) * 1_000_000_000 + text::digits_value(fraction, 10) * pow(
                10,
                (9 - fraction.len()) as nat,
            )) as nat,
        ),
{
    let d = DecimalParts { whole, point: true, fraction, exponent: None };
    let k = fraction.len();
    assert(whole.len() + fraction.len() > 0) by {
        if whole.len() == 0 && fraction.len() == 0 {
            text::lemma_digits_value(whole, fraction, 10);
            assert(whole =~= Seq::<char>::empty());
            assert(fraction =~= Seq::<char>::empty());
        }
    }
    let none = Seq::<char>::empty();
    lemma_timeout_of_number(none, d);
    assert(none + d.text() =~= whole + seq!['.'] + fraction);
    assert(none != seq!['-']);
    let r = cli_args::timeout(whole + seq!['.'] + fraction);
    let (w, f) = (text::digits_value(whole, 10), text::digits_value(fraction, 10));
    text::lemma_digits_value(whole, fraction, 10);
    lemma_pow_positive(10, k);
    lemma_pow_positive(10, (9 - k) as nat);
    let p = pow(10, k) as nat;
    let q = pow(10, (9 - k) as nat) as nat;
    lemma_pow_adds(10, k, (9 - k) as nat);
    assert(pow(10, 9) == 1_000_000_000) by {
        reveal_with_fuel(pow, 10);
    }
    let n = w * p + f;
    if k == 0 {
        lemma_pow0(10);
        assert(w * 1 == w);
        assert(fraction =~= Seq::<char>::empty());
        assert(n * pow(10, 0) as nat == n * 1);
    }
    assert(d.numerator() == n && d.denominator() == p);
    lemma_digits(fraction);
    number::lemma_digits_bounds(fraction);
    assert(f < p);
    // Within range.
    assert(n < 4_000_000 * p) by (nonlinear_arith)
        requires
            n == w * p + f,
            f < p,
            w < 4_000_000,
    ;
    assert(n > 0) by (nonlinear_arith)
        requires
            n == w * p + f,
            w + f > 0,
            p > 0,
    ;
    lemma2_to64();
    lemma_pow2_adds(64, 64);
    lemma_pow2_strictly_increases(128, 1075);
    lemma_pow_increases(10, k, 9);
    assert(n * pow2(1075) > p) by (nonlinear_arith)
        requires
            n >= 1,
            p <= 1_000_000_000,
            pow2(1075) >= 0x1_0000_0000_0000_0000_0000_0000_0000_0000,
    ;
    let t = r->Ok_0;
    // The exact time, in units of the denominator.
    let x = w * 1_000_000_000 + f * q;
    assert(x * p == n * 1_000_000_000) by (nonlinear_arith)
        requires
            x == w * 1_000_000_000 + f * q,
            n == w * p + f,
            p * q == 1_000_000_000,
    ;
    let (tp, xp) = (t * p, x * p);
    assert(-p < tp - xp < p);
    assert(t == x) by (nonlinear_arith)
        requires
            tp == t * p,
            xp == x * p,
            -p < tp - xp < p,
            p > 0,
    ;
}

/// Words for what is no number, or is infinite, in any case.
pub proof fn lemma_timeout_of_word(sign: Seq<char>, body: Seq<char>)
    requires
        is_sign(sign),
        spells(body, "nan"@) || spells(body, "inf"@) || spells(body, "infinity"@),
    ensures
        spells(body, "nan"@) ==> cli_args::timeout(sign + body) == Err::<nat, TimeoutError>(
            TimeoutError::Zero,
        ),
        !spells(body, "nan"@) && sign == seq!['-'] ==> cli_args::timeout(sign + body) == Err::<
            nat,
            TimeoutError,
        >(TimeoutError::Negative),
        !spells(body, "nan"@) && sign != seq!['-'] ==> cli_args::timeout(sign + body) == Err::<
            nat,
            TimeoutError,
        >(TimeoutError::TooLarge),
{
    reveal_strlit("inf");
    reveal_strlit("infinity");
    reveal_strlit("nan");
    lemma_spells(body);
    let s = sign + body;
    assert(body[0] != '+' && body[0] != '-');
    if sign.len() == 0 {
        assert(s =~= body);
        assert(sign != seq!['-']);
    } else {
        assert(s[0] == sign[0]);
        assert(s.skip(1) =~= body);
        if sign[0] == '-' {
            assert(sign =~= seq!['-']);
        }
    }
}

proof fn lemma_spells(s: Seq<char>)
    ensures
        spells(s, "nan"@) == number::is_word(s, "nan"@),
        spells(s, "inf"@) == number::is_word(s, "inf"@),
        spells(s, "infinity"@) == number::is_word(s, "infinity"@),
{
    lemma_spells_word(s, "nan"@);
    lemma_spells_word(s, "inf"@);
    lemma_spells_word(s, "infinity"@);
}

proof fn lemma_spells_word(s: Seq<char>, word: Seq<char>)
    ensures
        spells(s, word) == number::is_word(s, word),
{
    if spells(s, word) {
        assert forall|i: int| 0 <= i < s.len() implies s[i] == word[i] || #[trigger] s[i] as int
            + 32 == word[i] as int by {
            assert(s[i] == word[i] || s[i] as int == word[i] as int - 32);
        }
    }
    if number::is_word(s, word) {
        assert forall|i: int| 0 <= i < s.len() implies (#[trigger] s[i] == word[i] || s[i] as int
            == word[i] as int - 32) by {
            assert(s[i] == word[i] || s[i] as int + 32 == word[i] as int);
        }
    }
}

/// Whether a text is a number or one of the words, behind an optional sign.
pub open spec fn is_seconds_text(s: Seq<char>, sign: Seq<char>, d: DecimalParts) -> bool {
    &&& is_sign(sign)
    &&& d.is_number()
    &&& s == sign + d.text()
}

/// Whether a text is one of the words behind an optional sign.
pub open spec fn is_word_text(s: Seq<char>, sign: Seq<char>, body: Seq<char>) -> bool {
    &&& is_sign(sign)
    &&& spells(body, "nan"@) || spells(body, "inf"@) || spells(body, "infinity"@)
    &&& s == sign + body
}

/// Nothing but a number or one of the words is taken for one: every other text is refused as no
/// number, and the empty one as empty.
pub proof fn lemma_timeout_of_other(s: Seq<char>)
    ensures
        cli_args::timeout(s) == Err::<nat, TimeoutError>(TimeoutError::Empty) <==> s.len() == 0,
        s.len() > 0 && (forall|sign: Seq<char>, d: DecimalParts| !#[trigger] is_seconds_text(s, sign, d))
            && (forall|sign: Seq<char>, body: Seq<char>|
            !#[trigger] is_word_text(s, sign, body)) ==> cli_args::timeout(s) == Err::<
            nat,
            TimeoutError,
        >(TimeoutError::Invalid),
{
    if s.len() > 0 && cli_args::timeout(s) != Err::<nat, TimeoutError>(TimeoutError::Invalid) {
        let body = cli_args::unsigned_part(s);
        let sign = if s[0] == '+' || s[0] == '-' {
            seq![s[0]]
        } else {
            Seq::empty()
        };
        assert(s =~= sign + body);
        lemma_spells(body);
        if spells(body, "nan"@) || spells(body, "inf"@) || spells(body, "infinity"@) {
            assert(is_word_text(s, sign, body));
        } else {
            let d = lemma_read_parts(body);
            assert(is_seconds_text(s, sign, d));
        }
    }
}

} // verus!
