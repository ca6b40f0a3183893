//! Numbers written as text.

use vstd::arithmetic::power::*;
use vstd::arithmetic::power2::*;
use vstd::prelude::*;
use vstd::slice::*;

use crate::binary64;
use crate::binary64::Binary64;
use crate::natural::Natural;
use crate::text;

verus! {

/// Why a text is no whole number.
#[derive(Debug, Clone, Copy, PartialEq, Eq, Structural)]
pub enum IntError {
    Empty,
    InvalidDigit,
    TooLarge,
}

/// The wording of an error in a whole number.
pub open spec fn int_error_text(e: IntError) -> Seq<char> {
    match e {
        IntError::Empty => "cannot parse integer from empty string"@,
        IntError::InvalidDigit => "invalid digit found in string"@,
        IntError::TooLarge => "number too large to fit in target type"@,
    }
}

impl IntError {
    /// The wording of the error.
    pub fn message(&self) -> (s: &'static str)
        ensures
            s@ == int_error_text(*self),
    {
        match self {
            IntError::Empty => "cannot parse integer from empty string",
            IntError::InvalidDigit => "invalid digit found in string",
            IntError::TooLarge => "number too large to fit in target type",
        }
    }
}

/// The whole number that `s` writes in decimal, with an optional plus sign, up to `max`.
///
/// Where the digits in front of a character that is no digit are too large already, that is the
/// error.
pub open spec fn unsigned_value(s: Seq<char>, max: nat) -> Result<nat, IntError> {
    if s.len() == 0 {
        Err(IntError::Empty)
    } else {
        let t = if s[0] == '+' {
            s.skip(1)
        } else {
            s
        };
        let run = t.take(text::leading_digits(t) as int);
        let value = text::digits_value(run, 10);
        if value > max {
            Err(IntError::TooLarge)
        } else if t.len() == 0 || run.len() < t.len() {
            Err(IntError::InvalidDigit)
        } else {
            Ok(value)
        }
    }
}

/// An optional plus sign.
pub open spec fn plus_text(plus: bool) -> Seq<char> {
    if plus {
        seq!['+']
    } else {
        Seq::empty()
    }
}

/// Every text is an optional plus sign, digits and what stands behind them. It is read as the value
/// of the digits where these are all there is and it is at most `max`; zeros in front do not
/// matter. Digits that are too many are refused before what stands behind them.
pub proof fn lemma_unsigned(plus: bool, digits: Seq<char>, rest: Seq<char>, max: nat)
    requires
        forall|i: int| 0 <= i < digits.len() ==> '0' <= #[trigger] digits[i] <= '9',
        rest.len() > 0 ==> !('0' <= rest[0] <= '9'),
        !plus && digits.len() == 0 && rest.len() > 0 ==> rest[0] != '+',
    ensures
        ({
            let v = text::digits_value(digits, 10);
            let r = unsigned_value(plus_text(plus) + digits + rest, max);
            if !plus && digits.len() == 0 && rest.len() == 0 {
                r == Err::<nat, IntError>(IntError::Empty)
            } else if v > max {
                r == Err::<nat, IntError>(IntError::TooLarge)
            } else if digits.len() == 0 || rest.len() > 0 {
                r == Err::<nat, IntError>(IntError::InvalidDigit)
            } else {
                r == Ok::<nat, IntError>(v)
            }
        }),
{
    let s = plus_text(plus) + digits + rest;
    let t = digits + rest;
    let k = digits.len() as int;
    if plus {
        assert(s.skip(1) =~= t);
    } else {
        assert(s =~= t);
        if k > 0 {
            assert(s[0] == digits[0]);
        }
    }
    assert forall|j: int| 0 <= j < k implies text::digit_value(#[trigger] t[j]) < 10 by {
        assert(t[j] == digits[j]);
    }
    if rest.len() > 0 {
        assert(t[k] == rest[0]);
    }
    text::lemma_leading_digits_is(t, k);
    assert(t.take(k) =~= digits);
}

/// A prefix of digits stands for no more than all of them.
proof fn lemma_prefix_value(s: Seq<char>, i: int, radix: nat)
    requires
        0 <= i <= s.len(),
        radix >= 1,
    ensures
        text::digits_value(s.take(i), radix) <= text::digits_value(s, radix),
    decreases s.len(),
{
    if i == s.len() {
        assert(s.take(i) == s);
    } else {
        let t = s.drop_last();
        lemma_prefix_value(t, i, radix);
        assert(t.take(i) == s.take(i));
        let v = text::digits_value(t, radix);
        assert(v * radix >= v) by (nonlinear_arith)
            requires
                radix >= 1,
        ;
    }
}

/// The number that the digits `s` stand for, where it is at most `max`.
pub fn bounded_value(s: &[char], radix: u32, max: u32) -> (r: Option<u32>)
    requires
        1 <= radix <= 16,
        text::all_digits(s@, radix as nat),
    ensures
        r is Some == (text::digits_value(s@, radix as nat) <= max),
        r matches Some(v) ==> v == text::digits_value(s@, radix as nat),
{
    let mut value: u64 = 0;
    let mut i: usize = 0;
    while i < s.len()
        invariant
            i <= s@.len(),
            1 <= radix <= 16,
            text::all_digits(s@, radix as nat),
            value <= max,
            value == text::digits_value(s@.take(i as int), radix as nat),
        decreases s@.len() - i,
    {
        assert(value * radix <= 0xffff_ffff * 16) by (nonlinear_arith)
            requires
                value <= 0xffff_ffff,
                radix <= 16,
        ;
        value = value * radix as u64 + text::digit(s[i]) as u64;
        i += 1;
        proof {
            assert(s@.take(i as int).drop_last() == s@.take(i - 1));
            lemma_prefix_value(s@, i as int, radix as nat);
        }
        if value > max as u64 {
            return None;
        }
    }
    assert(s@.take(s@.len() as int) == s@);
    Some(value as u32)
}

/// The whole number that `s` writes in decimal, with an optional plus sign, up to `max`.
pub fn parse_unsigned(s: &[char], max: u32) -> (r: Result<u32, IntError>)
    ensures
        match unsigned_value(s@, max as nat) {
            Ok(v) => r == Ok::<u32, IntError>(v as u32),
            Err(e) => r == Err::<u32, IntError>(e),
        },
{
    if s.len() == 0 {
        return Err(IntError::Empty);
    }
    let t: &[char] = if s[0] == '+' {
        slice_subrange(s, 1, s.len())
    } else {
        s
    };
    proof {
        text::lemma_leading_digits(t@);
        if s@[0] == '+' {
            assert(t@ == s@.skip(1));
        }
    }
    let k: usize = text::count_digits(t);
    let run = slice_subrange(t, 0, k);
    assert(run@ == t@.take(k as int));
    match bounded_value(run, 10, max) {
        None => Err(IntError::TooLarge),
        Some(value) => {
            if t.len() == 0 || k < t.len() {
                Err(IntError::InvalidDigit)
            } else {
                Ok(value)
            }
        },
    }
}

/// What a decimal literal without its sign stands for.
///
/// A finite number is the whole number that its digits stand for, times ten to the exponent.
#[verifier::ext_equal]
pub enum Literal {
    NotANumber,
    Infinite,
    Finite { digits: Seq<char>, exponent: int },
}

/// Whether `s` is the lower case word `word`, in any case.
pub open spec fn is_word(s: Seq<char>, word: Seq<char>) -> bool {
    s.len() == word.len() && forall|i: int|
        0 <= i < s.len() ==> s[i] == word[i] || #[trigger] s[i] as int + 32 == word[i] as int
}

/// The exponent that `s` writes: digits with an optional sign.
pub open spec fn exponent_value(s: Seq<char>) -> Option<int> {
    let t = if s.len() > 0 && (s[0] == '+' || s[0] == '-') {
        s.skip(1)
    } else {
        s
    };
    if t.len() == 0 || !text::all_digits(t, 10) {
        None
    } else if s[0] == '-' {
        Some(-(text::digits_value(t, 10) as int))
    } else {
        Some(text::digits_value(t, 10) as int)
    }
}

/// The digits behind a point that `s` starts with; none where it does not start with one.
pub open spec fn fraction(s: Seq<char>) -> Seq<char> {
    if s.len() > 0 && s[0] == '.' {
        s.skip(1).take(text::leading_digits(s.skip(1)) as int)
    } else {
        Seq::empty()
    }
}

/// The text behind the point and the digits that `s` starts with.
pub open spec fn behind_fraction(s: Seq<char>) -> Seq<char> {
    if s.len() > 0 && s[0] == '.' {
        s.skip(1).skip(text::leading_digits(s.skip(1)) as int)
    } else {
        s
    }
}

/// The number that `s` writes in decimal, without a sign.
///
/// There are digits before or behind the point, and an optional exponent.
pub open spec fn decimal_literal(s: Seq<char>) -> Option<Literal> {
    let k = text::leading_digits(s) as int;
    let rest = s.skip(k);
    let digits = s.take(k) + fraction(rest);
    let scale = fraction(rest).len() as int;
    let tail = behind_fraction(rest);
    if digits.len() == 0 {
        None
    } else if tail.len() == 0 {
        Some(Literal::Finite { digits, exponent: -scale })
    } else if tail[0] == 'e' || tail[0] == 'E' {
        match exponent_value(tail.skip(1)) {
            Some(exponent) => Some(Literal::Finite { digits, exponent: exponent - scale }),
            None => None,
        }
    } else {
        None
    }
}

/// What `s` stands for as a decimal literal without a sign.
pub open spec fn literal(s: Seq<char>) -> Option<Literal> {
    if is_word(s, "inf"@) || is_word(s, "infinity"@) {
        Some(Literal::Infinite)
    } else if is_word(s, "nan"@) {
        Some(Literal::NotANumber)
    } else {
        decimal_literal(s)
    }
}

/// The binary64 number nearest to the one that the digits stand for, times ten to `exponent`.
pub open spec fn nearest_decimal(digits: Seq<char>, exponent: int) -> (nat, int) {
    let value = text::digits_value(digits, 10);
    if exponent >= 0 {
        binary64::nearest(value * pow(10, exponent as nat) as nat, 1)
    } else {
        binary64::nearest(value, pow(10, (-exponent) as nat) as nat)
    }
}

/// A number of seconds that a decimal literal stands for.
#[derive(Debug, Clone, Copy)]
pub enum Magnitude {
    /// It is rounded to zero.
    Zero,
    /// It is not below 2^64.
    TooLarge,
    /// Any other number.
    Value(Binary64),
}

/// Whether `m` says what the number with significand `a.0` and exponent `a.1` is.
pub open spec fn is_magnitude(m: Magnitude, a: (nat, int)) -> bool {
    match m {
        Magnitude::Zero => a.0 == 0,
        Magnitude::TooLarge => a.0 > 0 && binary64::whole(a) >= 0x1_0000_0000_0000_0000,
        Magnitude::Value(b) => b.well_formed() && b@ == a && a.0 > 0 && binary64::whole(a)
            < 0x1_0000_0000_0000_0000,
    }
}

/// What a text stands for as a decimal literal without a sign.
#[derive(Debug, Clone, Copy)]
pub enum Unsigned {
    NotANumber,
    Infinite,
    Finite(Magnitude),
}

proof fn lemma_large_powers()
    ensures
        pow(10, 20) >= pow2(64),
        pow(10, 336) >= pow2(1075),
{
    lemma2_to64();
    lemma_pow2_adds(64, 29);
    assert(pow(10, 7) == 10_000_000) by {
        reveal_with_fuel(pow, 8);
    }
    lemma_pow_adds(10, 7, 7);
    assert(pow(10, 14) == 10_000_000 * 10_000_000);
    lemma_pow_adds(10, 14, 14);
    assert(pow(10, 28) == 100_000_000_000_000 * 100_000_000_000_000);
    assert(pow2(93) == 0x1_0000_0000_0000_0000 * 0x2000_0000);
    assert(pow(10, 6) == 1_000_000) by {
        reveal_with_fuel(pow, 7);
    }
    lemma_pow_adds(10, 14, 6);
    lemma_double_power(28, 93, 28, 93);
    lemma_double_power(56, 186, 28, 93);
    lemma_double_power(84, 279, 84, 279);
    lemma_double_power(168, 558, 168, 558);
    lemma_pow2_strictly_increases(1075, 1116);
}

proof fn lemma_double_power(a: nat, b: nat, c: nat, d: nat)
    requires
        pow(10, a) >= pow2(b),
        pow(10, c) >= pow2(d),
    ensures
        pow(10, a + c) >= pow2(b + d),
{
    lemma_pow_adds(10, a, c);
    lemma_pow2_adds(b, d);
    lemma_pow2_pos(b);
    lemma_pow2_pos(d);
    let x = pow(10, a);
    let y = pow(10, c);
    let u = pow2(b) as int;
    let v = pow2(d) as int;
    assert(x * y >= u * v) by (nonlinear_arith)
        requires
            x >= u,
            y >= v,
            u > 0,
            v > 0,
    ;
}

/// How large a number of so many digits is.
pub(crate) proof fn lemma_digits_bounds(s: Seq<char>)
    requires
        text::all_digits(s, 10),
    ensures
        text::digits_value(s, 10) < pow(10, s.len()),
        s.len() > 0 && s[0] != '0' ==> text::digits_value(s, 10) >= pow(10, (s.len() - 1) as nat),
    decreases s.len(),
{
    lemma_pow0(10);
    if s.len() > 0 {
        let t = s.drop_last();
        assert forall|i: int| 0 <= i < t.len() implies text::digit_value(#[trigger] t[i]) < 10 by {
            assert(t[i] == s[i]);
        }
        lemma_digits_bounds(t);
        lemma_pow_adds(10, 1, (s.len() - 1) as nat);
        lemma_pow1(10);
        assert(text::digit_value(s.last()) < 10);
        if s[0] != '0' {
            if s.len() > 1 {
                assert(t[0] == s[0]);
                lemma_pow_adds(10, 1, (s.len() - 2) as nat);
            } else {
                assert(text::digit_value(s[0]) < 10);
                assert(text::digits_value(t, 10) == 0);
            }
        }
    }
}

/// Zeros in front do not change the number.
proof fn lemma_leading_zeros(s: Seq<char>, z: int)
    requires
        0 <= z <= s.len(),
        forall|i: int| 0 <= i < z ==> s[i] == '0',
    ensures
        text::digits_value(s, 10) == text::digits_value(s.skip(z), 10),
    decreases s.len(),
{
    if s.len() > 0 {
        let t = s.drop_last();
        if z < s.len() {
            lemma_leading_zeros(t, z);
            assert(s.skip(z).drop_last() == t.skip(z));
        } else {
            lemma_leading_zeros(t, z - 1);
            assert(text::digits_value(t.skip(z - 1), 10) == 0);
            assert(s.last() == '0');
        }
    }
}

/// A number of ten to the twentieth or more is not below 2^64.
proof fn lemma_too_large(n: nat, d: nat)
    requires
        d > 0,
        n >= pow(10, 20) * d,
    ensures
        is_magnitude(Magnitude::TooLarge, binary64::nearest(n, d)),
{
    lemma_large_powers();
    lemma2_to64();
    assert(n >= pow2(64) * d) by (nonlinear_arith)
        requires
            n >= pow(10, 20) * d,
            pow(10, 20) >= pow2(64),
    ;
    binary64::lemma_nearest_reaches_power(n, d, 64);
    let a = binary64::nearest(n, d);
    if a.0 == 0 {
        binary64::lemma_whole_zero(a.1);
        assert(a == (a.0, a.1));
    }
}

/// Digits that stand for a number other than zero, times ten to the twentieth or more.
proof fn lemma_decimal_too_large(digits: Seq<char>, exponent: int)
    requires
        text::digits_value(digits, 10) >= 1,
        exponent >= 20,
    ensures
        is_magnitude(Magnitude::TooLarge, nearest_decimal(digits, exponent)),
{
    let v = text::digits_value(digits, 10);
    let p = pow(10, exponent as nat);
    lemma_pow_increases(10, 20, exponent as nat);
    lemma_pow_positive(10, 20);
    assert(v * p >= pow(10, 20) * 1) by (nonlinear_arith)
        requires
            v >= 1,
            p >= pow(10, 20),
            p > 0,
    ;
    lemma_too_large(v * p as nat, 1);
}

/// Digits times ten to an exponent so low that the number vanishes.
proof fn lemma_decimal_zero(digits: Seq<char>, exponent: int)
    requires
        text::all_digits(digits, 10),
        exponent <= -(digits.len() + 336),
    ensures
        is_magnitude(Magnitude::Zero, nearest_decimal(digits, exponent)),
{
    let v = text::digits_value(digits, 10);
    let k = (-exponent) as nat;
    lemma_digits_bounds(digits);
    lemma_large_powers();
    lemma_pow_adds(10, digits.len(), 336);
    lemma_pow_increases(10, digits.len() + 336, k);
    lemma_pow2_pos(1075);
    lemma_pow_positive(10, digits.len());
    let x = pow(10, digits.len());
    let y = pow(10, 336);
    let w = pow2(1075) as int;
    assert(v * w < x * y) by (nonlinear_arith)
        requires
            0 <= v < x,
            0 < w <= y,
    ;
    binary64::lemma_nearest_vanishes(v, pow(10, k) as nat);
}

/// Digits that stand for zero.
proof fn lemma_decimal_of_zeros(digits: Seq<char>, exponent: int)
    requires
        text::digits_value(digits, 10) == 0,
    ensures
        is_magnitude(Magnitude::Zero, nearest_decimal(digits, exponent)),
{
    assert(0 * pow2(1075) == 0);
    if exponent >= 0 {
        assert(0 * pow(10, exponent as nat) == 0);
        binary64::lemma_nearest_vanishes(0, 1);
    } else {
        lemma_pow_positive(10, (-exponent) as nat);
        binary64::lemma_nearest_vanishes(0, pow(10, (-exponent) as nat) as nat);
    }
}

/// An exponent that is out of all bounds may be replaced by another one.
proof fn lemma_capped_exponent(m: Magnitude, digits: Seq<char>, exponent: int, capped: int)
    requires
        text::all_digits(digits, 10),
        is_magnitude(m, nearest_decimal(digits, capped)),
        exponent == capped || (exponent >= 20 && capped >= 20) || (exponent <= -(digits.len() + 336)
            && capped <= -(digits.len() + 336)),
    ensures
        is_magnitude(m, nearest_decimal(digits, exponent)),
{
    if text::digits_value(digits, 10) == 0 {
        lemma_decimal_of_zeros(digits, exponent);
        lemma_decimal_of_zeros(digits, capped);
    } else if exponent >= 20 && capped >= 20 {
        lemma_decimal_too_large(digits, exponent);
        lemma_decimal_too_large(digits, capped);
    } else if exponent != capped {
        lemma_decimal_zero(digits, exponent);
        lemma_decimal_zero(digits, capped);
    }
}

/// The number that the digits stand for.
fn digits_natural(s: &[char]) -> (n: Natural)
    requires
        text::all_digits(s@, 10),
    ensures
        n@ == text::digits_value(s@, 10),
{
    let mut n: Natural = Natural::zero();
    let mut i: usize = 0;
    while i < s.len()
        invariant
            i <= s@.len(),
            n@ == text::digits_value(s@.take(i as int), 10),
        decreases s@.len() - i,
    {
        n = n.mul_add(10, text::digit(s[i]) as u64);
        i += 1;
        assert(s@.take(i as int).drop_last() == s@.take(i - 1));
    }
    assert(s@.take(s@.len() as int) == s@);
    n
}

/// The number `n * 10^k`.
fn times_power_of_ten(n: Natural, k: u128) -> (r: Natural)
    ensures
        r@ == n@ * pow(10, k as nat),
{
    let mut r: Natural = n.mul_add(1, 0);
    let mut i: u128 = 0;
    proof {
        lemma_pow0(10);
        assert(n@ * pow(10, 0) == n@);
    }
    while i < k
        invariant
            i <= k,
            r@ == n@ * pow(10, i as nat),
        decreases k - i,
    {
        proof {
            lemma_pow1(10);
            lemma_pow_adds(10, i as nat, 1);
            let p = pow(10, i as nat);
            assert((n@ * p) * 10 == n@ * (p * 10)) by (nonlinear_arith);
        }
        r = r.mul_add(10, 0);
        i = i + 1;
    }
    r
}

/// The number nearest to `n / d`.
fn magnitude(n: &Natural, d: &Natural) -> (m: Magnitude)
    requires
        d@ > 0,
    ensures
        is_magnitude(m, binary64::nearest(n@, d@)),
{
    let b = Binary64::nearest(n, d);
    if b.significand == 0 {
        return Magnitude::Zero;
    }
    proof {
        lemma2_to64();
    }
    if b.exponent >= 64 {
        proof {
            let e = b.exponent as nat;
            if e > 64 {
                lemma_pow2_strictly_increases(64, e);
            }
            let s = b.significand as nat;
            assert(s * pow2(e) >= pow2(64)) by (nonlinear_arith)
                requires
                    s >= 1,
                    pow2(e) >= pow2(64),
            ;
        }
        return Magnitude::TooLarge;
    }
    if b.exponent >= 0 {
        let p: u128 = binary64::power_of_two(b.exponent as u32);
        proof {
            lemma_pow2_strictly_increases(b.exponent as nat, 64);
        }
        assert(b.significand * p <= 0x20_0000_0000_0000 * 0x1_0000_0000_0000_0000)
            by (nonlinear_arith)
            requires
                b.significand <= 0x20_0000_0000_0000,
                p <= 0x1_0000_0000_0000_0000,
        ;
        if b.significand as u128 * p >= 0x1_0000_0000_0000_0000 {
            return Magnitude::TooLarge;
        }
    } else {
        proof {
            binary64::lemma_whole_at_most(b.significand as nat, (-b.exponent) as nat);
        }
    }
    Magnitude::Value(b)
}

/// The number that the digits stand for, times ten to `exponent`.
fn decimal_magnitude(digits: &[char], exponent: i128) -> (m: Magnitude)
    requires
        text::all_digits(digits@, 10),
        -0x100_0000_0000_0000_0000 <= exponent <= 0x100_0000_0000_0000_0000,
    ensures
        is_magnitude(m, nearest_decimal(digits@, exponent as int)),
{
    let mut zeros: usize = 0;
    while zeros < digits.len() && digits[zeros] == '0'
        invariant
            zeros <= digits@.len(),
            forall|i: int| 0 <= i < zeros ==> digits@[i] == '0',
        decreases digits@.len() - zeros,
    {
        zeros += 1;
    }
    let sig = slice_subrange(digits, zeros, digits.len());
    proof {
        assert(sig@ == digits@.skip(zeros as int));
        lemma_leading_zeros(digits@, zeros as int);
        assert forall|i: int| 0 <= i < sig@.len() implies text::digit_value(#[trigger] sig@[i])
            < 10 by {
            assert(sig@[i] == digits@[i + zeros]);
        }
        lemma_digits_bounds(sig@);
    }
    let count: i128 = sig.len() as i128;
    if count == 0 {
        proof {
            lemma_decimal_of_zeros(digits@, exponent as int);
        }
        return Magnitude::Zero;
    }
    assert(sig@[0] != '0');
    let ghost v = text::digits_value(digits@, 10);
    if exponent >= 0 {
        if count - 1 + exponent >= 20 {
            proof {
                let p = pow(10, exponent as nat);
                let q = pow(10, (count - 1) as nat);
                lemma_pow_adds(10, (count - 1) as nat, exponent as nat);
                lemma_pow_increases(10, 20, (count - 1 + exponent) as nat);
                lemma_pow_positive(10, exponent as nat);
                assert(v * p >= q * p) by (nonlinear_arith)
                    requires
                        v >= q,
                        p > 0,
                ;
                lemma_too_large(v * p as nat, 1);
            }
            return Magnitude::TooLarge;
        }
        let n = times_power_of_ten(digits_natural(sig), exponent as u128);
        proof {
            lemma_pow_positive(10, exponent as nat);
        }
        magnitude(&n, &Natural::from_u128(1))
    } else {
        let k: i128 = -exponent;
        proof {
            lemma_pow_positive(10, k as nat);
        }
        if count - 1 >= 20 + k {
            proof {
                lemma_pow_adds(10, 20, k as nat);
                lemma_pow_increases(10, (20 + k) as nat, (count - 1) as nat);
                lemma_too_large(v, pow(10, k as nat) as nat);
            }
            return Magnitude::TooLarge;
        }
        if k >= count + 336 {
            proof {
                lemma_decimal_zero(sig@, exponent as int);
            }
            return Magnitude::Zero;
        }
        let d = times_power_of_ten(Natural::from_u128(1), k as u128);
        magnitude(&digits_natural(sig), &d)
    }
}

/// The number that the digits stand for, or `0x10_0000_0000_0000_0000` where it is larger.
fn capped_value(s: &[char]) -> (v: i128)
    requires
        text::all_digits(s@, 10),
    ensures
        v == if text::digits_value(s@, 10) <= 0x10_0000_0000_0000_0000 {
            text::digits_value(s@, 10) as int
        } else {
            0x10_0000_0000_0000_0000
        },
{
    let mut v: i128 = 0;
    let mut i: usize = 0;
    while i < s.len()
        invariant
            i <= s@.len(),
            text::all_digits(s@, 10),
            0 <= v <= 0x10_0000_0000_0000_0000,
            v == text::digits_value(s@.take(i as int), 10),
        decreases s@.len() - i,
    {
        assert(text::digit_value(s@[i as int]) < 10);
        v = v * 10 + text::digit(s[i]) as i128;
        i += 1;
        proof {
            assert(s@.take(i as int).drop_last() == s@.take(i - 1));
            lemma_prefix_value(s@, i as int, 10);
        }
        if v > 0x10_0000_0000_0000_0000 {
            return 0x10_0000_0000_0000_0000;
        }
    }
    assert(s@.take(s@.len() as int) == s@);
    v
}

/// The number nearest to `x` that is no further from zero than 2^68.
spec fn cap(x: int) -> int {
    if x > 0x10_0000_0000_0000_0000 {
        0x10_0000_0000_0000_0000
    } else if x < -0x10_0000_0000_0000_0000 {
        -0x10_0000_0000_0000_0000
    } else {
        x
    }
}

/// The exponent that `s` writes, kept within bounds.
fn parse_exponent(s: &[char]) -> (r: Option<i128>)
    ensures
        r is Some == exponent_value(s@) is Some,
        r matches Some(v) ==> v == cap(exponent_value(s@).unwrap()),
{
    let t: &[char] = if s.len() > 0 && (s[0] == '+' || s[0] == '-') {
        slice_subrange(s, 1, s.len())
    } else {
        s
    };
    proof {
        if s@.len() > 0 {
            assert(s@.subrange(1, s@.len() as int) == s@.skip(1));
        }
    }
    if t.len() == 0 || !text::are_digits(t, 10) {
        return None;
    }
    let v: i128 = capped_value(t);
    if s[0] == '-' {
        Some(-v)
    } else {
        Some(v)
    }
}

/// Whether `c` is the lower case letter `lower`, in any case.
fn matches_letter(c: char, lower: char) -> (r: bool)
    ensures
        r == (c == lower || c as int + 32 == lower as int),
{
    c == lower || c as u32 + 32 == lower as u32
}

/// Whether `s` is the lower case word `word`, in any case.
fn matches_word(s: &[char], word: &str) -> (r: bool)
    ensures
        r == is_word(s@, word@),
{
    let w = text::characters(word);
    if s.len() != w.len() {
        return false;
    }
    let mut i: usize = 0;
    while i < s.len()
        invariant
            i <= s@.len(),
            w@ == word@,
            s@.len() == w@.len(),
            forall|j: int|
                0 <= j < i ==> s@[j] == w@[j] || #[trigger] s@[j] as int + 32 == w@[j] as int,
        decreases s@.len() - i,
    {
        if !matches_letter(s[i], w[i]) {
            return false;
        }
        i += 1;
    }
    true
}

/// The number that `s` writes in decimal, without a sign.
fn parse_decimal(s: &[char]) -> (r: Option<Magnitude>)
    ensures
        r is Some == decimal_literal(s@) is Some,
        r matches Some(m) ==> (decimal_literal(s@) matches Some(Literal::Finite {
            digits,
            exponent,
        }) && is_magnitude(m, nearest_decimal(digits, exponent))),
{
    let k: usize = text::count_digits(s);
    let rest = slice_subrange(s, k, s.len());
    let mut digits: Vec<char> = Vec::new();
    let mut i: usize = 0;
    while i < k
        invariant
            i <= k <= s@.len(),
            digits@ == s@.take(i as int),
        decreases k - i,
    {
        digits.push(s[i]);
        i += 1;
        assert(s@.take(i - 1).push(s@[i - 1]) == s@.take(i as int));
    }
    let mut tail: &[char] = rest;
    let mut scale: usize = 0;
    proof {
        assert(rest@ == s@.skip(k as int));
        text::lemma_leading_digits(s@);
    }
    if rest.len() > 0 && rest[0] == '.' {
        let behind = slice_subrange(rest, 1, rest.len());
        assert(behind@ == rest@.skip(1));
        scale = text::count_digits(behind);
        tail = slice_subrange(behind, scale, behind.len());
        let mut j: usize = 0;
        while j < scale
            invariant
                j <= scale <= behind@.len(),
                digits@ == s@.take(k as int) + behind@.take(j as int),
            decreases scale - j,
        {
            digits.push(behind[j]);
            j += 1;
            assert(behind@.take(j - 1).push(behind@[j - 1]) == behind@.take(j as int));
        }
        proof {
            text::lemma_leading_digits(behind@);
            assert(tail@ == behind@.skip(scale as int));
        }
    }
    proof {
        assert(digits@ == s@.take(k as int) + fraction(rest@));
        assert(tail@ == behind_fraction(rest@));
        assert(scale == fraction(rest@).len());
        assert forall|i: int| 0 <= i < digits@.len() implies text::digit_value(
            #[trigger] digits@[i],
        ) < 10 by {
            if i < k {
                assert(digits@[i] == s@.take(k as int)[i]);
            } else {
                assert(digits@[i] == fraction(rest@)[i - k]);
            }
        }
    }
    if digits.len() == 0 {
        return None;
    }
    if tail.len() == 0 {
        return Some(decimal_magnitude(digits.as_slice(), -(scale as i128)));
    }
    if tail[0] != 'e' && tail[0] != 'E' {
        return None;
    }
    let behind = slice_subrange(tail, 1, tail.len());
    assert(behind@ == tail@.skip(1));
    match parse_exponent(behind) {
        None => None,
        Some(exponent) => {
            let capped: i128 = exponent - scale as i128;
            let m = decimal_magnitude(digits.as_slice(), capped);
            proof {
                let x = exponent_value(tail@.skip(1)).unwrap();
                assert(digits@.len() == digits.len());
                lemma_capped_exponent(m, digits@, x - scale, capped as int);
            }
            Some(m)
        },
    }
}

/// What `s` stands for as a decimal literal without a sign.
pub fn parse_literal(s: &[char]) -> (r: Option<Unsigned>)
    ensures
        match literal(s@) {
            None => r is None,
            Some(Literal::NotANumber) => r == Some(Unsigned::NotANumber),
            Some(Literal::Infinite) => r == Some(Unsigned::Infinite),
            Some(Literal::Finite { digits, exponent }) => r matches Some(Unsigned::Finite(m))
                && is_magnitude(m, nearest_decimal(digits, exponent)),
        },
{
    if matches_word(s, "inf") || matches_word(s, "infinity") {
        Some(Unsigned::Infinite)
    } else if matches_word(s, "nan") {
        Some(Unsigned::NotANumber)
    } else {
        match parse_decimal(s) {
            Some(m) => Some(Unsigned::Finite(m)),
            None => None,
        }
    }
}

} // verus!
