//! Characters, digits and pieces of text.

use vstd::arithmetic::div_mod::*;
use vstd::arithmetic::power::*;
use vstd::prelude::*;
use vstd::slice::*;

verus! {

/// The place of the first `c` in `s`, or the length of `s` where there is none.
pub open spec fn find(s: Seq<char>, c: char) -> nat
    decreases s.len(),
{
    if s.len() == 0 || s[0] == c {
        0
    } else {
        1 + find(s.drop_first(), c)
    }
}

/// The pieces of `s` between the separators `c`.
pub open spec fn split(s: Seq<char>, c: char) -> Seq<Seq<char>>
    decreases s.len(),
{
    let i = find(s, c);
    if i < s.len() {
        seq![s.take(i as int)] + split(s.skip(i as int + 1), c)
    } else {
        seq![s]
    }
}

/// The value of a digit, which is 16 where `c` is no hexadecimal digit.
pub open spec fn digit_value(c: char) -> nat {
    if '0' <= c <= '9' {
        (c as int - '0' as int) as nat
    } else if 'a' <= c <= 'f' {
        (c as int - 'a' as int + 10) as nat
    } else if 'A' <= c <= 'F' {
        (c as int - 'A' as int + 10) as nat
    } else {
        16
    }
}

/// Whether every character of `s` is a digit in the base `radix`.
pub open spec fn all_digits(s: Seq<char>, radix: nat) -> bool {
    forall|i: int| 0 <= i < s.len() ==> digit_value(#[trigger] s[i]) < radix
}

/// The number that the digits `s` stand for in the base `radix`.
pub open spec fn digits_value(s: Seq<char>, radix: nat) -> nat
    decreases s.len(),
{
    if s.len() == 0 {
        0
    } else {
        digits_value(s.drop_last(), radix) * radix + digit_value(s.last())
    }
}

/// The character of a digit.
pub open spec fn digit_char(d: nat) -> char {
    if d < 10 {
        ('0' as int + d) as char
    } else {
        ('a' as int + d - 10) as char
    }
}

/// The digits of a number in the base `radix`, which is 2 or more.
pub open spec fn written(n: nat, radix: nat) -> Seq<char>
    decreases n,
{
    if radix < 2 || n < radix {
        seq![digit_char(n)]
    } else {
        proof {
            lemma_div_decreases(n as int, radix as int);
        }
        written(n / radix, radix).push(digit_char(n % radix))
    }
}

/// The pieces with a separator `c` between each two.
pub open spec fn joined(pieces: Seq<Seq<char>>, c: char) -> Seq<char>
    decreases pieces.len(),
{
    if pieces.len() == 0 {
        Seq::empty()
    } else if pieces.len() == 1 {
        pieces[0]
    } else {
        pieces[0] + seq![c] + joined(pieces.drop_first(), c)
    }
}

/// Whether `c` is not in `s`.
pub open spec fn lacks(s: Seq<char>, c: char) -> bool {
    forall|i: int| 0 <= i < s.len() ==> s[i] != c
}

/// The number of decimal digits that `s` starts with.
pub open spec fn leading_digits(s: Seq<char>) -> nat
    decreases s.len(),
{
    if s.len() == 0 || digit_value(s[0]) >= 10 {
        0
    } else {
        1 + leading_digits(s.drop_first())
    }
}

/// Whether `s` starts with `prefix`.
pub open spec fn starts_with(s: Seq<char>, prefix: Seq<char>) -> bool {
    prefix.len() <= s.len() && s.take(prefix.len() as int) == prefix
}

/// `i` is the first place of `c` in `s`.
pub(crate) proof fn lemma_find_is(s: Seq<char>, c: char, i: int)
    requires
        0 <= i <= s.len(),
        forall|j: int| 0 <= j < i ==> s[j] != c,
        i < s.len() ==> s[i] == c,
    ensures
        find(s, c) == i,
    decreases s.len(),
{
    if s.len() > 0 && i > 0 {
        assert(s[0] != c);
        let t = s.drop_first();
        assert forall|j: int| 0 <= j < i - 1 implies t[j] != c by {
            assert(t[j] == s[j + 1]);
        }
        lemma_find_is(t, c, i - 1);
    }
}

/// `k` is the number of digits that `s` starts with.
pub(crate) proof fn lemma_leading_digits_is(s: Seq<char>, k: int)
    requires
        0 <= k <= s.len(),
        forall|j: int| 0 <= j < k ==> digit_value(#[trigger] s[j]) < 10,
        k < s.len() ==> digit_value(s[k]) >= 10,
    ensures
        leading_digits(s) == k,
    decreases s.len(),
{
    if s.len() > 0 && k > 0 {
        assert(digit_value(s[0]) < 10);
        let t = s.drop_first();
        assert forall|j: int| 0 <= j < k - 1 implies digit_value(#[trigger] t[j]) < 10 by {
            assert(t[j] == s[j + 1]);
        }
        lemma_leading_digits_is(t, k - 1);
    }
}

/// The leading digits are digits, and the character behind them is none.
pub proof fn lemma_leading_digits(s: Seq<char>)
    ensures
        leading_digits(s) <= s.len(),
        all_digits(s.take(leading_digits(s) as int), 10),
        leading_digits(s) < s.len() ==> digit_value(s[leading_digits(s) as int]) >= 10,
        leading_digits(s) == s.len() <==> all_digits(s, 10),
    decreases s.len(),
{
    if s.len() > 0 && digit_value(s[0]) < 10 {
        let t = s.drop_first();
        lemma_leading_digits(t);
        let k = leading_digits(s) as int;
        assert forall|i: int| 0 <= i < k implies digit_value(#[trigger] s.take(k)[i]) < 10 by {
            if i > 0 {
                assert(s.take(k)[i] == t.take(k - 1)[i - 1]);
            }
        }
        if k == s.len() {
            assert(s.take(k) == s);
        } else {
            assert(digit_value(s[k]) >= 10);
        }
    } else if s.len() > 0 {
        assert(digit_value(s[0]) >= 10);
    }
}

/// A number that is written is read back: its digits have it as their value, and only zero starts
/// with a zero.
pub proof fn lemma_written(n: nat, radix: nat)
    requires
        2 <= radix <= 16,
    ensures
        written(n, radix).len() > 0,
        all_digits(written(n, radix), radix),
        digits_value(written(n, radix), radix) == n,
        n > 0 ==> written(n, radix)[0] != '0',
        written(n, radix).len() > 1 ==> n > 0,
    decreases n,
{
    let s = written(n, radix);
    if n < radix {
        assert(s.drop_last() =~= Seq::<char>::empty());
        assert(digits_value(s.drop_last(), radix) == 0);
        assert(0 * radix == 0);
        assert(digit_value(s.last()) == n);
    } else {
        let q = n / radix;
        lemma_div_decreases(n as int, radix as int);
        lemma_fundamental_div_mod(n as int, radix as int);
        lemma_written(q, radix);
        let t = written(q, radix);
        assert(s.drop_last() =~= t);
        assert(q * radix == radix * q) by (nonlinear_arith);
        lemma_div_non_zero(n as int, radix as int);
        assert forall|i: int| 0 <= i < s.len() implies digit_value(#[trigger] s[i]) < radix by {
            if i < t.len() {
                assert(s[i] == t[i]);
            }
        }
        assert(s[0] == t[0]);
        assert(digit_value(s.last()) == n % radix);
        assert(digits_value(s, radix) == q * radix + n % radix);
    }
}

/// A number below a power of the base has no more digits than the exponent.
pub(crate) proof fn lemma_written_len(n: nat, radix: nat, k: nat)
    requires
        2 <= radix,
        1 <= k,
        n < pow(radix as int, k),
    ensures
        written(n, radix).len() <= k,
    decreases k,
{
    if n >= radix {
        lemma_pow1(radix as int);
        assert(k > 1);
        lemma_pow_adds(radix as int, 1, (k - 1) as nat);
        let p = pow(radix as int, (k - 1) as nat);
        lemma_fundamental_div_mod(n as int, radix as int);
        let q = n / radix;
        assert(q < p) by (nonlinear_arith)
            requires
                n == radix * q + n % radix,
                n % radix >= 0,
                n < radix * p,
                radix > 0,
        ;
        lemma_written_len(q, radix, (k - 1) as nat);
    }
}

/// Pieces that are joined with a separator that is in none of them are the pieces between the
/// separators.
pub proof fn lemma_split_joined(pieces: Seq<Seq<char>>, c: char)
    requires
        pieces.len() > 0,
        forall|i: int| 0 <= i < pieces.len() ==> lacks(#[trigger] pieces[i], c),
    ensures
        split(joined(pieces, c), c) == pieces,
    decreases pieces.len(),
{
    let s = joined(pieces, c);
    let head = pieces[0];
    assert(lacks(head, c));
    if pieces.len() == 1 {
        lemma_find_is(s, c, s.len() as int);
        assert(pieces =~= seq![head]);
    } else {
        let rest = pieces.drop_first();
        assert forall|i: int| 0 <= i < rest.len() implies lacks(#[trigger] rest[i], c) by {
            assert(rest[i] == pieces[i + 1]);
        }
        lemma_split_joined(rest, c);
        let k = head.len() as int;
        assert forall|j: int| 0 <= j < k implies s[j] != c by {
            assert(s[j] == head[j]);
        }
        lemma_find_is(s, c, k);
        assert(s.take(k) =~= head);
        assert(s.skip(k + 1) =~= joined(rest, c));
        assert(pieces =~= seq![head] + rest);
    }
}

/// A character that is in no piece, and is not the separator, is not in the joined pieces.
pub(crate) proof fn lemma_joined_lacks(pieces: Seq<Seq<char>>, c: char, x: char)
    requires
        x != c,
        forall|i: int| 0 <= i < pieces.len() ==> lacks(#[trigger] pieces[i], x),
    ensures
        lacks(joined(pieces, c), x),
    decreases pieces.len(),
{
    if pieces.len() > 0 {
        assert(lacks(pieces[0], x));
        let rest = pieces.drop_first();
        assert forall|i: int| 0 <= i < rest.len() implies lacks(#[trigger] rest[i], x) by {
            assert(rest[i] == pieces[i + 1]);
        }
        lemma_joined_lacks(rest, c, x);
        let s = joined(pieces, c);
        if pieces.len() > 1 {
            let tail = joined(rest, c);
            let k = pieces[0].len() as int;
            assert forall|i: int| 0 <= i < s.len() implies s[i] != x by {
                if i < k {
                    assert(s[i] == pieces[0][i]);
                } else if i > k {
                    assert(s[i] == tail[i - k - 1]);
                }
            }
        }
    }
}

/// What each character is as a digit.
pub proof fn lemma_digit_value(c: char)
    ensures
        '0' <= c <= '9' ==> digit_value(c) == c as int - '0' as int,
        'a' <= c <= 'f' ==> digit_value(c) == c as int - 'a' as int + 10,
        'A' <= c <= 'F' ==> digit_value(c) == c as int - 'A' as int + 10,
        digit_value(c) < 16 ==> ('0' <= c <= '9' || 'a' <= c <= 'f' || 'A' <= c <= 'F'),
{
}

/// Which texts are decimal and hexadecimal digits.
pub proof fn lemma_all_digits(s: Seq<char>)
    ensures
        all_digits(s, 10) <==> forall|i: int| 0 <= i < s.len() ==> '0' <= #[trigger] s[i] <= '9',
        all_digits(s, 16) <==> forall|i: int|
            0 <= i < s.len() ==> ('0' <= #[trigger] s[i] <= '9' || 'a' <= s[i] <= 'f' || 'A' <= s[i]
                <= 'F'),
{
    if all_digits(s, 10) {
        assert forall|i: int| 0 <= i < s.len() implies '0' <= #[trigger] s[i] <= '9' by {
            assert(digit_value(s[i]) < 10);
        }
    }
    if all_digits(s, 16) {
        assert forall|i: int| 0 <= i < s.len() implies ('0' <= #[trigger] s[i] <= '9' || 'a'
            <= s[i] <= 'f' || 'A' <= s[i] <= 'F') by {
            assert(digit_value(s[i]) < 16);
        }
    }
}

/// The value of digits in place notation: one digit stands for itself, and in front of others
/// digits count as many times more as there are powers of the base behind them.
pub proof fn lemma_digits_value(a: Seq<char>, b: Seq<char>, radix: nat)
    ensures
        digits_value(Seq::empty(), radix) == 0,
        a.len() == 1 ==> digits_value(a, radix) == digit_value(a[0]),
        digits_value(a + b, radix) == digits_value(a, radix) * pow(radix as int, b.len())
            + digits_value(b, radix),
    decreases b.len(),
{
    if a.len() == 1 {
        assert(a.drop_last() =~= Seq::<char>::empty());
        assert(digits_value(a.drop_last(), radix) == 0);
        assert(0 * radix == 0);
    }
    let v = digits_value(a, radix);
    if b.len() == 0 {
        assert(a + b =~= a);
        lemma_pow0(radix as int);
        assert(v * 1 == v);
    } else {
        let c = b.drop_last();
        lemma_digits_value(a, c, radix);
        assert((a + b).drop_last() =~= a + c);
        assert((a + b).last() == b.last());
        lemma_pow1(radix as int);
        lemma_pow_adds(radix as int, c.len(), 1);
        let p = pow(radix as int, c.len());
        let w = digits_value(c, radix);
        assert((v * p + w) * radix == v * (p * radix) + w * radix) by (nonlinear_arith);
    }
}

/// The first place of a character has the character, and none before it has.
pub proof fn lemma_find(s: Seq<char>, c: char)
    ensures
        find(s, c) <= s.len(),
        find(s, c) < s.len() ==> s[find(s, c) as int] == c,
        lacks(s.take(find(s, c) as int), c),
    decreases s.len(),
{
    let k = find(s, c) as int;
    if s.len() > 0 && s[0] != c {
        let t = s.drop_first();
        lemma_find(t, c);
        assert forall|j: int| 0 <= j < k implies s.take(k)[j] != c by {
            if j > 0 {
                assert(s[j] == t[j - 1]);
                assert(t.take(k - 1)[j - 1] == t[j - 1]);
            }
        }
    }
}

/// The pieces between the separators have none, and make the text again when they are joined.
pub proof fn lemma_joined_split(s: Seq<char>, c: char)
    ensures
        split(s, c).len() > 0,
        forall|i: int| 0 <= i < split(s, c).len() ==> lacks(#[trigger] split(s, c)[i], c),
        joined(split(s, c), c) == s,
    decreases s.len(),
{
    let i = find(s, c) as int;
    let p = split(s, c);
    lemma_find(s, c);
    if i < s.len() {
        let head = s.take(i);
        let rest = s.skip(i + 1);
        lemma_joined_split(rest, c);
        assert forall|j: int| 0 <= j < p.len() implies lacks(#[trigger] p[j], c) by {
            if j > 0 {
                assert(p[j] == split(rest, c)[j - 1]);
            }
        }
        assert(p.drop_first() =~= split(rest, c));
        assert(head + seq![c] + rest =~= s);
    } else {
        assert(s.take(i) =~= s);
    }
}

/// A text that starts with a prefix is the prefix and more, and no other does.
pub proof fn lemma_starts_with(s: Seq<char>, prefix: Seq<char>, more: Seq<char>)
    ensures
        starts_with(prefix + more, prefix),
        starts_with(s, prefix) ==> s == prefix + s.skip(prefix.len() as int),
{
    assert((prefix + more).take(prefix.len() as int) =~= prefix);
    if starts_with(s, prefix) {
        assert(s =~= s.take(prefix.len() as int) + s.skip(prefix.len() as int));
    }
}

/// Pieces are joined with one separator between each two of them.
pub proof fn lemma_joined(piece: Seq<char>, rest: Seq<Seq<char>>, c: char)
    ensures
        joined(Seq::empty(), c) == Seq::<char>::empty(),
        joined(seq![piece], c) == piece,
        rest.len() > 0 ==> joined(seq![piece] + rest, c) == piece + seq![c] + joined(rest, c),
{
    if rest.len() > 0 {
        assert((seq![piece] + rest).drop_first() =~= rest);
    }
}

/// The value of digits is that of other digits with the same values, and zeros in front do not
/// change it.
pub proof fn lemma_same_value(a: Seq<char>, b: Seq<char>, radix: nat)
    requires
        a.len() >= b.len(),
        forall|i: int| 0 <= i < a.len() - b.len() ==> #[trigger] a[i] == '0',
        forall|i: int|
            a.len() - b.len() <= i < a.len() ==> digit_value(#[trigger] a[i]) == digit_value(
                b[i - (a.len() - b.len())],
            ),
    ensures
        digits_value(a, radix) == digits_value(b, radix),
    decreases a.len(),
{
    if b.len() == 0 {
        if a.len() > 0 {
            assert(a[a.len() - 1] == '0');
            lemma_same_value(a.drop_last(), b, radix);
            assert(0 * radix == 0);
        }
    } else {
        let k = a.len() - b.len();
        let (c, d) = (a.drop_last(), b.drop_last());
        assert(digit_value(a[a.len() - 1]) == digit_value(b[b.len() - 1]));
        assert forall|i: int| k <= i < c.len() implies digit_value(#[trigger] c[i]) == digit_value(
            d[i - k],
        ) by {
            assert(c[i] == a[i]);
        }
        lemma_same_value(c, d, radix);
    }
}

/// The characters of `s`.
pub fn characters(s: &str) -> (v: Vec<char>)
    ensures
        v@ == s@,
{
    let mut v: Vec<char> = Vec::new();
    for c in it: s.chars()
        invariant
            it.seq() == s@,
            v@ == s@.take(it.index() as int),
    {
        v.push(c);
        assert(s@.take(it.index() as int).push(c) == s@.take(it.index() as int + 1));
    }
    assert(s@.take(s@.len() as int) == s@);
    v
}

/// The place of the first `c` in `s`, or the length of `s` where there is none.
pub fn position(s: &[char], c: char) -> (i: usize)
    ensures
        i == find(s@, c),
        i <= s@.len(),
{
    let mut i: usize = 0;
    while i < s.len() && s[i] != c
        invariant
            i <= s@.len(),
            forall|j: int| 0 <= j < i ==> s@[j] != c,
        decreases s@.len() - i,
    {
        i += 1;
    }
    proof {
        lemma_find_is(s@, c, i as int);
    }
    i
}

/// The pieces of `s` between the separators `c`.
pub fn pieces<'a>(s: &'a [char], c: char) -> (v: Vec<&'a [char]>)
    ensures
        v@.len() == split(s@, c).len(),
        forall|i: int| 0 <= i < v@.len() ==> (#[trigger] v@[i])@ == split(s@, c)[i],
{
    let mut v: Vec<&'a [char]> = Vec::new();
    let mut rest: &'a [char] = s;
    loop
        invariant
            split(s@, c).len() == v@.len() + split(rest@, c).len(),
            forall|i: int| 0 <= i < v@.len() ==> (#[trigger] v@[i])@ == split(s@, c)[i],
            forall|i: int|
                0 <= i < split(rest@, c).len() ==> #[trigger] split(rest@, c)[i] == split(s@, c)[i
                    + v@.len()],
        decreases rest@.len(),
    {
        let i: usize = position(rest, c);
        let ghost before = rest@;
        let ghost done = v@.len() as int;
        if i == rest.len() {
            assert(split(before, c)[0] == split(s@, c)[done]);
            v.push(rest);
            return v;
        }
        let piece = slice_subrange(rest, 0, i);
        rest = slice_subrange(rest, i + 1, rest.len());
        v.push(piece);
        proof {
            assert(piece@ == before.take(i as int));
            assert(rest@ == before.skip(i as int + 1));
            assert(split(before, c)[0] == piece@);
            assert(split(before, c)[0] == split(s@, c)[done]);
            assert forall|k: int| 0 <= k < split(rest@, c).len() implies #[trigger] split(
                rest@,
                c,
            )[k] == split(s@, c)[k + v@.len()] by {
                assert(split(before, c)[k + 1] == split(rest@, c)[k]);
            }
        }
    }
}

/// The value of a digit, which is 16 where `c` is no hexadecimal digit.
pub fn digit(c: char) -> (d: u32)
    ensures
        d == digit_value(c),
{
    if '0' <= c && c <= '9' {
        c as u32 - '0' as u32
    } else if 'a' <= c && c <= 'f' {
        c as u32 - 'a' as u32 + 10
    } else if 'A' <= c && c <= 'F' {
        c as u32 - 'A' as u32 + 10
    } else {
        16
    }
}

/// The number of decimal digits that `s` starts with.
pub fn count_digits(s: &[char]) -> (k: usize)
    ensures
        k == leading_digits(s@),
        k <= s@.len(),
{
    let mut k: usize = 0;
    while k < s.len() && digit(s[k]) < 10
        invariant
            k <= s@.len(),
            forall|j: int| 0 <= j < k ==> digit_value(#[trigger] s@[j]) < 10,
        decreases s@.len() - k,
    {
        k += 1;
    }
    proof {
        lemma_leading_digits_is(s@, k as int);
    }
    k
}

/// Whether every character of `s` is a digit in the base `radix`.
pub fn are_digits(s: &[char], radix: u32) -> (r: bool)
    ensures
        r == all_digits(s@, radix as nat),
{
    let mut i: usize = 0;
    while i < s.len()
        invariant
            i <= s@.len(),
            forall|j: int| 0 <= j < i ==> digit_value(#[trigger] s@[j]) < radix,
        decreases s@.len() - i,
    {
        if digit(s[i]) >= radix {
            assert(digit_value(s@[i as int]) >= radix);
            return false;
        }
        i += 1;
    }
    true
}

/// Whether `s` is the text `t`.
pub fn same(s: &[char], t: &str) -> (r: bool)
    ensures
        r == (s@ == t@),
{
    let other = characters(t);
    if s.len() != other.len() {
        return false;
    }
    let mut i: usize = 0;
    while i < s.len()
        invariant
            i <= s@.len(),
            other@ == t@,
            s@.len() == other@.len(),
            forall|j: int| 0 <= j < i ==> s@[j] == other@[j],
        decreases s@.len() - i,
    {
        if s[i] != other[i] {
            return false;
        }
        i += 1;
    }
    assert(s@ =~= other@);
    true
}

/// The text behind `prefix`, where `s` starts with it.
pub fn strip_prefix<'a>(s: &'a [char], prefix: &str) -> (r: Option<&'a [char]>)
    ensures
        r is Some == starts_with(s@, prefix@),
        r matches Some(rest) ==> rest@ == s@.skip(prefix@.len() as int),
{
    let k: usize = prefix.unicode_len();
    if k <= s.len() {
        let head = slice_subrange(s, 0, k);
        assert(head@ == s@.take(k as int));
        if same(head, prefix) {
            let rest = slice_subrange(s, k, s.len());
            assert(rest@ == s@.skip(k as int));
            return Some(rest);
        }
    }
    None
}

} // verus!
