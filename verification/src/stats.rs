//! The statistics of a TCP server.

use vstd::arithmetic::power2::*;
use vstd::prelude::*;
use vstd::string::*;

use crate::binary64;
use crate::binary64::Binary64;
use crate::duration::Duration;
use crate::natural::Natural;
use crate::text;

verus! {

/// How many connections are open, and how many bytes came in since the last snapshot.
#[derive(Debug)]
pub struct TcpServerStats {
    conns: usize,
    recv: usize,
}

/// The two counts of the statistics.
pub struct Counts {
    pub conns: usize,
    pub recv: usize,
}

/// The sum of two counts, which starts again at zero behind the largest `usize`.
pub open spec fn wrapping_sum(a: usize, b: usize) -> usize {
    if a + b <= usize::MAX {
        (a + b) as usize
    } else {
        (a + b - usize::MAX - 1) as usize
    }
}

/// The count before `a`, which is the largest `usize` before zero.
pub open spec fn wrapping_previous(a: usize) -> usize {
    if a == 0 {
        usize::MAX
    } else {
        (a - 1) as usize
    }
}

impl Counts {
    /// The counts with one more connection.
    pub open spec fn connected(self) -> Counts {
        Counts { conns: wrapping_sum(self.conns, 1), ..self }
    }

    /// The counts with one connection less.
    pub open spec fn disconnected(self) -> Counts {
        Counts { conns: wrapping_previous(self.conns), ..self }
    }

    /// The counts with `bytes` more bytes.
    pub open spec fn received(self, bytes: usize) -> Counts {
        Counts { recv: wrapping_sum(self.recv, bytes), ..self }
    }

    /// The counts behind a snapshot.
    pub open spec fn reported(self) -> Counts {
        Counts { recv: 0, ..self }
    }
}

/// The decimal digits of a number.
pub open spec fn decimal_text(n: nat) -> Seq<char> {
    text::written(n, 10)
}

/// The text `s` three characters at a time, with a space in front of each three.
pub open spec fn chunks(s: Seq<char>) -> Seq<char>
    decreases s.len(),
{
    if s.len() < 3 {
        Seq::empty()
    } else {
        seq![' '] + s.take(3) + chunks(s.skip(3))
    }
}

/// Digits with a space in front of each group of three, where there are more than three.
pub open spec fn grouped(s: Seq<char>) -> Seq<char> {
    if s.len() <= 3 {
        s
    } else {
        let k = (s.len() % 3) as int;
        s.take(k) + chunks(s.skip(k))
    }
}

/// The milliseconds of a duration in nanoseconds, as a binary64 number.
pub open spec fn milliseconds(nanos: nat) -> (nat, int) {
    binary64::quotient(binary64::nearest(nanos, 1), (1_000_000, 0))
}

/// The kilobits per second of `recv` bytes in a time in nanoseconds, as a binary64 number.
pub open spec fn kilobits(recv: nat, nanos: nat) -> (nat, int) {
    let r = binary64::nearest(recv, 1);
    binary64::quotient((r.0, r.1 + 3), milliseconds(nanos))
}

/// The whole kilobits per second of `recv` bytes in a time in nanoseconds.
pub open spec fn rate(recv: nat, nanos: nat) -> nat {
    let k = binary64::whole(kilobits(recv, nanos));
    if k <= usize::MAX {
        k
    } else {
        usize::MAX as nat
    }
}

/// What a snapshot says of `conns` connections and a rate in kilobits per second.
pub open spec fn snapshot_text(conns: nat, rate: nat) -> Seq<char> {
    grouped(decimal_text(conns)) + " conns, "@ + grouped(decimal_text(rate)) + " Kb/s in"@
}

/// The report on the counts over a time in nanoseconds; there is none below a millisecond.
pub open spec fn report(counts: Counts, nanos: nat) -> Option<Seq<char>> {
    if nanos < 1_000_000 {
        None
    } else {
        Some(snapshot_text(counts.conns as nat, rate(counts.recv as nat, nanos)))
    }
}

/// A time is at least one millisecond as a binary64 number exactly when it is one.
pub proof fn lemma_milliseconds(nanos: nat)
    ensures
        binary64::whole(milliseconds(nanos)) == 0 <==> nanos < 1_000_000,
{
    let a = binary64::nearest(nanos, 1);
    let k = a.1;
    lemma2_to64();
    lemma2_to64_rest();
    if nanos < 0x20_0000_0000_0000 {
        assert(nanos == nanos * 1);
        binary64::lemma_nearest_exact(nanos, 1, nanos);
        let p = pow2((-k) as nat);
        lemma_pow2_pos((-k) as nat);
        let (n, d) = if k == 0 {
            (a.0 * pow2(0), 1_000_000nat)
        } else {
            (a.0, 1_000_000 * p)
        };
        assert(n == nanos * p && d == 1_000_000 * p) by {
            if k == 0 {
                assert(nanos * pow2(0) * pow2(0) == nanos * pow2(0));
            }
        }
        assert(d > 0);
        if nanos < 1_000_000 {
            assert(1_000_000 * (nanos * p) <= 999_999 * (1_000_000 * p)) by (nonlinear_arith)
                requires
                    nanos <= 999_999,
            ;
            binary64::lemma_nearest_stays_below_one(n, d);
        } else {
            assert(nanos * p >= 1_000_000 * p) by (nonlinear_arith)
                requires
                    nanos >= 1_000_000,
            ;
            assert(pow2(0) * d == d);
            binary64::lemma_nearest_reaches_power(n, d, 0);
        }
    } else {
        assert(pow2(53) * 1 == pow2(53));
        binary64::lemma_nearest_reaches_power(nanos, 1, 53);
        let w = binary64::whole(a);
        if k >= 0 {
            assert(pow2(0) * 1_000_000 == 1_000_000);
            binary64::lemma_nearest_reaches_power(a.0 * pow2(k as nat), 1_000_000, 0);
        } else {
            let p = pow2((-k) as nat);
            lemma_pow2_pos((-k) as nat);
            vstd::arithmetic::div_mod::lemma_fundamental_div_mod(a.0 as int, p as int);
            assert(a.0 >= 1_000_000 * p) by (nonlinear_arith)
                requires
                    a.0 == p * w + a.0 as int % p as int,
                    a.0 as int % p as int >= 0,
                    w >= 1_000_000,
                    p > 0,
            ;
            assert(pow2(0) * (1_000_000 * p) == 1_000_000 * p);
            binary64::lemma_nearest_reaches_power(a.0, 1_000_000 * p, 0);
        }
    }
}

/// A connection that is opened and then closed leaves the counts as they were, and so does one
/// that is closed and then opened again.
pub proof fn lemma_connections_balance(c: Counts)
    ensures
        c.connected().disconnected() == c,
        c.disconnected().connected() == c,
{
}

/// The updates of the two counts can be made in any order.
pub proof fn lemma_updates_commute(c: Counts, a: usize, b: usize)
    ensures
        c.received(a).received(b) == c.received(b).received(a),
        c.received(a).connected() == c.connected().received(a),
        c.received(a).disconnected() == c.disconnected().received(a),
{
}

/// Bytes that are counted in two parts are counted like their sum, where that is a `usize`.
pub proof fn lemma_bytes_add_up(c: Counts, a: usize, b: usize)
    requires
        a + b <= usize::MAX,
    ensures
        c.received(a).received(b) == c.received((a + b) as usize),
{
}

/// A snapshot leaves no bytes for the next one: its rate is zero, whatever time has passed.
pub proof fn lemma_nothing_left(c: Counts, nanos: nat)
    requires
        nanos >= 1_000_000,
    ensures
        c.reported().conns == c.conns,
        rate(c.reported().recv as nat, nanos) == 0,
        c.reported().reported() == c.reported(),
{
    let ms = milliseconds(nanos);
    lemma_milliseconds(nanos);
    if ms.0 == 0 {
        binary64::lemma_whole_zero(ms.1);
    }
    assert(0nat == 0nat * 1nat);
    binary64::lemma_nearest_exact(0, 1, 0);
    let r = binary64::nearest(0, 1);
    assert(0nat * pow2((-r.1) as nat) == 0);
    let k = r.1 + 3 - ms.1;
    let (n, d) = if k >= 0 {
        (0nat * pow2(k as nat), ms.0)
    } else {
        (0nat, ms.0 * pow2((-k) as nat))
    };
    assert(n == 0);
    if k < 0 {
        lemma_pow2_pos((-k) as nat);
        assert(d > 0) by (nonlinear_arith)
            requires
                d == ms.0 * pow2((-k) as nat),
                ms.0 > 0,
                pow2((-k) as nat) > 0,
        ;
    }
    assert(n * 1 == 0 * d);
    binary64::lemma_nearest_keeps_whole(n, d, 0, 1);
}

/// A call on the statistics; a snapshot is over a time in nanoseconds.
pub enum Call {
    AddConnection,
    RemoveConnection,
    PushReceivedBytes(usize),
    GetSnapshot(nat),
}

impl Counts {
    /// The counts after a call.
    pub open spec fn after_call(self, call: Call) -> Counts {
        match call {
            Call::AddConnection => self.connected(),
            Call::RemoveConnection => self.disconnected(),
            Call::PushReceivedBytes(bytes) => self.received(bytes),
            Call::GetSnapshot(nanos) => if nanos < 1_000_000 {
                self
            } else {
                self.reported()
            },
        }
    }

    /// The counts after some calls.
    pub open spec fn after_calls(self, calls: Seq<Call>) -> Counts
        decreases calls.len(),
    {
        if calls.len() == 0 {
            self
        } else {
            self.after_calls(calls.drop_last()).after_call(calls.last())
        }
    }
}

/// The bytes that some calls count.
pub open spec fn bytes_pushed(calls: Seq<Call>) -> nat
    decreases calls.len(),
{
    if calls.len() == 0 {
        0
    } else {
        bytes_pushed(calls.drop_last()) + match calls.last() {
            Call::PushReceivedBytes(bytes) => bytes as nat,
            _ => 0,
        }
    }
}

/// The bytes that the snapshots among some calls are about.
pub open spec fn bytes_taken(counts: Counts, calls: Seq<Call>) -> nat
    decreases calls.len(),
{
    if calls.len() == 0 {
        0
    } else {
        bytes_taken(counts, calls.drop_last()) + match calls.last() {
            Call::GetSnapshot(nanos) => if nanos < 1_000_000 {
                0
            } else {
                counts.after_calls(calls.drop_last()).recv as nat
            },
            _ => 0,
        }
    }
}

/// In every order of calls, each byte is in exactly one snapshot, or is there for the next one,
/// as long as all the bytes are a `usize`.
pub proof fn lemma_bytes_taken_once(counts: Counts, calls: Seq<Call>)
    requires
        counts.recv + bytes_pushed(calls) <= usize::MAX,
    ensures
        bytes_taken(counts, calls) + counts.after_calls(calls).recv == counts.recv + bytes_pushed(
            calls,
        ),
    decreases calls.len(),
{
    if calls.len() > 0 {
        lemma_bytes_taken_once(counts, calls.drop_last());
    }
}

/// Over whole milliseconds the rate is the bits for each of them, rounded down, as long as the
/// bits and the nanoseconds are below 2^53.
pub proof fn lemma_rate(recv: nat, millis: nat)
    requires
        8 * recv < 0x20_0000_0000_0000,
        0 < millis,
        1_000_000 * millis < 0x20_0000_0000_0000,
        8 * recv / millis <= usize::MAX,
    ensures
        rate(recv, 1_000_000 * millis) == 8 * recv / millis,
{
    let nanos = 1_000_000 * millis;
    let t = binary64::nearest(nanos, 1);
    assert(nanos == nanos * 1 && recv == recv * 1);
    binary64::lemma_nearest_exact(nanos, 1, nanos);
    binary64::lemma_nearest_exact(recv, 1, recv);
    lemma2_to64();
    // The milliseconds are exact.
    let p1 = pow2((-t.1) as nat);
    lemma_pow2_pos((-t.1) as nat);
    let (n1, d1) = if t.1 == 0 {
        (t.0 * pow2(0), 1_000_000nat)
    } else {
        (t.0, 1_000_000 * p1)
    };
    assert(n1 == millis * d1) by (nonlinear_arith)
        requires
            n1 == (1_000_000 * millis) * p1,
            d1 == 1_000_000 * p1,
    ;
    binary64::lemma_nearest_exact(n1, d1, millis);
    let ms = milliseconds(nanos);
    assert(ms == binary64::nearest(n1, d1));
    let p2 = pow2((-ms.1) as nat);
    lemma_pow2_pos((-ms.1) as nat);
    assert(ms.0 == millis * p2);
    // The bits are exact.
    let r = binary64::nearest(recv, 1);
    let p3 = pow2((-r.1) as nat);
    assert(r.0 == recv * p3);
    let k = r.1 + 3 - ms.1;
    if k >= 0 {
        let q = pow2(k as nat);
        lemma_pow2_adds((-r.1) as nat, k as nat);
        lemma_pow2_adds(3, (-ms.1) as nat);
        assert(p3 * q == 8 * p2);
        let (n, d) = (r.0 * q, ms.0);
        assert(n * millis == (8 * recv) * d) by (nonlinear_arith)
            requires
                n == (recv * p3) * q,
                d == millis * p2,
                p3 * q == 8 * p2,
        ;
        assert(d > 0) by (nonlinear_arith)
            requires
                d == millis * p2,
                millis > 0,
                p2 > 0,
        ;
        binary64::lemma_nearest_keeps_whole(n, d, 8 * recv, millis);
    } else {
        let q = pow2((-k) as nat);
        lemma_pow2_pos((-k) as nat);
        lemma_pow2_adds(3, (-ms.1) as nat);
        lemma_pow2_adds((3 - ms.1) as nat, (-k) as nat);
        assert(p3 == (8 * p2) * q);
        let (n, d) = (r.0, ms.0 * q);
        assert(n * millis == (8 * recv) * d) by (nonlinear_arith)
            requires
                n == recv * p3,
                d == (millis * p2) * q,
                p3 == (8 * p2) * q,
        ;
        assert(d > 0) by (nonlinear_arith)
            requires
                d == (millis * p2) * q,
                millis > 0,
                p2 > 0,
                q > 0,
        ;
        binary64::lemma_nearest_keeps_whole(n, d, 8 * recv, millis);
    }
}

/// A text without its spaces.
pub open spec fn without_spaces(s: Seq<char>) -> Seq<char> {
    s.filter(|c: char| c != ' ')
}

proof fn lemma_take_and_skip(s: Seq<char>, k: int)
    requires
        0 <= k <= s.len(),
    ensures
        s.take(k) + s.skip(k) == s,
{
    assert(s.take(k) + s.skip(k) =~= s);
}

proof fn lemma_without_spaces_chunks(s: Seq<char>)
    requires
        forall|i: int| 0 <= i < s.len() ==> s[i] != ' ',
        s.len() % 3 == 0,
    ensures
        without_spaces(chunks(s)) == s,
    decreases s.len(),
{
    let keep = |c: char| c != ' ';
    if s.len() == 0 {
        assert(chunks(s).filter(keep) =~= s) by {
            reveal(Seq::filter);
        }
    } else {
        let head = seq![' '] + s.take(3);
        let tail = s.skip(3);
        lemma_without_spaces_chunks(tail);
        Seq::filter_distributes_over_add(head, chunks(tail), keep);
        Seq::filter_distributes_over_add(seq![' '], s.take(3), keep);
        lemma_all_kept(s.take(3));
        assert(seq![' '].filter(keep) =~= Seq::<char>::empty()) by {
            reveal(Seq::filter);
            let none = seq![' '].drop_last();
            assert(none =~= Seq::<char>::empty());
            assert(none.filter(keep) =~= none);
            assert(!keep(seq![' '].last()));
        }
        lemma_take_and_skip(s, 3);
    }
}

proof fn lemma_all_kept(s: Seq<char>)
    requires
        forall|i: int| 0 <= i < s.len() ==> s[i] != ' ',
    ensures
        without_spaces(s) == s,
    decreases s.len(),
{
    reveal(Seq::filter);
    if s.len() > 0 {
        lemma_all_kept(s.drop_last());
        assert(s =~= s.drop_last().push(s.last()));
    }
}

/// The text of a number in groups shows the number: without its spaces it is the decimal digits
/// that have the number as their value.
pub proof fn lemma_grouped_shows_number(n: nat)
    ensures
        without_spaces(grouped(decimal_text(n))) == decimal_text(n),
        text::all_digits(decimal_text(n), 10),
        text::digits_value(decimal_text(n), 10) == n,
{
    let s = decimal_text(n);
    lemma_decimal_text_digits(n);
    text::lemma_written(n, 10);
    assert forall|i: int| 0 <= i < s.len() implies s[i] != ' ' by {}
    if s.len() <= 3 {
        lemma_all_kept(s);
    } else {
        let k = (s.len() % 3) as int;
        lemma_all_kept(s.take(k));
        lemma_without_spaces_chunks(s.skip(k));
        Seq::filter_distributes_over_add(s.take(k), chunks(s.skip(k)), |c: char| c != ' ');
        lemma_take_and_skip(s, k);
    }
}

/// The digits of a number.
fn decimal_digits(n: usize) -> (v: Vec<char>)
    ensures
        v@ == decimal_text(n as nat),
    decreases n,
{
    let d: u32 = (n % 10) as u32;
    let mut v: Vec<char> = if n < 10 {
        Vec::new()
    } else {
        decimal_digits(n / 10)
    };
    v.push(digit(d));
    v
}

/// The character of a decimal digit.
fn digit(d: u32) -> (c: char)
    requires
        d < 10,
    ensures
        c == text::digit_char(d as nat),
{
    match d {
        0 => '0',
        1 => '1',
        2 => '2',
        3 => '3',
        4 => '4',
        5 => '5',
        6 => '6',
        7 => '7',
        8 => '8',
        _ => '9',
    }
}

/// The digits of a number are decimal digits.
proof fn lemma_decimal_text_digits(n: nat)
    ensures
        forall|i: int|
            0 <= i < decimal_text(n).len() ==> '0' <= #[trigger] decimal_text(n)[i] <= '9',
{
    text::lemma_written(n, 10);
    assert forall|i: int| 0 <= i < decimal_text(n).len() implies '0' <= #[trigger] decimal_text(
        n,
    )[i] <= '9' by {
        assert(text::digit_value(decimal_text(n)[i]) < 10);
    }
}

/// Appends a decimal digit.
fn push_digit(builder: &mut String, c: char)
    requires
        '0' <= c <= '9',
    ensures
        final(builder)@ == old(builder)@.push(c),
{
    proof {
        reveal_strlit("0");
        reveal_strlit("1");
        reveal_strlit("2");
        reveal_strlit("3");
        reveal_strlit("4");
        reveal_strlit("5");
        reveal_strlit("6");
        reveal_strlit("7");
        reveal_strlit("8");
        reveal_strlit("9");
    }
    match c {
        '0' => builder.append("0"),
        '1' => builder.append("1"),
        '2' => builder.append("2"),
        '3' => builder.append("3"),
        '4' => builder.append("4"),
        '5' => builder.append("5"),
        '6' => builder.append("6"),
        '7' => builder.append("7"),
        '8' => builder.append("8"),
        _ => builder.append("9"),
    }
    assert(builder@ =~= old(builder)@.push(c));
}

/// Appends a number in groups of three digits.
fn push_formatted(builder: &mut String, num: usize)
    ensures
        final(builder)@ == old(builder)@ + grouped(decimal_text(num as nat)),
{
    let s = decimal_digits(num);
    proof {
        lemma_decimal_text_digits(num as nat);
        reveal_strlit(" ");
    }
    let start: usize = if s.len() <= 3 {
        s.len()
    } else {
        s.len() % 3
    };
    let ghost before = builder@;
    let mut i: usize = 0;
    while i < start
        invariant
            i <= start <= s@.len(),
            forall|j: int| 0 <= j < s@.len() ==> '0' <= #[trigger] s@[j] <= '9',
            builder@ == before + s@.take(i as int),
        decreases start - i,
    {
        push_digit(builder, s[i]);
        i += 1;
        assert(s@.take(i - 1).push(s@[i - 1]) == s@.take(i as int));
    }
    let ghost head = before + s@.take(start as int);
    assert(chunks(s@.skip(start as int)) =~= Seq::<char>::empty() + chunks(s@.skip(start as int)));
    let ghost mut done: Seq<char> = Seq::empty();
    while i < s.len()
        invariant
            start <= i <= s@.len(),
            (s@.len() - i) % 3 == 0,
            forall|j: int| 0 <= j < s@.len() ==> '0' <= #[trigger] s@[j] <= '9',
            builder@ == head + done,
            chunks(s@.skip(start as int)) == done + chunks(s@.skip(i as int)),
            " "@ == seq![' '],
        decreases s@.len() - i,
    {
        builder.append(" ");
        push_digit(builder, s[i]);
        push_digit(builder, s[i + 1]);
        push_digit(builder, s[i + 2]);
        proof {
            let rest = s@.skip(i as int);
            let chunk = seq![' '] + rest.take(3);
            assert(builder@ =~= head + (done + chunk));
            assert(rest.skip(3) == s@.skip(i as int + 3));
            assert(done + (chunk + chunks(rest.skip(3))) =~= (done + chunk) + chunks(rest.skip(3)));
            done = done + chunk;
        }
        i += 3;
    }
    proof {
        assert(chunks(s@.skip(i as int)) == Seq::<char>::empty());
        assert(builder@ =~= before + grouped(s@)) by {
            if s@.len() <= 3 {
                assert(s@.take(start as int) == s@);
                assert(s@.skip(start as int).len() == 0);
            }
        }
    }
}

impl View for TcpServerStats {
    type V = Counts;

    closed spec fn view(&self) -> Counts {
        Counts { conns: self.conns, recv: self.recv }
    }
}

impl TcpServerStats {
    /// Statistics without a connection and without a byte.
    pub fn new() -> (stats: TcpServerStats)
        ensures
            stats@ == (Counts { conns: 0, recv: 0 }),
    {
        TcpServerStats { conns: 0, recv: 0 }
    }

    /// Counts a connection that was opened.
    pub fn add_connection(&mut self)
        ensures
            final(self)@ == old(self)@.connected(),
    {
        self.conns = self.conns.wrapping_add(1);
    }

    /// Counts a connection that was closed.
    pub fn remove_connection(&mut self)
        ensures
            final(self)@ == old(self)@.disconnected(),
    {
        self.conns = self.conns.wrapping_sub(1);
    }

    /// Counts bytes that came in.
    pub fn push_received_bytes(&mut self, bytes: usize)
        ensures
            final(self)@ == old(self)@.received(bytes),
    {
        self.recv = self.recv.wrapping_add(bytes);
    }

    /// The open connections, and the rate of the bytes that came in over the last `duration`.
    ///
    /// The bytes are counted from zero again. Nothing is said, and nothing changed, where the
    /// duration is below a millisecond.
    pub fn get_snapshot(&mut self, duration: Duration) -> (snapshot: Option<String>)
        ensures
            final(self)@ == old(self)@.after_call(Call::GetSnapshot(duration@)),
            match report(old(self)@, duration@) {
                Some(text) => snapshot matches Some(s) && s@ == text,
                None => snapshot is None,
            },
            duration@ < 1_000_000 ==> snapshot is None,
            duration@ >= 1_000_000 ==> (snapshot matches Some(s) && s@ == snapshot_text(
                old(self)@.conns as nat,
                rate(old(self)@.recv as nat, duration@),
            )),
    {
        let one = Natural::from_u128(1);
        let nanos = Natural::from_u128(duration.as_nanos());
        let million = Binary64 { significand: 1_000_000, exponent: 0 };
        let duration_ms = Binary64::nearest(&nanos, &one).quotient(&million);
        proof {
            lemma_milliseconds(duration@);
        }
        // Skip durations that are not positive enough.
        if duration_ms.whole_saturating() == 0 {
            return None;
        }
        proof {
            if duration_ms.significand == 0 {
                binary64::lemma_whole_zero(duration_ms.exponent as int);
            }
        }
        let recv_found: usize = self.recv;
        self.recv = 0;
        let conns: usize = self.conns;
        let bytes = Binary64::nearest(&Natural::from_u128(recv_found as u128), &one);
        let bits = Binary64 { significand: bytes.significand, exponent: bytes.exponent + 3 };
        let recv_kbps = bits.quotient(&duration_ms);
        let mut builder = String::new();
        push_formatted(&mut builder, conns);
        builder.append(" conns, ");
        push_formatted(&mut builder, recv_kbps.whole_saturating());
        builder.append(" Kb/s in");
        assert(builder@ =~= snapshot_text(conns as nat, rate(recv_found as nat, duration@)));
        Some(builder)
    }
}

} // verus!
