//! How socket addresses are written, and that they are read back.

use vstd::arithmetic::power::*;
use vstd::prelude::*;

use crate::addr;
use crate::addr::Address;
use crate::cli_args;
use crate::cli_args::LocationFault;
use crate::text;

verus! {

/// The text of an IPv4 address: its bytes in decimal, with a dot between each two.
pub open spec fn ipv4_text(octets: Seq<u8>) -> Seq<char> {
    text::joined(Seq::new(octets.len(), |i: int| text::written(octets[i] as nat, 10)), '.')
}

/// The text of groups: each in hexadecimal, with a colon between each two.
pub open spec fn groups_text(segments: Seq<u16>) -> Seq<char> {
    text::joined(Seq::new(segments.len(), |i: int| text::written(segments[i] as nat, 16)), ':')
}

/// Whether an IPv6 address stands for an IPv4 address.
pub open spec fn is_mapped(segments: Seq<u16>) -> bool {
    segments.take(5) == seq![0u16, 0, 0, 0, 0] && segments[5] == 0xffff
}

/// The bytes of the IPv4 address that the last two groups hold.
pub open spec fn mapped_octets(segments: Seq<u16>) -> Seq<u8> {
    seq![
        (segments[6] / 256) as u8,
        (segments[6] % 256) as u8,
        (segments[7] / 256) as u8,
        (segments[7] % 256) as u8,
    ]
}

/// How many groups of zero there are in a row from the one at `i`.
pub open spec fn zeros_from(segments: Seq<u16>, i: int) -> nat
    decreases segments.len() - i,
{
    if 0 <= i < segments.len() && segments[i] == 0 {
        1 + zeros_from(segments, i + 1)
    } else {
        0
    }
}

/// Where the longest row of groups of zero starts, the first of those that are equally long, among
/// the starts below `end`.
pub open spec fn longest_gap(segments: Seq<u16>, end: nat) -> int
    decreases end,
{
    if end == 0 {
        0
    } else {
        let best = longest_gap(segments, (end - 1) as nat);
        if zeros_from(segments, end - 1) > zeros_from(segments, best) {
            end - 1
        } else {
            best
        }
    }
}

/// The text of an IPv6 address. Two colons stand for the longest row of two or more groups of zero.
pub open spec fn ipv6_text(segments: Seq<u16>) -> Seq<char> {
    if is_mapped(segments) {
        let tail = seq![text::written(0xffff, 16), ipv4_text(mapped_octets(segments))];
        seq![':', ':'] + text::joined(tail, ':')
    } else {
        let start = longest_gap(segments, 8);
        let count = zeros_from(segments, start) as int;
        if count >= 2 {
            groups_text(segments.take(start)) + seq![':', ':'] + groups_text(
                segments.skip(start + count),
            )
        } else {
            groups_text(segments)
        }
    }
}

/// Whether an address has as many bytes or groups as its kind of address has.
pub open spec fn is_address(a: Address) -> bool {
    match a {
        Address::V4 { octets, port } => octets.len() == 4,
        Address::V6 { segments, scope_id, port } => segments.len() == 8,
    }
}

/// The text of a socket address: `<ipv4>:<port>`, `[<ipv6>]:<port>` or `[<ipv6>%<scope>]:<port>`.
pub open spec fn address_text(a: Address) -> Seq<char> {
    match a {
        Address::V4 { octets, port } => ipv4_text(octets) + seq![':'] + text::written(
            port as nat,
            10,
        ),
        Address::V6 { segments, scope_id, port } => seq!['['] + ipv6_text(segments) + scope_text(
            scope_id,
        ) + seq![']', ':'] + text::written(port as nat, 10),
    }
}

/// The text of a scope, which is left out where it is zero.
pub open spec fn scope_text(scope_id: u32) -> Seq<char> {
    if scope_id == 0 {
        Seq::empty()
    } else {
        seq!['%'] + text::written(scope_id as nat, 10)
    }
}

/// The digits of a number have no character that separates the parts of an address.
proof fn lemma_written_lacks(n: nat, radix: nat)
    requires
        2 <= radix <= 16,
    ensures
        text::lacks(text::written(n, radix), '.'),
        text::lacks(text::written(n, radix), ':'),
        text::lacks(text::written(n, radix), '%'),
        text::lacks(text::written(n, radix), '['),
        text::lacks(text::written(n, radix), ']'),
{
    let s = text::written(n, radix);
    text::lemma_written(n, radix);
    assert forall|i: int| 0 <= i < s.len() implies text::digit_value(#[trigger] s[i]) < 16 by {}
}

proof fn lemma_octet(v: u8)
    ensures
        addr::is_octet(text::written(v as nat, 10)),
        text::digits_value(text::written(v as nat, 10), 10) == v,
{
    text::lemma_written(v as nat, 10);
    assert(pow(10, 3) == 1000) by {
        reveal_with_fuel(pow, 4);
    }
    text::lemma_written_len(v as nat, 10, 3);
}

proof fn lemma_group(v: u16)
    ensures
        addr::is_group(text::written(v as nat, 16)),
        addr::group_value(text::written(v as nat, 16)) == v,
{
    text::lemma_written(v as nat, 16);
    assert(pow(16, 4) == 65536) by {
        reveal_with_fuel(pow, 5);
    }
    text::lemma_written_len(v as nat, 16, 4);
}

/// An IPv4 address is read back.
pub proof fn lemma_ipv4_text(octets: Seq<u8>)
    requires
        octets.len() == 4,
    ensures
        addr::ipv4(ipv4_text(octets)) == Some(octets),
{
    let pieces = Seq::new(octets.len(), |i: int| text::written(octets[i] as nat, 10));
    assert forall|i: int| 0 <= i < pieces.len() implies text::lacks(#[trigger] pieces[i], '.') by {
        lemma_written_lacks(octets[i] as nat, 10);
    }
    text::lemma_split_joined(pieces, '.');
    lemma_octet(octets[0]);
    lemma_octet(octets[1]);
    lemma_octet(octets[2]);
    lemma_octet(octets[3]);
    assert(pieces[0] == text::written(octets[0] as nat, 10));
    assert(pieces[1] == text::written(octets[1] as nat, 10));
    assert(pieces[2] == text::written(octets[2] as nat, 10));
    assert(pieces[3] == text::written(octets[3] as nat, 10));
    assert(addr::ipv4(ipv4_text(octets)).unwrap() =~= octets);
}

/// An IPv4 address has digits and dots, and starts with a digit.
proof fn lemma_ipv4_text_chars(octets: Seq<u8>)
    requires
        octets.len() == 4,
    ensures
        text::lacks(ipv4_text(octets), ':'),
        text::lacks(ipv4_text(octets), '%'),
        text::lacks(ipv4_text(octets), ']'),
        ipv4_text(octets).len() > 0,
        text::digit_value(ipv4_text(octets)[0]) < 10,
        exists|i: int| 0 <= i < ipv4_text(octets).len() && ipv4_text(octets)[i] == '.',
{
    let pieces = Seq::new(octets.len(), |i: int| text::written(octets[i] as nat, 10));
    assert forall|i: int| 0 <= i < pieces.len() implies {
        &&& text::lacks(#[trigger] pieces[i], ':')
        &&& text::lacks(pieces[i], '%')
        &&& text::lacks(pieces[i], ']')
    } by {
        lemma_written_lacks(octets[i] as nat, 10);
    }
    text::lemma_joined_lacks(pieces, '.', ':');
    text::lemma_joined_lacks(pieces, '.', '%');
    text::lemma_joined_lacks(pieces, '.', ']');
    text::lemma_written(octets[0] as nat, 10);
    let first = pieces[0];
    assert(first == text::written(octets[0] as nat, 10));
    assert(text::digit_value(first[0]) < 10);
    let s = ipv4_text(octets);
    assert(s[0] == first[0]);
    assert(s[first.len() as int] == '.');
}

/// Groups are read back.
pub proof fn lemma_groups_text(segments: Seq<u16>, with_ipv4: bool)
    requires
        segments.len() > 0,
    ensures
        addr::groups(groups_text(segments), with_ipv4) == Some(segments),
{
    let pieces = Seq::new(segments.len(), |i: int| text::written(segments[i] as nat, 16));
    assert forall|i: int| 0 <= i < pieces.len() implies {
        &&& text::lacks(#[trigger] pieces[i], ':')
        &&& addr::is_group(pieces[i])
        &&& addr::group_value(pieces[i]) == segments[i]
    } by {
        lemma_written_lacks(segments[i] as nat, 16);
        lemma_group(segments[i]);
    }
    text::lemma_split_joined(pieces, ':');
    let front = pieces.drop_last();
    assert forall|i: int| 0 <= i < front.len() implies addr::is_group(#[trigger] front[i]) by {
        assert(front[i] == pieces[i]);
    }
    assert(pieces.last() == pieces[pieces.len() - 1]);
    let values = Seq::new(front.len(), |i: int| addr::group_value(front[i]));
    assert forall|i: int| 0 <= i < front.len() implies values[i] == segments[i] by {
        assert(front[i] == pieces[i]);
    }
    assert(values.push(addr::group_value(pieces.last())) =~= segments);
}

/// Whether no two colons follow each other, and none stands at the end.
pub open spec fn single_colons(s: Seq<char>) -> bool {
    &&& forall|j: int| 0 <= j && j + 1 < s.len() ==> !(s[j] == ':' && #[trigger] s[j + 1] == ':')
    &&& s.len() > 0 ==> s.last() != ':'
}

/// Pieces without a colon are joined without two colons in a row.
pub(crate) proof fn lemma_joined_single_colons(pieces: Seq<Seq<char>>)
    requires
        forall|i: int|
            0 <= i < pieces.len() ==> text::lacks(#[trigger] pieces[i], ':') && pieces[i].len() > 0,
    ensures
        single_colons(text::joined(pieces, ':')),
        pieces.len() > 0 ==> text::joined(pieces, ':').len() > 0 && text::joined(pieces, ':')[0]
            != ':',
    decreases pieces.len(),
{
    if pieces.len() > 0 {
        let head = pieces[0];
        assert(text::lacks(head, ':') && head.len() > 0);
        assert(head[0] != ':');
        assert(head.last() != ':');
        let rest = pieces.drop_first();
        assert forall|i: int| 0 <= i < rest.len() implies text::lacks(#[trigger] rest[i], ':')
            && rest[i].len() > 0 by {
            assert(rest[i] == pieces[i + 1]);
        }
        lemma_joined_single_colons(rest);
        let s = text::joined(pieces, ':');
        if pieces.len() > 1 {
            let tail = text::joined(rest, ':');
            let k = head.len() as int;
            assert forall|j: int| 0 <= j && j + 1 < s.len() implies !(s[j] == ':'
                && #[trigger] s[j + 1] == ':') by {
                if j < k {
                    assert(s[j] == head[j]);
                } else if j == k {
                    assert(s[j + 1] == tail[0]);
                } else {
                    assert(s[j] == tail[j - k - 1]);
                    assert(s[j + 1] == tail[j - k - 1 + 1]);
                }
            }
            assert(s.last() == tail.last());
        }
    }
}

/// Groups are written without two colons in a row, and without a character that ends them.
proof fn lemma_groups_text_chars(segments: Seq<u16>)
    ensures
        single_colons(groups_text(segments)),
        text::lacks(groups_text(segments), '%'),
        text::lacks(groups_text(segments), ']'),
        segments.len() == 0 ==> groups_text(segments).len() == 0,
        segments.len() > 0 ==> groups_text(segments).len() > 0,
{
    let pieces = Seq::new(segments.len(), |i: int| text::written(segments[i] as nat, 16));
    assert forall|i: int| 0 <= i < pieces.len() implies {
        &&& text::lacks(#[trigger] pieces[i], ':')
        &&& text::lacks(pieces[i], '%')
        &&& text::lacks(pieces[i], ']')
        &&& pieces[i].len() > 0
    } by {
        lemma_written_lacks(segments[i] as nat, 16);
        text::lemma_written(segments[i] as nat, 16);
    }
    lemma_joined_single_colons(pieces);
    text::lemma_joined_lacks(pieces, ':', '%');
    text::lemma_joined_lacks(pieces, ':', ']');
}

/// The first two colons in a row stand behind a text that has none.
pub(crate) proof fn lemma_gap(left: Seq<char>, right: Seq<char>)
    requires
        single_colons(left),
    ensures
        ({
            let s = left + seq![':', ':'] + right;
            &&& addr::find_gap(s) == left.len()
            &&& s.take(left.len() as int) == left
            &&& s.skip(left.len() as int + 2) == right
        }),
{
    let s = left + seq![':', ':'] + right;
    let k = left.len() as int;
    assert forall|j: int| 0 <= j < k && j + 1 < s.len() implies !(s[j] == ':' && #[trigger] s[j + 1]
        == ':') by {
        assert(s[j] == left[j]);
        if j + 1 < k {
            assert(s[j + 1] == left[j + 1]);
        } else {
            assert(left.last() == left[j]);
        }
    }
    addr::lemma_find_gap_is(s, k);
    assert(s.take(k) =~= left);
    assert(s.skip(k + 2) =~= right);
}

proof fn lemma_zeros_from(segments: Seq<u16>, i: int)
    requires
        0 <= i <= segments.len(),
    ensures
        i + zeros_from(segments, i) <= segments.len(),
        forall|j: int| i <= j < i + zeros_from(segments, i) ==> segments[j] == 0,
    decreases segments.len() - i,
{
    if i < segments.len() && segments[i] == 0 {
        lemma_zeros_from(segments, i + 1);
    }
}

proof fn lemma_longest_gap(segments: Seq<u16>, end: nat)
    ensures
        0 <= longest_gap(segments, end),
        longest_gap(segments, end) <= end,
    decreases end,
{
    if end > 0 {
        lemma_longest_gap(segments, (end - 1) as nat);
    }
}

/// The two groups that the bytes of a mapped address make are its last two.
proof fn lemma_mapped_octets(segments: Seq<u16>)
    requires
        segments.len() == 8,
    ensures
        addr::embedded(mapped_octets(segments)) == seq![segments[6], segments[7]],
{
    let o = mapped_octets(segments);
    assert(o[0] as int * 256 + o[1] as int == segments[6]);
    assert(o[2] as int * 256 + o[3] as int == segments[7]);
    assert(addr::embedded(o) =~= seq![segments[6], segments[7]]);
}

proof fn lemma_mapped_text(segments: Seq<u16>)
    requires
        segments.len() == 8,
        is_mapped(segments),
    ensures
        addr::ipv6(ipv6_text(segments)) == Some(segments),
        text::lacks(ipv6_text(segments), '%'),
        text::lacks(ipv6_text(segments), ']'),
{
    let octets = mapped_octets(segments);
    let word = text::written(0xffff, 16);
    let quad = ipv4_text(octets);
    let pieces = seq![word, quad];
    lemma_ipv4_text(octets);
    lemma_ipv4_text_chars(octets);
    lemma_written_lacks(0xffff, 16);
    lemma_group(0xffff);
    assert forall|i: int| 0 <= i < pieces.len() implies {
        &&& text::lacks(#[trigger] pieces[i], ':')
        &&& text::lacks(pieces[i], '%')
        &&& text::lacks(pieces[i], ']')
    } by {}
    text::lemma_split_joined(pieces, ':');
    text::lemma_joined_lacks(pieces, ':', '%');
    text::lemma_joined_lacks(pieces, ':', ']');
    let tail = text::joined(pieces, ':');
    let front = pieces.drop_last();
    assert(front =~= seq![word]);
    assert(!addr::is_group(quad)) by {
        let i = choose|i: int| 0 <= i < quad.len() && quad[i] == '.';
        assert(text::digit_value(quad[i]) == 16);
    }
    lemma_mapped_octets(segments);
    let values = Seq::new(front.len(), |i: int| addr::group_value(front[i]));
    assert(values =~= seq![0xffffu16]);
    let groups = values + addr::embedded(octets);
    assert(addr::groups(tail, true) == Some(groups));
    let none = Seq::<char>::empty();
    lemma_gap(none, tail);
    let s = ipv6_text(segments);
    assert(s =~= none + seq![':', ':'] + tail);
    assert(tail.len() > 0);
    assert(addr::side(none, false) == Some(Seq::<u16>::empty()));
    let zeros = Seq::new(5, |i: int| 0u16);
    assert(segments.take(5) =~= zeros);
    assert(Seq::<u16>::empty() + zeros + groups =~= segments) by {
        assert(segments.take(5)[0] == segments[0]);
        assert(segments.take(5)[1] == segments[1]);
        assert(segments.take(5)[2] == segments[2]);
        assert(segments.take(5)[3] == segments[3]);
        assert(segments.take(5)[4] == segments[4]);
    }
    assert(addr::ipv6(s).unwrap() =~= segments);
}

/// An IPv6 address is read back.
pub proof fn lemma_ipv6_text(segments: Seq<u16>)
    requires
        segments.len() == 8,
    ensures
        addr::ipv6(ipv6_text(segments)) == Some(segments),
        text::lacks(ipv6_text(segments), '%'),
        text::lacks(ipv6_text(segments), ']'),
{
    let s = ipv6_text(segments);
    let start = longest_gap(segments, 8);
    let count = zeros_from(segments, start) as int;
    lemma_longest_gap(segments, 8);
    lemma_zeros_from(segments, start);
    if is_mapped(segments) {
        lemma_mapped_text(segments);
    } else if count >= 2 {
        let left = segments.take(start);
        let right = segments.skip(start + count);
        lemma_groups_text_chars(left);
        lemma_groups_text_chars(right);
        if left.len() > 0 {
            lemma_groups_text(left, false);
        }
        if right.len() > 0 {
            lemma_groups_text(right, true);
        }
        lemma_gap(groups_text(left), groups_text(right));
        assert(addr::side(groups_text(left), false).unwrap() =~= left);
        assert(addr::side(groups_text(right), true).unwrap() =~= right);
        let zeros = Seq::new((8 - left.len() - right.len()) as nat, |i: int| 0u16);
        assert(left + zeros + right =~= segments);
    } else {
        lemma_groups_text_chars(segments);
        lemma_groups_text(segments, true);
        addr::lemma_find_gap_is(s, s.len() as int);
    }
}

proof fn lemma_decimal(n: nat, max: nat)
    requires
        n <= max,
    ensures
        addr::decimal(text::written(n, 10), max) == Some(n),
{
    text::lemma_written(n, 10);
}

/// A socket address is read back.
pub proof fn lemma_address_text(a: Address)
    requires
        is_address(a),
    ensures
        addr::socket_addr(address_text(a)) == Some(a),
{
    let s = address_text(a);
    match a {
        Address::V4 { octets, port } => {
            let ip = ipv4_text(octets);
            lemma_ipv4_text(octets);
            lemma_ipv4_text_chars(octets);
            lemma_decimal(port as nat, u16::MAX as nat);
            let k = ip.len() as int;
            assert(s[0] == ip[0]);
            assert forall|j: int| 0 <= j < k implies s[j] != ':' by {
                assert(s[j] == ip[j]);
            }
            text::lemma_find_is(s, ':', k);
            assert(s.take(k) =~= ip);
            assert(s.skip(k + 1) =~= text::written(port as nat, 10));
        },
        Address::V6 { segments, scope_id, port } => {
            let ip = ipv6_text(segments);
            let scope = scope_text(scope_id);
            lemma_ipv6_text(segments);
            lemma_decimal(port as nat, u16::MAX as nat);
            lemma_decimal(scope_id as nat, u32::MAX as nat);
            lemma_written_lacks(scope_id as nat, 10);
            let inner = ip + scope;
            let t = s.skip(1);
            let end = inner.len() as int;
            assert forall|j: int| 0 <= j < end implies t[j] != ']' by {
                if j < ip.len() {
                    assert(t[j] == ip[j]);
                } else {
                    assert(t[j] == scope[j - ip.len()]);
                }
            }
            text::lemma_find_is(t, ']', end);
            assert(t.take(end) =~= inner);
            let tail = t.skip(end + 1);
            assert(tail[0] == ':');
            assert(tail.skip(1) =~= text::written(port as nat, 10));
            let mark = ip.len() as int;
            assert forall|j: int| 0 <= j < mark implies inner[j] != '%' by {
                assert(inner[j] == ip[j]);
            }
            text::lemma_find_is(inner, '%', mark);
            assert(inner.take(mark) =~= ip);
            if scope_id != 0 {
                assert(inner.skip(mark + 1) =~= text::written(scope_id as nat, 10));
            }
        },
    }
}

/// Every address with a port other than zero can be given to the program: its text is read back,
/// alone and as a location.
pub proof fn lemma_address_read_back(a: Address)
    requires
        is_address(a),
        a.port() != 0,
    ensures
        cli_args::named_socket_addr(address_text(a)) == Ok::<Address, LocationFault>(a),
        cli_args::location("tcp://"@ + address_text(a)) == Ok::<Address, LocationFault>(a),
{
    let s = address_text(a);
    lemma_address_text(a);
    reveal_strlit("localhost:");
    reveal_strlit("tcp://");
    assert(s.len() > 0 && s[0] != 'l') by {
        if let Address::V4 { octets, port } = a {
            lemma_ipv4_text_chars(octets);
            assert(s[0] == ipv4_text(octets)[0]);
        }
    }
    if text::starts_with(s, "localhost:"@) {
        assert(s.take(10)[0] == "localhost:"@[0]);
    }
    let t = "tcp://"@ + s;
    assert(t.take(6) =~= "tcp://"@);
    assert(t.skip(6) =~= s);
}

} // verus!
