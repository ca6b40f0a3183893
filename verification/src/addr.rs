//! Socket addresses and how they are written.

use vstd::prelude::*;
use vstd::slice::*;

use crate::number;
use crate::text;

verus! {

/// The address of a socket.
#[derive(Debug, Clone, Copy, PartialEq, Eq)]
pub enum SocketAddr {
    V4 { octets: [u8; 4], port: u16 },
    V6 { segments: [u16; 8], scope_id: u32, port: u16 },
}

/// What a socket address holds.
#[verifier::ext_equal]
pub enum Address {
    V4 { octets: Seq<u8>, port: u16 },
    V6 { segments: Seq<u16>, scope_id: u32, port: u16 },
}

impl View for SocketAddr {
    type V = Address;

    open spec fn view(&self) -> Address {
        match *self {
            SocketAddr::V4 { octets, port } => Address::V4 { octets: octets@, port },
            SocketAddr::V6 { segments, scope_id, port } => Address::V6 {
                segments: segments@,
                scope_id,
                port,
            },
        }
    }
}

impl Address {
    /// The port of the address.
    pub open spec fn port(self) -> u16 {
        match self {
            Address::V4 { octets, port } => port,
            Address::V6 { segments, scope_id, port } => port,
        }
    }
}

impl SocketAddr {
    /// The port of the address.
    pub fn port(&self) -> (p: u16)
        ensures
            p == self@.port(),
    {
        match *self {
            SocketAddr::V4 { octets: _, port } => port,
            SocketAddr::V6 { segments: _, scope_id: _, port } => port,
        }
    }
}

/// Whether `s` writes one byte of an IPv4 address: up to three decimal digits and no zero in
/// front of another digit.
pub open spec fn is_octet(s: Seq<char>) -> bool {
    &&& 1 <= s.len() <= 3
    &&& text::all_digits(s, 10)
    &&& s.len() > 1 ==> s[0] != '0'
    &&& text::digits_value(s, 10) <= 255
}

/// The bytes of the IPv4 address that `s` writes: four of them, with a dot between each two.
pub open spec fn ipv4(s: Seq<char>) -> Option<Seq<u8>> {
    let p = text::split(s, '.');
    if p.len() == 4 && is_octet(p[0]) && is_octet(p[1]) && is_octet(p[2]) && is_octet(p[3]) {
        Some(Seq::new(4, |i: int| text::digits_value(p[i], 10) as u8))
    } else {
        None
    }
}

/// Whether `s` writes one group of an IPv6 address: up to four hexadecimal digits.
pub open spec fn is_group(s: Seq<char>) -> bool {
    1 <= s.len() <= 4 && text::all_digits(s, 16)
}

/// The number that a group writes.
pub open spec fn group_value(s: Seq<char>) -> u16 {
    text::digits_value(s, 16) as u16
}

/// The two groups that the bytes of an IPv4 address make.
pub open spec fn embedded(octets: Seq<u8>) -> Seq<u16> {
    seq![(octets[0] * 256 + octets[1]) as u16, (octets[2] * 256 + octets[3]) as u16]
}

/// The groups that `s` writes, with a colon between each two.
///
/// With `with_ipv4` an IPv4 address may stand for the last two.
pub open spec fn groups(s: Seq<char>, with_ipv4: bool) -> Option<Seq<u16>> {
    let p = text::split(s, ':');
    let front = p.drop_last();
    let values = Seq::new(front.len(), |i: int| group_value(front[i]));
    if !(forall|i: int| 0 <= i < front.len() ==> is_group(#[trigger] front[i])) {
        None
    } else if is_group(p.last()) {
        Some(values.push(group_value(p.last())))
    } else if with_ipv4 && ipv4(p.last()) is Some {
        Some(values + embedded(ipv4(p.last()).unwrap()))
    } else {
        None
    }
}

/// The place of the first two colons in a row in `s`, or the length of `s` where there are none.
pub open spec fn find_gap(s: Seq<char>) -> nat
    decreases s.len(),
{
    if s.len() == 0 || (s.len() > 1 && s[0] == ':' && s[1] == ':') {
        0
    } else {
        1 + find_gap(s.drop_first())
    }
}

/// The groups that stand on one side of two colons in a row; there may be none.
pub open spec fn side(s: Seq<char>, with_ipv4: bool) -> Option<Seq<u16>> {
    if s.len() == 0 {
        Some(Seq::empty())
    } else {
        groups(s, with_ipv4)
    }
}

/// The eight groups of the IPv6 address that `s` writes.
///
/// Two colons in a row stand for one or more groups of zero.
pub open spec fn ipv6(s: Seq<char>) -> Option<Seq<u16>> {
    let k = find_gap(s) as int;
    if k == s.len() {
        match groups(s, true) {
            Some(g) if g.len() == 8 => Some(g),
            _ => None,
        }
    } else {
        match (side(s.take(k), false), side(s.skip(k + 2), true)) {
            (Some(l), Some(r)) if l.len() + r.len() <= 7 => Some(
                l + Seq::new((8 - l.len() - r.len()) as nat, |i: int| 0u16) + r,
            ),
            _ => None,
        }
    }
}

/// The number up to `max` that the decimal digits `s` write.
pub open spec fn decimal(s: Seq<char>, max: nat) -> Option<nat> {
    if s.len() > 0 && text::all_digits(s, 10) && text::digits_value(s, 10) <= max {
        Some(text::digits_value(s, 10))
    } else {
        None
    }
}

/// The socket address that `s` writes: `<ipv4>:<port>`, `[<ipv6>]:<port>` or
/// `[<ipv6>%<scope>]:<port>`.
pub open spec fn socket_addr(s: Seq<char>) -> Option<Address> {
    if s.len() > 0 && s[0] == '[' {
        let t = s.skip(1);
        let end = text::find(t, ']') as int;
        let inner = t.take(end);
        let tail = t.skip(end + 1);
        let mark = text::find(inner, '%') as int;
        let scope = if mark == inner.len() {
            Some(0nat)
        } else {
            decimal(inner.skip(mark + 1), u32::MAX as nat)
        };
        if end < t.len() && tail.len() > 0 && tail[0] == ':' {
            match (ipv6(inner.take(mark)), scope, decimal(tail.skip(1), u16::MAX as nat)) {
                (Some(segments), Some(scope), Some(port)) => Some(
                    Address::V6 { segments, scope_id: scope as u32, port: port as u16 },
                ),
                _ => None,
            }
        } else {
            None
        }
    } else {
        let k = text::find(s, ':') as int;
        if k < s.len() {
            match (ipv4(s.take(k)), decimal(s.skip(k + 1), u16::MAX as nat)) {
                (Some(octets), Some(port)) => Some(Address::V4 { octets, port: port as u16 }),
                _ => None,
            }
        } else {
            None
        }
    }
}

/// The byte that `s` writes.
fn parse_octet(s: &[char]) -> (r: Option<u8>)
    ensures
        r is Some == is_octet(s@),
        r matches Some(v) ==> v == text::digits_value(s@, 10),
{
    if s.len() < 1 || s.len() > 3 || !text::are_digits(s, 10) || (s.len() > 1 && s[0] == '0') {
        return None;
    }
    match number::bounded_value(s, 10, 255) {
        Some(v) => Some(v as u8),
        None => None,
    }
}

/// The bytes of the IPv4 address that `s` writes.
fn parse_ipv4(s: &[char]) -> (r: Option<[u8; 4]>)
    ensures
        r is Some == ipv4(s@) is Some,
        r matches Some(octets) ==> octets@ == ipv4(s@).unwrap(),
{
    let p = text::pieces(s, '.');
    if p.len() != 4 {
        return None;
    }
    assert(p@[0]@ == text::split(s@, '.')[0]);
    assert(p@[1]@ == text::split(s@, '.')[1]);
    assert(p@[2]@ == text::split(s@, '.')[2]);
    assert(p@[3]@ == text::split(s@, '.')[3]);
    match (parse_octet(p[0]), parse_octet(p[1]), parse_octet(p[2]), parse_octet(p[3])) {
        (Some(a), Some(b), Some(c), Some(d)) => {
            let octets: [u8; 4] = [a, b, c, d];
            assert(octets@ =~= ipv4(s@).unwrap());
            Some(octets)
        },
        _ => None,
    }
}

/// The number that the group `s` writes.
fn parse_group(s: &[char]) -> (r: Option<u16>)
    ensures
        r is Some == is_group(s@),
        r matches Some(v) ==> v == group_value(s@),
{
    if s.len() < 1 || s.len() > 4 || !text::are_digits(s, 16) {
        return None;
    }
    proof {
        lemma_group_bound(s@);
    }
    match number::bounded_value(s, 16, 0xffff) {
        Some(v) => Some(v as u16),
        None => None,
    }
}

proof fn lemma_group_bound(s: Seq<char>)
    requires
        is_group(s),
    ensures
        text::digits_value(s, 16) <= 0xffff,
{
    reveal_with_fuel(text::digits_value, 5);
    assert forall|i: int| 0 <= i < s.len() implies text::digit_value(s[i]) < 16 by {}
}

/// The groups that `s` writes.
fn parse_groups(s: &[char], with_ipv4: bool) -> (r: Option<Vec<u16>>)
    ensures
        r is Some == groups(s@, with_ipv4) is Some,
        r matches Some(g) ==> g@ == groups(s@, with_ipv4).unwrap(),
{
    let p = text::pieces(s, ':');
    let ghost all = text::split(s@, ':');
    let ghost front = all.drop_last();
    let ghost values = Seq::new(front.len(), |i: int| group_value(front[i]));
    let mut g: Vec<u16> = Vec::new();
    let last: usize = p.len() - 1;
    let mut i: usize = 0;
    while i < last
        invariant
            i <= last,
            last == p@.len() - 1,
            all == text::split(s@, ':'),
            front == all.drop_last(),
            values == Seq::new(front.len(), |i: int| group_value(front[i])),
            p@.len() == all.len(),
            forall|j: int| 0 <= j < p@.len() ==> (#[trigger] p@[j])@ == all[j],
            forall|j: int| 0 <= j < i ==> is_group(#[trigger] front[j]),
            g@ == values.take(i as int),
        decreases last - i,
    {
        assert(p@[i as int]@ == front[i as int]);
        match parse_group(p[i]) {
            Some(v) => {
                g.push(v);
                assert(values.take(i as int).push(v) == values.take(i as int + 1));
            },
            None => {
                return None;
            },
        }
        i += 1;
    }
    assert(values.take(last as int) == values);
    assert(p@[last as int]@ == all.last());
    match parse_group(p[last]) {
        Some(v) => {
            g.push(v);
            return Some(g);
        },
        None => {},
    }
    if with_ipv4 {
        match parse_ipv4(p[last]) {
            Some(o) => {
                let high: u16 = o[0] as u16 * 256 + o[1] as u16;
                let low: u16 = o[2] as u16 * 256 + o[3] as u16;
                g.push(high);
                g.push(low);
                assert(g@ == values + embedded(o@));
                return Some(g);
            },
            None => {},
        }
    }
    None
}

/// `k` is the first place of two colons in a row in `s`.
pub(crate) proof fn lemma_find_gap_is(s: Seq<char>, k: int)
    requires
        0 <= k <= s.len(),
        forall|j: int| 0 <= j < k && j + 1 < s.len() ==> !(s[j] == ':' && #[trigger] s[j + 1] == ':'),
        k < s.len() ==> k + 1 < s.len() && s[k] == ':' && s[k + 1] == ':',
    ensures
        find_gap(s) == k,
    decreases s.len(),
{
    if s.len() > 0 && k > 0 {
        let t = s.drop_first();
        if s.len() > 1 {
            assert(!(s[0] == ':' && s[0int + 1] == ':'));
        }
        assert forall|j: int| 0 <= j < k - 1 && j + 1 < t.len() implies !(t[j] == ':'
            && #[trigger] t[j + 1] == ':') by {
            assert(t[j] == s[j + 1]);
            assert(t[j + 1] == s[(j + 1) + 1]);
        }
        lemma_find_gap_is(t, k - 1);
    }
}

/// The place of the first two colons in a row in `s`, or the length of `s` where there are none.
fn gap_position(s: &[char]) -> (k: usize)
    ensures
        k == find_gap(s@),
        k == s@.len() || k + 2 <= s@.len(),
{
    let mut k: usize = 0;
    while k < s.len() && !(k + 1 < s.len() && s[k] == ':' && s[k + 1] == ':')
        invariant
            k <= s@.len(),
            forall|j: int|
                0 <= j < k && j + 1 < s@.len() ==> !(s@[j] == ':' && #[trigger] s@[j + 1] == ':'),
        decreases s@.len() - k,
    {
        k += 1;
    }
    proof {
        lemma_find_gap_is(s@, k as int);
    }
    k
}

/// The groups that stand on one side of two colons in a row.
fn parse_side(s: &[char], with_ipv4: bool) -> (r: Option<Vec<u16>>)
    ensures
        r is Some == side(s@, with_ipv4) is Some,
        r matches Some(g) ==> g@ == side(s@, with_ipv4).unwrap(),
{
    if s.len() == 0 {
        Some(Vec::new())
    } else {
        parse_groups(s, with_ipv4)
    }
}

/// The groups `left` and `right`, with as many groups of zero between them as make eight.
fn fill_gap(left: Vec<u16>, right: &Vec<u16>) -> (g: Vec<u16>)
    requires
        left@.len() + right@.len() <= 8,
    ensures
        g@ == left@ + Seq::new((8 - left@.len() - right@.len()) as nat, |i: int| 0u16) + right@,
{
    let mut g: Vec<u16> = left;
    while g.len() < 8 - right.len()
        invariant
            left@.len() <= g@.len() <= 8 - right@.len(),
            g@ == left@ + Seq::new((g@.len() - left@.len()) as nat, |i: int| 0u16),
        decreases 8 - right@.len() - g@.len(),
    {
        g.push(0);
        assert(g@ =~= left@ + Seq::new((g@.len() - left@.len()) as nat, |i: int| 0u16));
    }
    let ghost filled = g@;
    let mut i: usize = 0;
    while i < right.len()
        invariant
            i <= right@.len(),
            g@ == filled + right@.take(i as int),
        decreases right@.len() - i,
    {
        g.push(right[i]);
        i += 1;
        assert(right@.take(i - 1).push(right@[i - 1]) == right@.take(i as int));
    }
    assert(right@.take(right@.len() as int) == right@);
    g
}

/// Eight groups as an array.
fn eight(g: &Vec<u16>) -> (segments: [u16; 8])
    requires
        g@.len() == 8,
    ensures
        segments@ == g@,
{
    let segments: [u16; 8] = [g[0], g[1], g[2], g[3], g[4], g[5], g[6], g[7]];
    assert(segments@ =~= g@);
    segments
}

/// The eight groups of the IPv6 address that `s` writes.
fn parse_ipv6(s: &[char]) -> (r: Option<[u16; 8]>)
    ensures
        r is Some == ipv6(s@) is Some,
        r matches Some(segments) ==> segments@ == ipv6(s@).unwrap(),
{
    let k: usize = gap_position(s);
    if k == s.len() {
        return match parse_groups(s, true) {
            Some(g) => {
                if g.len() == 8 {
                    Some(eight(&g))
                } else {
                    None
                }
            },
            None => None,
        };
    }
    let left = slice_subrange(s, 0, k);
    let right = slice_subrange(s, k + 2, s.len());
    assert(left@ == s@.take(k as int));
    assert(right@ == s@.skip(k as int + 2));
    match (parse_side(left, false), parse_side(right, true)) {
        (Some(l), Some(r)) => {
            if l.len() > 7 || r.len() > 7 - l.len() {
                None
            } else {
                Some(eight(&fill_gap(l, &r)))
            }
        },
        _ => None,
    }
}

/// The number up to `max` that the decimal digits `s` write.
fn parse_decimal(s: &[char], max: u32) -> (r: Option<u32>)
    ensures
        r is Some == decimal(s@, max as nat) is Some,
        r matches Some(v) ==> v == decimal(s@, max as nat).unwrap(),
{
    if s.len() == 0 || !text::are_digits(s, 10) {
        None
    } else {
        number::bounded_value(s, 10, max)
    }
}

/// The socket address that `s` writes.
pub fn parse_socket_addr(s: &[char]) -> (r: Option<SocketAddr>)
    ensures
        r is Some == socket_addr(s@) is Some,
        r matches Some(a) ==> a@ == socket_addr(s@).unwrap(),
{
    if s.len() > 0 && s[0] == '[' {
        let t = slice_subrange(s, 1, s.len());
        assert(t@ == s@.skip(1));
        let end: usize = text::position(t, ']');
        if end == t.len() {
            return None;
        }
        let inner = slice_subrange(t, 0, end);
        let tail = slice_subrange(t, end + 1, t.len());
        assert(inner@ == t@.take(end as int));
        assert(tail@ == t@.skip(end as int + 1));
        if tail.len() == 0 || tail[0] != ':' {
            return None;
        }
        let mark: usize = text::position(inner, '%');
        let ip = slice_subrange(inner, 0, mark);
        assert(ip@ == inner@.take(mark as int));
        let scope: Option<u32> = if mark == inner.len() {
            Some(0)
        } else {
            let behind = slice_subrange(inner, mark + 1, inner.len());
            assert(behind@ == inner@.skip(mark as int + 1));
            parse_decimal(behind, u32::MAX)
        };
        let digits = slice_subrange(tail, 1, tail.len());
        assert(digits@ == tail@.skip(1));
        match (parse_ipv6(ip), scope, parse_decimal(digits, 0xffff)) {
            (Some(segments), Some(scope_id), Some(port)) => Some(
                SocketAddr::V6 { segments, scope_id, port: port as u16 },
            ),
            _ => None,
        }
    } else {
        let k: usize = text::position(s, ':');
        if k == s.len() {
            return None;
        }
        let ip = slice_subrange(s, 0, k);
        let digits = slice_subrange(s, k + 1, s.len());
        assert(ip@ == s@.take(k as int));
        assert(digits@ == s@.skip(k as int + 1));
        match (parse_ipv4(ip), parse_decimal(digits, 0xffff)) {
            (Some(octets), Some(port)) => Some(SocketAddr::V4 { octets, port: port as u16 }),
            _ => None,
        }
    }
}

/// An IPv6 address stands in brackets, and an IPv4 address does not.
pub proof fn lemma_brackets(s: Seq<char>)
    ensures
        socket_addr(s) matches Some(a) ==> (a is V6 <==> s[0] == '['),
{
}

/// The value of a socket address holds the same bytes or groups, in the same order, the same scope
/// and the same port.
pub proof fn lemma_socket_addr_view(octets: [u8; 4], segments: [u16; 8], scope_id: u32, port: u16)
    ensures
        (SocketAddr::V4 { octets, port })@ == (Address::V4 { octets: octets@, port }),
        (SocketAddr::V6 { segments, scope_id, port })@ == (Address::V6 {
            segments: segments@,
            scope_id,
            port,
        }),
        (SocketAddr::V4 { octets, port })@.port() == port,
        (SocketAddr::V6 { segments, scope_id, port })@.port() == port,
{
}

} // verus!
