//! All the ways to write a socket address, and the address that each of them stands for.

use vstd::prelude::*;

use crate::addr;
use crate::addr::Address;
use crate::addr_text;
use crate::cli_args;
use crate::cli_args::LocationFault;
use crate::decimal;
use crate::number;
use crate::number::IntError;
use crate::text;

verus! {

/// Whether a text is one to four hexadecimal digits, of either case.
pub open spec fn is_group_text(s: Seq<char>) -> bool {
    &&& 1 <= s.len() <= 4
    &&& forall|i: int|
        0 <= i < s.len() ==> ('0' <= #[trigger] s[i] <= '9' || 'a' <= s[i] <= 'f' || 'A' <= s[i]
            <= 'F')
}

/// Whether a text is a byte in decimal without a zero in front.
pub open spec fn is_octet_text(s: Seq<char>) -> bool {
    &&& 1 <= s.len() <= 3
    &&& decimal::are_decimal_digits(s)
    &&& s.len() > 1 ==> s[0] != '0'
    &&& text::digits_value(s, 10) <= 255
}

/// Whether four texts are bytes in decimal.
pub open spec fn are_octets(o: Seq<Seq<char>>) -> bool {
    &&& o.len() == 4
    &&& forall|i: int| 0 <= i < 4 ==> is_octet_text(#[trigger] o[i])
}

/// Four texts with a dot between each two.
pub open spec fn quad_text(o: Seq<Seq<char>>) -> Seq<char> {
    o[0] + seq!['.'] + o[1] + seq!['.'] + o[2] + seq!['.'] + o[3]
}

/// A text in decimal as a byte.
pub open spec fn octet(s: Seq<char>) -> u8 {
    text::digits_value(s, 10) as u8
}

/// Groups, and behind them an IPv4 address or none.
pub struct GroupsForm {
    pub groups: Seq<Seq<char>>,
    pub octets: Option<Seq<Seq<char>>>,
}

impl GroupsForm {
    /// Whether the texts are groups and bytes.
    pub open spec fn is_form(self) -> bool {
        &&& forall|i: int| 0 <= i < self.groups.len() ==> is_group_text(#[trigger] self.groups[i])
        &&& self.octets matches Some(o) ==> are_octets(o)
    }

    /// The texts that stand between colons.
    pub open spec fn pieces(self) -> Seq<Seq<char>> {
        match self.octets {
            Some(o) => self.groups + seq![quad_text(o)],
            None => self.groups,
        }
    }

    /// The text of the groups, with a colon between each two.
    pub open spec fn text(self) -> Seq<char> {
        text::joined(self.pieces(), ':')
    }

    /// The numbers of the groups; an IPv4 address is two of them.
    pub open spec fn values(self) -> Seq<u16> {
        let front = Seq::new(
            self.groups.len(),
            |i: int| text::digits_value(self.groups[i], 16) as u16,
        );
        match self.octets {
            Some(o) => front.push((octet(o[0]) * 256 + octet(o[1])) as u16).push(
                (octet(o[2]) * 256 + octet(o[3])) as u16,
            ),
            None => front,
        }
    }
}

/// A way to write an IP address.
pub enum HostForm {
    /// An IPv4 address.
    Quad(Seq<Seq<char>>),
    /// An IPv6 address with all its groups, or with two colons between those in front and those
    /// behind.
    Groups { front: GroupsForm, back: Option<GroupsForm>, scope: Option<Seq<char>> },
}

/// A way to write a socket address.
pub struct AddressForm {
    pub host: HostForm,
    pub port: Seq<char>,
}

/// Whether a text is a decimal number up to `max`.
pub open spec fn is_number_text(s: Seq<char>, max: nat) -> bool {
    &&& s.len() > 0
    &&& decimal::are_decimal_digits(s)
    &&& text::digits_value(s, 10) <= max
}

/// Whether groups, or groups in front of two colons and behind them, make an IPv6 address.
pub open spec fn are_eight(front: GroupsForm, back: Option<GroupsForm>) -> bool {
    &&& front.is_form()
    &&& match back {
        None => front.values().len() == 8,
        Some(b) => b.is_form() && front.octets is None && front.values().len() + b.values().len()
            <= 7,
    }
}

/// The text of an IPv6 address.
pub open spec fn eight_text(front: GroupsForm, back: Option<GroupsForm>) -> Seq<char> {
    match back {
        None => front.text(),
        Some(b) => front.text() + seq![':', ':'] + b.text(),
    }
}

/// The eight groups of an IPv6 address: zero for those that two colons stand for.
pub open spec fn eight_values(front: GroupsForm, back: Option<GroupsForm>) -> Seq<u16> {
    match back {
        None => front.values(),
        Some(b) => Seq::new(
            8,
            |i: int|
                if i < front.values().len() {
                    front.values()[i]
                } else if i < 8 - b.values().len() {
                    0u16
                } else {
                    b.values()[i - 8 + b.values().len()]
                },
        ),
    }
}

/// The text of a scope.
pub open spec fn scope_text(scope: Option<Seq<char>>) -> Seq<char> {
    match scope {
        None => Seq::empty(),
        Some(s) => seq!['%'] + s,
    }
}

impl AddressForm {
    /// Whether this is a way to write an address.
    pub open spec fn is_form(self) -> bool {
        &&& is_number_text(self.port, 65_535)
        &&& match self.host {
            HostForm::Quad(o) => are_octets(o),
            HostForm::Groups { front, back, scope } => are_eight(front, back) && (
            scope matches Some(s) ==> is_number_text(s, 4_294_967_295)),
        }
    }

    /// The text.
    pub open spec fn text(self) -> Seq<char> {
        match self.host {
            HostForm::Quad(o) => quad_text(o) + seq![':'] + self.port,
            HostForm::Groups { front, back, scope } => seq!['['] + eight_text(front, back)
                + scope_text(scope) + seq![']', ':'] + self.port,
        }
    }

    /// The address that the text stands for.
    pub open spec fn address(self) -> Address {
        let port = text::digits_value(self.port, 10) as u16;
        match self.host {
            HostForm::Quad(o) => Address::V4 { octets: Seq::new(4, |i: int| octet(o[i])), port },
            HostForm::Groups { front, back, scope } => Address::V6 {
                segments: eight_values(front, back),
                scope_id: match scope {
                    Some(s) => text::digits_value(s, 10) as u32,
                    None => 0,
                },
                port,
            },
        }
    }
}

proof fn lemma_octet_text(s: Seq<char>)
    ensures
        is_octet_text(s) == addr::is_octet(s),
{
    text::lemma_all_digits(s);
}

proof fn lemma_group_text(s: Seq<char>)
    ensures
        is_group_text(s) == addr::is_group(s),
{
    text::lemma_all_digits(s);
}

proof fn lemma_number_text(s: Seq<char>, max: nat)
    ensures
        is_number_text(s, max) == (addr::decimal(s, max) is Some),
        is_number_text(s, max) ==> addr::decimal(s, max) == Some(text::digits_value(s, 10)),
{
    text::lemma_all_digits(s);
}

/// Four pieces with a dot between each two.
proof fn lemma_quad_joined(o: Seq<Seq<char>>)
    requires
        o.len() == 4,
    ensures
        quad_text(o) == text::joined(o, '.'),
{
    let (r1, r2, r3) = (seq![o[1], o[2], o[3]], seq![o[2], o[3]], seq![o[3]]);
    assert(o =~= seq![o[0]] + r1);
    assert(r1 =~= seq![o[1]] + r2);
    assert(r2 =~= seq![o[2]] + r3);
    text::lemma_joined(o[0], r1, '.');
    text::lemma_joined(o[1], r2, '.');
    text::lemma_joined(o[2], r3, '.');
    text::lemma_joined(o[3], r3, '.');
    assert(text::joined(o, '.') =~= quad_text(o));
}

/// An IPv4 address is four bytes in decimal with a dot between each two, and nothing else is.
pub proof fn lemma_quad(o: Seq<Seq<char>>)
    requires
        are_octets(o),
    ensures
        addr::ipv4(quad_text(o)) == Some(Seq::new(4, |i: int| octet(o[i]))),
        !addr::is_group(quad_text(o)),
        text::lacks(quad_text(o), ':'),
        text::lacks(quad_text(o), '%'),
        text::lacks(quad_text(o), ']'),
        quad_text(o).len() > 0,
        '0' <= quad_text(o)[0] <= '9',
{
    let s = quad_text(o);
    assert forall|i: int| 0 <= i < 4 implies {
        &&& addr::is_octet(#[trigger] o[i])
        &&& text::lacks(o[i], '.')
        &&& text::lacks(o[i], ':')
        &&& text::lacks(o[i], '%')
        &&& text::lacks(o[i], ']')
    } by {
        assert(is_octet_text(o[i]));
        lemma_octet_text(o[i]);
    }
    lemma_quad_joined(o);
    text::lemma_split_joined(o, '.');
    text::lemma_joined_lacks(o, '.', ':');
    text::lemma_joined_lacks(o, '.', '%');
    text::lemma_joined_lacks(o, '.', ']');
    assert(addr::is_octet(o[0]) && addr::is_octet(o[1]) && addr::is_octet(o[2]) && addr::is_octet(
        o[3],
    ));
    assert(addr::ipv4(s).unwrap() =~= Seq::new(4, |i: int| octet(o[i])));
    assert(is_octet_text(o[0]));
    let k = o[0].len() as int;
    assert(s[k] == '.');
    assert(text::digit_value(s[k]) == 16);
    assert(s[0] == o[0][0]);
}

proof fn lemma_quad_complete(s: Seq<char>) -> (o: Seq<Seq<char>>)
    requires
        addr::ipv4(s) is Some,
    ensures
        are_octets(o),
        quad_text(o) == s,
{
    let o = text::split(s, '.');
    text::lemma_joined_split(s, '.');
    lemma_octet_text(o[0]);
    lemma_octet_text(o[1]);
    lemma_octet_text(o[2]);
    lemma_octet_text(o[3]);
    lemma_quad_joined(o);
    o
}

/// Groups are read as their values.
proof fn lemma_groups(g: GroupsForm, with_ipv4: bool)
    requires
        g.is_form(),
        g.octets is Some ==> with_ipv4,
    ensures
        addr::side(g.text(), with_ipv4) == Some(g.values()),
        g.pieces().len() > 0 ==> addr::groups(g.text(), with_ipv4) == Some(g.values()),
        addr_text::single_colons(g.text()),
        text::lacks(g.text(), '%'),
        text::lacks(g.text(), ']'),
{
    let pieces = g.pieces();
    let n = g.groups.len();
    if let Some(o) = g.octets {
        lemma_quad(o);
    }
    assert forall|i: int| 0 <= i < pieces.len() implies {
        &&& text::lacks(#[trigger] pieces[i], ':')
        &&& text::lacks(pieces[i], '%')
        &&& text::lacks(pieces[i], ']')
        &&& pieces[i].len() > 0
        &&& i < n ==> addr::is_group(pieces[i])
    } by {
        if i < n {
            assert(pieces[i] == g.groups[i]);
            assert(is_group_text(g.groups[i]));
            lemma_group_text(g.groups[i]);
        }
    }
    addr_text::lemma_joined_single_colons(pieces);
    text::lemma_joined_lacks(pieces, ':', '%');
    text::lemma_joined_lacks(pieces, ':', ']');
    if pieces.len() > 0 {
        text::lemma_split_joined(pieces, ':');
        let front = pieces.drop_last();
        assert forall|i: int| 0 <= i < front.len() implies addr::is_group(#[trigger] front[i]) by {
            assert(front[i] == pieces[i]);
        }
        let values = Seq::new(front.len(), |i: int| addr::group_value(front[i]));
        assert(pieces.last() == pieces[pieces.len() - 1]);
        match g.octets {
            Some(o) => {
                assert(front =~= g.groups);
                let octets = Seq::new(4, |i: int| octet(o[i]));
                assert(values + addr::embedded(octets) =~= g.values());
            },
            None => {
                assert(values.push(addr::group_value(pieces.last())) =~= g.values());
            },
        }
    } else {
        assert(g.text() =~= Seq::<char>::empty());
        assert(g.values() =~= Seq::<u16>::empty());
    }
}

proof fn lemma_groups_complete(s: Seq<char>, with_ipv4: bool) -> (g: GroupsForm)
    requires
        addr::side(s, with_ipv4) is Some,
    ensures
        g.is_form(),
        g.text() == s,
        g.octets is Some ==> with_ipv4,
        s.len() > 0 ==> g.pieces().len() > 0,
{
    if s.len() == 0 {
        let g = GroupsForm { groups: Seq::empty(), octets: None };
        assert(g.text() =~= s);
        g
    } else {
        let p = text::split(s, ':');
        text::lemma_joined_split(s, ':');
        let front = p.drop_last();
        assert forall|i: int| 0 <= i < front.len() implies is_group_text(#[trigger] front[i]) by {
            assert(addr::is_group(front[i]));
            lemma_group_text(front[i]);
        }
        lemma_group_text(p.last());
        if addr::is_group(p.last()) {
            let g = GroupsForm { groups: p, octets: None };
            assert forall|i: int| 0 <= i < p.len() implies is_group_text(#[trigger] p[i]) by {
                if i < front.len() {
                    assert(p[i] == front[i]);
                }
            }
            g
        } else {
            let o = lemma_quad_complete(p.last());
            let g = GroupsForm { groups: front, octets: Some(o) };
            assert(g.pieces() =~= p);
            g
        }
    }
}

/// What the place of two colons in a row is.
proof fn lemma_find_gap(s: Seq<char>)
    ensures
        addr::find_gap(s) == s.len() || addr::find_gap(s) + 2 <= s.len(),
        addr::find_gap(s) < s.len() ==> s[addr::find_gap(s) as int] == ':' && s[addr::find_gap(s) as int
            + 1] == ':',
    decreases s.len(),
{
    if s.len() > 0 && !(s.len() > 1 && s[0] == ':' && s[1] == ':') {
        lemma_find_gap(s.drop_first());
    }
}

proof fn lemma_eight(front: GroupsForm, back: Option<GroupsForm>)
    requires
        are_eight(front, back),
    ensures
        addr::ipv6(eight_text(front, back)) == Some(eight_values(front, back)),
        text::lacks(eight_text(front, back), '%'),
        text::lacks(eight_text(front, back), ']'),
{
    let s = eight_text(front, back);
    match back {
        None => {
            lemma_groups(front, true);
            addr::lemma_find_gap_is(s, s.len() as int);
        },
        Some(b) => {
            lemma_groups(front, false);
            lemma_groups(b, true);
            addr_text::lemma_gap(front.text(), b.text());
            assert(addr::ipv6(s).unwrap() =~= eight_values(front, back));
        },
    }
}

proof fn lemma_eight_complete(s: Seq<char>) -> (r: (GroupsForm, Option<GroupsForm>))
    requires
        addr::ipv6(s) is Some,
    ensures
        are_eight(r.0, r.1),
        eight_text(r.0, r.1) == s,
{
    let k = addr::find_gap(s) as int;
    lemma_find_gap(s);
    if k == s.len() {
        if s.len() == 0 {
            text::lemma_joined_split(s, ':');
            assert(text::split(s, ':') =~= seq![s]);
            assert(!addr::is_group(s));
            assert(text::split(s, '.') =~= seq![s]);
            assert(false);
        }
        let front = lemma_groups_complete(s, true);
        lemma_groups(front, true);
        (front, None)
    } else {
        let left = lemma_groups_complete(s.take(k), false);
        let right = lemma_groups_complete(s.skip(k + 2), true);
        lemma_groups(left, false);
        lemma_groups(right, true);
        assert(s =~= left.text() + seq![':', ':'] + right.text());
        (left, Some(right))
    }
}

/// Every way to write a socket address is read as the address that it stands for: four bytes in
/// decimal; or eight groups of one to four hexadecimal digits, of either case and with or without
/// zeros in front, of which an IPv4 address may stand for the last two and two colons for some that
/// are zero, with a scope or without one. Behind them stands a port, with or without zeros in
/// front.
pub proof fn lemma_form_read(f: AddressForm)
    requires
        f.is_form(),
    ensures
        addr::socket_addr(f.text()) == Some(f.address()),
{
    let s = f.text();
    lemma_number_text(f.port, 65_535);
    match f.host {
        HostForm::Quad(o) => {
            let ip = quad_text(o);
            lemma_quad(o);
            let k = ip.len() as int;
            assert(s[0] == ip[0]);
            assert forall|j: int| 0 <= j < k implies s[j] != ':' by {
                assert(s[j] == ip[j]);
            }
            text::lemma_find_is(s, ':', k);
            assert(s.take(k) =~= ip);
            assert(s.skip(k + 1) =~= f.port);
        },
        HostForm::Groups { front, back, scope } => {
            let ip = eight_text(front, back);
            lemma_eight(front, back);
            let scoped = scope_text(scope);
            if let Some(digits) = scope {
                lemma_number_text(digits, 4_294_967_295);
                assert forall|i: int| 0 <= i < digits.len() implies digits[i] != ']' by {
                    assert('0' <= digits[i] <= '9');
                }
            }
            let inner = ip + scoped;
            let t = s.skip(1);
            let end = inner.len() as int;
            assert forall|j: int| 0 <= j < end implies t[j] != ']' by {
                if j < ip.len() {
                    assert(t[j] == ip[j]);
                } else {
                    assert(t[j] == scoped[j - ip.len()]);
                }
            }
            text::lemma_find_is(t, ']', end);
            assert(t.take(end) =~= inner);
            let tail = t.skip(end + 1);
            assert(tail[0] == ':');
            assert(tail.skip(1) =~= f.port);
            let mark = ip.len() as int;
            assert forall|j: int| 0 <= j < mark implies inner[j] != '%' by {
                assert(inner[j] == ip[j]);
            }
            text::lemma_find_is(inner, '%', mark);
            assert(inner.take(mark) =~= ip);
            if let Some(digits) = scope {
                assert(inner.skip(mark + 1) =~= digits);
            }
        },
    }
}

/// Nothing else is read as a socket address.
pub proof fn lemma_form_complete(s: Seq<char>) -> (f: AddressForm)
    requires
        addr::socket_addr(s) is Some,
    ensures
        f.is_form(),
        f.text() == s,
{
    if s[0] == '[' {
        let t = s.skip(1);
        let end = text::find(t, ']') as int;
        text::lemma_find(t, ']');
        let inner = t.take(end);
        let tail = t.skip(end + 1);
        let mark = text::find(inner, '%') as int;
        text::lemma_find(inner, '%');
        let port = tail.skip(1);
        lemma_number_text(port, 65_535);
        let (front, back) = lemma_eight_complete(inner.take(mark));
        let scope = if mark == inner.len() {
            None
        } else {
            lemma_number_text(inner.skip(mark + 1), 4_294_967_295);
            Some(inner.skip(mark + 1))
        };
        let f = AddressForm { host: HostForm::Groups { front, back, scope }, port };
        assert(inner =~= eight_text(front, back) + scope_text(scope));
        assert(t =~= inner + seq![']'] + tail);
        assert(tail =~= seq![':'] + port);
        assert(f.text() =~= s);
        f
    } else {
        let k = text::find(s, ':') as int;
        text::lemma_find(s, ':');
        let o = lemma_quad_complete(s.take(k));
        let port = s.skip(k + 1);
        lemma_number_text(port, 65_535);
        let f = AddressForm { host: HostForm::Quad(o), port };
        assert(f.text() =~= s);
        f
    }
}

/// A hexadecimal digit in upper case.
pub open spec fn upper_case(c: char) -> char {
    if 'a' <= c <= 'f' {
        (c as u32 - 32) as char
    } else {
        c
    }
}

/// A group in four digits, in upper case.
pub open spec fn spelled_out(s: Seq<char>) -> Seq<char> {
    Seq::new(
        4,
        |i: int|
            if i < 4 - s.len() {
                '0'
            } else {
                upper_case(s[i - (4 - s.len())])
            },
    )
}

impl GroupsForm {
    /// The same groups in four digits each, in upper case.
    pub open spec fn spelled_out(self) -> GroupsForm {
        GroupsForm {
            groups: Seq::new(self.groups.len(), |i: int| spelled_out(self.groups[i])),
            octets: self.octets,
        }
    }
}

proof fn lemma_spelled_out_group(s: Seq<char>)
    requires
        is_group_text(s),
    ensures
        is_group_text(spelled_out(s)),
        text::digits_value(spelled_out(s), 16) == text::digits_value(s, 16),
{
    let t = spelled_out(s);
    let k = 4 - s.len();
    assert forall|i: int| 0 <= i < 4 implies ('0' <= #[trigger] t[i] <= '9' || 'a' <= t[i] <= 'f'
        || 'A' <= t[i] <= 'F') && (i >= k ==> text::digit_value(t[i]) == text::digit_value(
        s[i - k],
    )) by {
        if i >= k {
            let c = s[i - k];
            assert('0' <= c <= '9' || 'a' <= c <= 'f' || 'A' <= c <= 'F');
        }
    }
    text::lemma_same_value(t, s, 16);
}

proof fn lemma_spelled_out_groups(g: GroupsForm)
    requires
        g.is_form(),
    ensures
        g.spelled_out().is_form(),
        g.spelled_out().values() == g.values(),
{
    let h = g.spelled_out();
    assert forall|i: int| 0 <= i < h.groups.len() implies is_group_text(#[trigger] h.groups[i])
        && text::digits_value(h.groups[i], 16) == text::digits_value(g.groups[i], 16) by {
        assert(is_group_text(g.groups[i]));
        lemma_spelled_out_group(g.groups[i]);
    }
    assert(h.values() =~= g.values());
}

/// The case of the groups of an IPv6 address, and zeros in front of them up to four digits, do not
/// change the address.
pub proof fn lemma_spelled_out(
    front: GroupsForm,
    back: Option<GroupsForm>,
    scope: Option<Seq<char>>,
    port: Seq<char>,
)
    ensures
        ({
            let f = AddressForm { host: HostForm::Groups { front, back, scope }, port };
            let spelled_back = match back {
                Some(b) => Some(b.spelled_out()),
                None => None,
            };
            let host = HostForm::Groups { front: front.spelled_out(), back: spelled_back, scope };
            let g = AddressForm { host, port };
            f.is_form() ==> addr::socket_addr(f.text()) is Some && addr::socket_addr(g.text())
                == addr::socket_addr(f.text())
        }),
{
    let f = AddressForm { host: HostForm::Groups { front, back, scope }, port };
    if f.is_form() {
        let spelled_back = match back {
            Some(b) => Some(b.spelled_out()),
            None => None,
        };
        let host = HostForm::Groups { front: front.spelled_out(), back: spelled_back, scope };
        let g = AddressForm { host, port };
        lemma_spelled_out_groups(front);
        if let Some(b) = back {
            lemma_spelled_out_groups(b);
        }
        lemma_form_read(f);
        lemma_form_read(g);
        assert(f.address() =~= g.address());
    }
}

/// Whether a text starts as another one.
pub open spec fn begins(s: Seq<char>, prefix: Seq<char>) -> bool {
    s.len() >= prefix.len() && forall|i: int| 0 <= i < prefix.len() ==> s[i] == #[trigger] prefix[i]
}

proof fn lemma_begins(s: Seq<char>, prefix: Seq<char>)
    ensures
        begins(s, prefix) == text::starts_with(s, prefix),
{
    if begins(s, prefix) {
        assert(s.take(prefix.len() as int) =~= prefix);
    }
    if text::starts_with(s, prefix) {
        assert forall|i: int| 0 <= i < prefix.len() implies s[i] == #[trigger] prefix[i] by {
            assert(s.take(prefix.len() as int)[i] == s[i]);
        }
    }
}

/// A location is `tcp://` and any way to write an address, with a port other than zero.
pub proof fn lemma_location_read(f: AddressForm)
    requires
        f.is_form(),
    ensures
        ({
            let r = if text::digits_value(f.port, 10) == 0 {
                Err::<Address, LocationFault>(LocationFault::ZeroPort)
            } else {
                Ok(f.address())
            };
            &&& cli_args::named_socket_addr(f.text()) == r
            &&& cli_args::location("tcp://"@ + f.text()) == r
        }),
{
    let s = f.text();
    lemma_form_read(f);
    reveal_strlit("localhost:");
    text::lemma_starts_with(s, "tcp://"@, s);
    assert(("tcp://"@ + s).skip("tcp://"@.len() as int) =~= s);
    assert(s.len() > 0 && s[0] != 'l') by {
        if let HostForm::Quad(o) = f.host {
            lemma_quad(o);
            assert(s[0] == quad_text(o)[0]);
        }
    }
    lemma_begins(s, "localhost:"@);
    assert("localhost:"@[0] == 'l');
    assert(!begins(s, "localhost:"@));
}

/// `localhost` stands for 127.0.0.1, with a port that is digits behind an optional plus sign.
pub proof fn lemma_location_localhost(plus: bool, digits: Seq<char>, rest: Seq<char>)
    requires
        decimal::are_decimal_digits(digits),
        rest.len() > 0 ==> !('0' <= rest[0] <= '9'),
        !plus && digits.len() == 0 && rest.len() > 0 ==> rest[0] != '+',
    ensures
        ({
            let v = text::digits_value(digits, 10);
            let port = number::plus_text(plus) + digits + rest;
            let r = cli_args::location("tcp://localhost:"@ + port);
            &&& r == cli_args::named_socket_addr("localhost:"@ + port)
            &&& if !plus && digits.len() == 0 && rest.len() == 0 {
                r == Err::<Address, LocationFault>(LocationFault::InvalidPort(IntError::Empty))
            } else if v > 65_535 {
                r == Err::<Address, LocationFault>(LocationFault::InvalidPort(IntError::TooLarge))
            } else if digits.len() == 0 || rest.len() > 0 {
                r == Err::<Address, LocationFault>(
                    LocationFault::InvalidPort(IntError::InvalidDigit),
                )
            } else if v == 0 {
                r == Err::<Address, LocationFault>(LocationFault::ZeroPort)
            } else {
                r == Ok::<Address, LocationFault>(
                    Address::V4 { octets: seq![127u8, 0, 0, 1], port: v as u16 },
                )
            }
        }),
{
    let port = number::plus_text(plus) + digits + rest;
    number::lemma_unsigned(plus, digits, rest, 65_535);
    reveal_strlit("tcp://localhost:");
    reveal_strlit("tcp://");
    reveal_strlit("localhost:");
    let s = "localhost:"@ + port;
    let t = "tcp://localhost:"@ + port;
    assert(t =~= "tcp://"@ + s);
    text::lemma_starts_with(s, "tcp://"@, s);
    text::lemma_starts_with(s, "localhost:"@, port);
    assert(t.skip(6) =~= s);
    assert(s.skip(10) =~= port);
}

/// Any other text is no location: behind `tcp://` it is no address, and else what stands in front
/// of its first colon is no known protocol; without a colon there is no protocol.
pub proof fn lemma_location_other(s: Seq<char>)
    ensures
        !begins(s, "localhost:"@) && (forall|f: AddressForm| f.is_form() ==> #[trigger] f.text() != s)
            ==> {
            &&& cli_args::named_socket_addr(s) == Err::<Address, LocationFault>(
                LocationFault::InvalidAddress,
            )
            &&& cli_args::location("tcp://"@ + s) == Err::<Address, LocationFault>(
                LocationFault::InvalidAddress,
            )
        },
        forall|k: int|
            0 <= k < s.len() && #[trigger] s[k] == ':' && text::lacks(s.take(k), ':') && !begins(
                s,
                "tcp://"@,
            ) ==> cli_args::location(s) == Err::<Address, LocationFault>(
                LocationFault::UnknownProtocol(s.take(k)),
            ),
        text::lacks(s, ':') ==> cli_args::location(s) == Err::<Address, LocationFault>(
            LocationFault::InvalidUri,
        ),
{
    reveal_strlit("tcp://");
    lemma_begins(s, "localhost:"@);
    lemma_begins(s, "tcp://"@);
    text::lemma_starts_with(s, "tcp://"@, s);
    assert(("tcp://"@ + s).skip("tcp://"@.len() as int) =~= s);
    if !begins(s, "localhost:"@) && (forall|f: AddressForm|
        f.is_form() ==> #[trigger] f.text() != s) {
        if addr::socket_addr(s) is Some {
            let f = lemma_form_complete(s);
            assert(f.text() == s);
        }
    }
    assert forall|k: int|
        0 <= k < s.len() && #[trigger] s[k] == ':' && text::lacks(s.take(k), ':') && !begins(
            s,
            "tcp://"@,
        ) implies cli_args::location(s) == Err::<Address, LocationFault>(
        LocationFault::UnknownProtocol(s.take(k)),
    ) by {
        assert forall|j: int| 0 <= j < k implies s[j] != ':' by {
            assert(s.take(k)[j] == s[j]);
        }
        text::lemma_find_is(s, ':', k);
    }
    if text::lacks(s, ':') {
        text::lemma_find_is(s, ':', s.len() as int);
        if begins(s, "tcp://"@) {
            assert(s[3] == "tcp://"@[3]);
        }
    }
}

} // verus!
