//! The addresses at which the server announces itself.
use vstd::prelude::*;

use crate::address;
use crate::address::{
    ip_priority, is_shareable_ip, push_ipv4, push_ipv6, Ip, Ipv4,
};
use crate::number;
use crate::number::push_numeral;
use crate::text;
use crate::text::{same_text, text_not_after};
use std::collections::HashSet;

verus! {

/// An address that one of the machine's interfaces has.
#[derive(Clone, Copy, Debug)]
pub struct InterfaceIp {
    pub ip: Ip,
}

// ---------------------------------------------------------------------------
// One address
// ---------------------------------------------------------------------------
/// The URL of the server at an address and a port.
pub open spec fn url(ip: Ip, port: u16) -> Seq<char> {
    match ip {
        Ip::V4(v4) => "http://"@ + address::ipv4_text(v4) + ":"@ + number::numeral(
            port as nat,
            10,
        ),
        Ip::V6(v6) => "http://["@ + address::ipv6_text(v6) + "]:"@ + number::numeral(
            port as nat,
            10,
        ),
    }
}

/// The URL of the server at an address and a port.
pub fn server_url(ip: Ip, port: u16) -> (r: String)
    ensures
        r@ == url(ip, port),
{
    let mut out: String = String::new();
    match ip {
        Ip::V4(v4) => {
            out.append("http://");
            push_ipv4(&mut out, v4);
            out.append(":");
        },
        Ip::V6(v6) => {
            out.append("http://[");
            push_ipv6(&mut out, v6);
            out.append("]:");
        },
    }
    push_numeral(&mut out, port as u32, 10);
    proof {
        assert(out@ =~= url(ip, port));
    }
    out
}

// ---------------------------------------------------------------------------
// All addresses
// ---------------------------------------------------------------------------
/// The priorities and the texts of the URLs.
pub open spec fn listed(urls: Seq<(u8, String)>) -> Seq<(u8, Seq<char>)> {
    urls.map_values(|e: (u8, String)| (e.0, e.1@))
}

/// `a` is announced before `b`: by priority, and then by the text of the URL.
pub open spec fn before(a: (u8, Seq<char>), b: (u8, Seq<char>)) -> bool {
    a.0 < b.0 || (a.0 == b.0 && text::text_le(a.1, b.1) && a.1 != b.1)
}

/// Each is announced before the next; none comes twice.
pub open spec fn in_order(s: Seq<(u8, Seq<char>)>) -> bool {
    forall|i: int, j: int| 0 <= i < j < s.len() ==> before(#[trigger] s[i], #[trigger] s[j])
}

/// `entry` is what is announced of one of the addresses worth announcing.
pub open spec fn announces(
    entry: (u8, Seq<char>),
    ifaces: Seq<InterfaceIp>,
    temporary_ipv6: Option<Set<u128>>,
    port: u16,
) -> bool {
    exists|k: int|
        0 <= k < ifaces.len() && address::shareable((#[trigger] ifaces[k]).ip, temporary_ipv6)
            && entry == (address::priority(ifaces[k].ip), url(ifaces[k].ip, port))
}

/// `s` announces all of the addresses worth announcing, in order, each of them once, and
/// nothing else.
pub open spec fn is_announcement(
    s: Seq<(u8, Seq<char>)>,
    ifaces: Seq<InterfaceIp>,
    temporary_ipv6: Option<Set<u128>>,
    port: u16,
) -> bool {
    &&& in_order(s)
    &&& forall|entry: (u8, Seq<char>)| #[trigger]
        s.contains(entry) <==> announces(entry, ifaces, temporary_ipv6, port)
}

/// Whether an entry is announced before one of the given priority and URL.
fn comes_before(entry: &(u8, String), priority: u8, url: &str) -> (r: bool)
    ensures
        r == before((entry.0, entry.1@), (priority, url@)),
{
    if entry.0 != priority {
        entry.0 < priority
    } else {
        text_not_after(entry.1.as_str(), url) && !same_text(entry.1.as_str(), url)
    }
}

proof fn lemma_before_transitive(
    a: (u8, Seq<char>),
    b: (u8, Seq<char>),
    c: (u8, Seq<char>),
)
    requires
        before(a, b),
        before(b, c),
    ensures
        before(a, c),
{
    if a.0 == b.0 && b.0 == c.0 {
        text::lemma_text_transitive(a.1, b.1, c.1);
        if a.1 == c.1 {
            text::lemma_text_antisymmetric(a.1, b.1);
        }
    }
}

proof fn lemma_before_total(a: (u8, Seq<char>), b: (u8, Seq<char>))
    ensures
        before(a, b) || before(b, a) || a == b,
        !(before(a, b) && before(b, a)),
        !before(a, a),
{
    text::lemma_text_total(a.1, b.1);
    if before(a, b) && before(b, a) {
        text::lemma_text_antisymmetric(a.1, b.1);
    }
}

/// The priorities and URLs of all addresses worth announcing, in the order in which they are
/// announced, each of them once.
pub fn access_urls(
    port: u16,
    ifaces: &Vec<InterfaceIp>,
    temporary_ipv6: Option<&HashSet<u128>>,
) -> (r: Vec<(u8, String)>)
    ensures
        is_announcement(listed(r@), ifaces@, address::known(temporary_ipv6), port),
{
    let ghost temporary = address::known(temporary_ipv6);
    let mut urls: Vec<(u8, String)> = Vec::new();
    let mut i: usize = 0;
    proof {
        assert(listed(urls@) =~= Seq::empty());
    }
    while i < ifaces.len()
        invariant
            i <= ifaces@.len(),
            temporary == address::known(temporary_ipv6),
            is_announcement(listed(urls@), ifaces@.take(i as int), temporary, port),
        decreases ifaces@.len() - i,
    {
        let ip: Ip = ifaces[i].ip;
        let ghost s = listed(urls@);
        let ghost done = ifaces@.take(i as int);
        let ghost next = ifaces@.take(i + 1);
        let ghost new = (address::priority(ip), url(ip, port));
        proof {
            assert forall|entry: (u8, Seq<char>)| #[trigger]
                announces(entry, next, temporary, port) <==> (announces(
                entry,
                done,
                temporary,
                port,
            ) || (address::shareable(ip, temporary) && entry == new)) by {
                if announces(entry, done, temporary, port) {
                    let k = choose|k: int|
                        0 <= k < done.len() && address::shareable(
                            (#[trigger] done[k]).ip,
                            temporary,
                        ) && entry == (address::priority(done[k].ip), url(done[k].ip, port));
                    assert(next[k] == done[k]);
                }
                if address::shareable(ip, temporary) && entry == new {
                    assert(next[i as int].ip == ip);
                }
                if announces(entry, next, temporary, port) {
                    let k = choose|k: int|
                        0 <= k < next.len() && address::shareable(
                            (#[trigger] next[k]).ip,
                            temporary,
                        ) && entry == (address::priority(next[k].ip), url(next[k].ip, port));
                    if k < i {
                        assert(done[k] == next[k]);
                    }
                }
            }
        }
        if is_shareable_ip(ip, temporary_ipv6) {
            let address_url: String = server_url(ip, port);
            let priority: u8 = ip_priority(ip);
            let mut p: usize = 0;
            while p < urls.len() && comes_before(&urls[p], priority, address_url.as_str())
                invariant
                    p <= urls@.len(),
                    s == listed(urls@),
                    new == (priority, address_url@),
                    forall|k: int| 0 <= k < p ==> before(#[trigger] s[k], new),
                decreases urls@.len() - p,
            {
                proof {
                    assert(s[p as int] == (urls@[p as int].0, urls@[p as int].1@));
                }
                p += 1;
            }
            proof {
                if p < s.len() {
                    assert(s[p as int] == (urls@[p as int].0, urls@[p as int].1@));
                    lemma_before_total(s[p as int], new);
                }
            }
            if p < urls.len() && urls[p].0 == priority && same_text(
                urls[p].1.as_str(),
                address_url.as_str(),
            ) {
                proof {
                    assert(s[p as int] == new);
                    assert(s.contains(new));
                    assert(is_announcement(s, next, temporary, port));
                }
            } else {
                urls.insert(p, (priority, address_url));
                proof {
                    let t = listed(urls@);
                    assert(t =~= s.insert(p as int, new));
                    lemma_insert_in_order(s, new, p as int);
                    assert(is_announcement(t, next, temporary, port));
                }
            }
        }
        i += 1;
    }
    proof {
        assert(ifaces@.take(ifaces@.len() as int) =~= ifaces@);
    }
    urls
}

proof fn lemma_insert_in_order(s: Seq<(u8, Seq<char>)>, e: (u8, Seq<char>), p: int)
    requires
        in_order(s),
        0 <= p <= s.len(),
        forall|k: int| 0 <= k < p ==> before(#[trigger] s[k], e),
        p < s.len() ==> before(e, s[p]),
    ensures
        in_order(s.insert(p, e)),
        forall|x: (u8, Seq<char>)| #[trigger]
            s.insert(p, e).contains(x) <==> (s.contains(x) || x == e),
{
    let t = s.insert(p, e);
    assert forall|i: int, j: int| 0 <= i < j < t.len() implies before(
        #[trigger] t[i],
        #[trigger] t[j],
    ) by {
        if i == p {
            assert(t[j] == s[j - 1]);
            if j - 1 > p {
                assert(before(s[p], s[j - 1]));
                lemma_before_transitive(e, s[p], s[j - 1]);
            }
        } else if j == p {
            assert(t[i] == s[i]);
        } else {
            assert(t[i] == s[if i < p { i } else { i - 1 }]);
            assert(t[j] == s[if j < p { j } else { j - 1 }]);
        }
    }
    assert forall|x: (u8, Seq<char>)| #[trigger] t.contains(x) <==> (s.contains(x) || x == e) by {
        if s.contains(x) {
            let k = choose|k: int| 0 <= k < s.len() && s[k] == x;
            assert(t[if k < p { k } else { k + 1 }] == x);
        }
        if x == e {
            assert(t[p] == e);
        }
        if t.contains(x) {
            let k = choose|k: int| 0 <= k < t.len() && t[k] == x;
            if k != p {
                assert(s[if k < p { k } else { k - 1 }] == x);
            }
        }
    }
}

// ---------------------------------------------------------------------------
// What is printed
// ---------------------------------------------------------------------------
/// The lines that announce the URLs: none at all where there is nothing to announce.
pub open spec fn announcement_lines(s: Seq<(u8, Seq<char>)>) -> Seq<Seq<char>> {
    if s.len() == 0 {
        Seq::empty()
    } else {
        seq!["Available sharing URLs:"@] + s.map_values(|e: (u8, Seq<char>)| "  "@ + e.1)
    }
}

/// The lines that announce the URLs.
pub fn access_lines(urls: &Vec<(u8, String)>) -> (r: Vec<String>)
    ensures
        text::texts(r@) == announcement_lines(listed(urls@)),
{
    let mut lines: Vec<String> = Vec::new();
    let ghost s = listed(urls@);
    if urls.len() == 0 {
        proof {
            assert(text::texts(lines@) =~= announcement_lines(s));
        }
        return lines;
    }
    lines.push("Available sharing URLs:".to_owned());
    let ghost shown = |e: (u8, Seq<char>)| "  "@ + e.1;
    let ghost head = seq!["Available sharing URLs:"@];
    proof {
        assert(text::texts(lines@) =~= head + s.take(0).map_values(shown));
    }
    let mut i: usize = 0;
    while i < urls.len()
        invariant
            i <= urls@.len(),
            s == listed(urls@),
            shown == (|e: (u8, Seq<char>)| "  "@ + e.1),
            text::texts(lines@) == head + s.take(i as int).map_values(shown),
        decreases urls@.len() - i,
    {
        let mut line: String = "  ".to_owned();
        line.append(urls[i].1.as_str());
        let ghost before = lines@;
        let ghost added = line@;
        lines.push(line);
        proof {
            assert(text::texts(lines@) =~= text::texts(before).push(added));
            assert(s.take(i + 1).map_values(shown) =~= s.take(i as int).map_values(shown).push(
                shown(s[i as int]),
            ));
            assert(text::texts(lines@) =~= head + s.take(i + 1).map_values(shown));
        }
        i += 1;
    }
    proof {
        assert(s.take(s.len() as int) =~= s);
    }
    lines
}

// ---------------------------------------------------------------------------
// Laws
// ---------------------------------------------------------------------------
/// Two announcements of the same entries end in the same one.
proof fn lemma_ends_agree(a: Seq<(u8, Seq<char>)>, b: Seq<(u8, Seq<char>)>)
    requires
        in_order(a),
        in_order(b),
        a.len() > 0,
        b.len() > 0,
        forall|x: (u8, Seq<char>)| #[trigger] a.contains(x) <==> b.contains(x),
    ensures
        a.last() == b.last(),
{
    let x = a.last();
    let y = b.last();
    assert(a.contains(a[a.len() - 1]));
    assert(b.contains(b[b.len() - 1]));
    assert(b.contains(x));
    assert(a.contains(y));
    let i = choose|i: int| 0 <= i < b.len() && b[i] == x;
    let j = choose|j: int| 0 <= j < a.len() && a[j] == y;
    lemma_before_total(x, y);
    if i < b.len() - 1 && j < a.len() - 1 {
        assert(before(b[i], b[b.len() - 1]));
        assert(before(a[j], a[a.len() - 1]));
    }
}

/// What is announced is determined by the addresses, the port and the temporary addresses
/// alone: there is one announcement only.
pub proof fn law_announcement_unique(
    a: Seq<(u8, Seq<char>)>,
    b: Seq<(u8, Seq<char>)>,
    ifaces: Seq<InterfaceIp>,
    temporary_ipv6: Option<Set<u128>>,
    port: u16,
)
    requires
        is_announcement(a, ifaces, temporary_ipv6, port),
        is_announcement(b, ifaces, temporary_ipv6, port),
    ensures
        a == b,
{
    assert forall|x: (u8, Seq<char>)| #[trigger] a.contains(x) <==> b.contains(x) by {
        assert(a.contains(x) <==> announces(x, ifaces, temporary_ipv6, port));
        assert(b.contains(x) <==> announces(x, ifaces, temporary_ipv6, port));
    }
    lemma_same_entries(a, b);
}

proof fn lemma_same_entries(a: Seq<(u8, Seq<char>)>, b: Seq<(u8, Seq<char>)>)
    requires
        in_order(a),
        in_order(b),
        forall|x: (u8, Seq<char>)| #[trigger] a.contains(x) <==> b.contains(x),
    ensures
        a == b,
    decreases a.len(),
{
    if a.len() == 0 {
        if b.len() > 0 {
            assert(b.contains(b[0]));
            assert(a.contains(b[0]));
        }
        assert(a =~= b);
    } else if b.len() == 0 {
        assert(a.contains(a[0]));
        assert(b.contains(a[0]));
    } else {
        lemma_ends_agree(a, b);
        let c = a.drop_last();
        let d = b.drop_last();
        let last = a.last();
        assert forall|x: (u8, Seq<char>)| #[trigger] c.contains(x) <==> d.contains(x) by {
            lemma_drop_last_contains(a, x);
            lemma_drop_last_contains(b, x);
            assert(a.contains(x) <==> b.contains(x));
        }
        assert(in_order(c)) by {
            assert(forall|i: int| 0 <= i < c.len() ==> c[i] == a[i]);
        }
        assert(in_order(d)) by {
            assert(forall|i: int| 0 <= i < d.len() ==> d[i] == b[i]);
        }
        lemma_same_entries(c, d);
        assert(a =~= c.push(last));
        assert(b =~= d.push(last));
    }
}

proof fn lemma_drop_last_contains(a: Seq<(u8, Seq<char>)>, x: (u8, Seq<char>))
    requires
        in_order(a),
        a.len() > 0,
    ensures
        a.drop_last().contains(x) <==> (a.contains(x) && x != a.last()),
{
    let c = a.drop_last();
    if c.contains(x) {
        let k = choose|k: int| 0 <= k < c.len() && c[k] == x;
        assert(a[k] == x);
        assert(before(a[k], a[a.len() - 1]));
        lemma_before_total(x, x);
    }
    if a.contains(x) && x != a.last() {
        let k = choose|k: int| 0 <= k < a.len() && a[k] == x;
        assert(c[k] == x);
    }
}

/// Different addresses have different URLs.
pub proof fn law_url_injective(x: Ip, y: Ip, port: u16)
    requires
        url(x, port) == url(y, port),
    ensures
        x == y,
{
    reveal_strlit("http://");
    reveal_strlit("http://[");
    reveal_strlit(":");
    reveal_strlit("]:");
    let tail = number::numeral(port as nat, 10);
    match (x, y) {
        (Ip::V4(a), Ip::V4(b)) => {
            let s = address::ipv4_text(a);
            let t = address::ipv4_text(b);
            assert(s =~= url(x, port).subrange(7, url(x, port).len() - 1 - tail.len()));
            assert(t =~= url(y, port).subrange(7, url(y, port).len() - 1 - tail.len()));
            address::law_ipv4_text_injective(a, b);
        },
        (Ip::V6(a), Ip::V6(b)) => {
            let s = address::ipv6_text(a);
            let t = address::ipv6_text(b);
            assert(s =~= url(x, port).subrange(8, url(x, port).len() - 2 - tail.len()));
            assert(t =~= url(y, port).subrange(8, url(y, port).len() - 2 - tail.len()));
            address::law_ipv6_text_injective(a, b);
        },
        (Ip::V4(a), Ip::V6(b)) => {
            lemma_url_of_ipv4(a, port);
            assert(url(y, port)[7] == '[');
        },
        (Ip::V6(a), Ip::V4(b)) => {
            lemma_url_of_ipv4(b, port);
            assert(url(x, port)[7] == '[');
        },
    }
}

/// The URL of an IPv4 address has no bracket where that of an IPv6 address has one.
proof fn lemma_url_of_ipv4(a: Ipv4, port: u16)
    ensures
        url(Ip::V4(a), port).len() > 7,
        url(Ip::V4(a), port)[7] != '[',
{
    reveal_strlit("http://");
    number::lemma_numeral(a.a as nat, 10);
    let first = number::numeral(a.a as nat, 10);
    assert(address::ipv4_text(a)[0] == first[0]);
    assert(url(Ip::V4(a), port)[7] == first[0]);
}

/// No URL is announced twice.
pub proof fn law_no_url_twice(
    s: Seq<(u8, Seq<char>)>,
    ifaces: Seq<InterfaceIp>,
    temporary_ipv6: Option<Set<u128>>,
    port: u16,
)
    requires
        is_announcement(s, ifaces, temporary_ipv6, port),
    ensures
        forall|i: int, j: int| 0 <= i < j < s.len() ==> (#[trigger] s[i]).1 != (#[trigger] s[j]).1,
{
    assert forall|i: int, j: int| 0 <= i < j < s.len() implies (#[trigger] s[i]).1 != (
    #[trigger] s[j]).1 by {
        assert(before(s[i], s[j]));
        assert(s.contains(s[i]));
        assert(s.contains(s[j]));
        let k = choose|k: int|
            0 <= k < ifaces.len() && address::shareable((#[trigger] ifaces[k]).ip, temporary_ipv6)
                && s[i] == (address::priority(ifaces[k].ip), url(ifaces[k].ip, port));
        let l = choose|l: int|
            0 <= l < ifaces.len() && address::shareable((#[trigger] ifaces[l]).ip, temporary_ipv6)
                && s[j] == (address::priority(ifaces[l].ip), url(ifaces[l].ip, port));
        if s[i].1 == s[j].1 {
            law_url_injective(ifaces[k].ip, ifaces[l].ip, port);
        }
    }
}

/// IPv6 is preferred: no URL of an IPv4 address is announced before one of an IPv6 address.
pub proof fn law_ipv6_first(
    s: Seq<(u8, Seq<char>)>,
    ifaces: Seq<InterfaceIp>,
    temporary_ipv6: Option<Set<u128>>,
    port: u16,
    i: int,
    j: int,
    v4: Ipv4,
    v6: address::Ipv6,
)
    requires
        is_announcement(s, ifaces, temporary_ipv6, port),
        0 <= i < s.len(),
        0 <= j < s.len(),
        address::shareable(Ip::V4(v4), temporary_ipv6),
        address::shareable(Ip::V6(v6), temporary_ipv6),
        s[i] == (address::priority(Ip::V4(v4)), url(Ip::V4(v4), port)),
        s[j] == (address::priority(Ip::V6(v6)), url(Ip::V6(v6), port)),
    ensures
        j < i,
{
    if i < j {
        assert(before(s[i], s[j]));
    }
}

/// All addresses worth announcing are announced, each with its own priority and URL, and nothing
/// else is.
pub proof fn law_announced_exactly(
    s: Seq<(u8, Seq<char>)>,
    ifaces: Seq<InterfaceIp>,
    temporary_ipv6: Option<Set<u128>>,
    port: u16,
    i: int,
    k: int,
)
    requires
        is_announcement(s, ifaces, temporary_ipv6, port),
    ensures
        0 <= k < ifaces.len() && address::shareable(ifaces[k].ip, temporary_ipv6) ==> s.contains(
            (address::priority(ifaces[k].ip), url(ifaces[k].ip, port)),
        ),
        0 <= i < s.len() ==> exists|n: int|
            0 <= n < ifaces.len() && address::shareable((#[trigger] ifaces[n]).ip, temporary_ipv6)
                && s[i] == (address::priority(ifaces[n].ip), url(ifaces[n].ip, port)),
{
    if 0 <= k < ifaces.len() && address::shareable(ifaces[k].ip, temporary_ipv6) {
        assert(announces(
            (address::priority(ifaces[k].ip), url(ifaces[k].ip, port)),
            ifaces,
            temporary_ipv6,
            port,
        ));
    }
    if 0 <= i < s.len() {
        assert(s.contains(s[i]));
        assert(announces(s[i], ifaces, temporary_ipv6, port));
    }
}

/// Smaller priorities are announced first, and within one the URLs come in the order of their
/// code points: where two first differ, the earlier one has the smaller code point.
pub proof fn law_announced_in_order(
    s: Seq<(u8, Seq<char>)>,
    ifaces: Seq<InterfaceIp>,
    temporary_ipv6: Option<Set<u128>>,
    port: u16,
    i: int,
    j: int,
    k: int,
)
    requires
        is_announcement(s, ifaces, temporary_ipv6, port),
        0 <= i < j < s.len(),
        0 <= k <= s[i].1.len(),
        k <= s[j].1.len(),
        forall|n: int| 0 <= n < k ==> s[i].1[n] == s[j].1[n],
    ensures
        s[i].0 <= s[j].0,
        s[i].0 == s[j].0 && k == s[j].1.len() ==> k == s[i].1.len(),
        s[i].0 == s[j].0 && k < s[i].1.len() && k < s[j].1.len() ==> (s[i].1[k] as int) <= (
        s[j].1[k] as int),
{
    assert(before(s[i], s[j]));
    let x = s[i].1;
    let y = s[j].1;
    if k == x.len() || k == y.len() || x[k] != y[k] {
        text::law_order_by_code_points(x, y, k);
    }
}

/// A URL names the protocol, the address, in brackets if it is an IPv6 one, and the port, which
/// is read back from its end and has no leading zeros.
pub proof fn law_url_parts(ip: Ip, port: u16)
    ensures
        exists|number: Seq<char>|
            {
                &&& #[trigger] number::parsed(number, 10, 65535) == Some(port as nat)
                &&& number[0] != '+'
                &&& number.len() > 1 ==> number[0] != '0'
                &&& match ip {
                    Ip::V4(v4) => url(ip, port) == "http://"@ + address::ipv4_text(v4) + seq![':']
                        + number,
                    Ip::V6(v6) => url(ip, port) == "http://"@ + seq!['['] + address::ipv6_text(v6)
                        + seq![']', ':'] + number,
                }
            },
{
    reveal_strlit("http://");
    reveal_strlit("http://[");
    reveal_strlit(":");
    reveal_strlit("]:");
    let number = number::numeral(port as nat, 10);
    number::law_parsed_numeral(port as nat, 10, 65535);
    number::law_numeral_is_shortest(port as nat, 10);
    match ip {
        Ip::V4(v4) => {
            assert(url(ip, port) =~= "http://"@ + address::ipv4_text(v4) + seq![':'] + number);
        },
        Ip::V6(v6) => {
            assert(url(ip, port) =~= "http://"@ + seq!['['] + address::ipv6_text(v6) + seq![
                ']',
                ':',
            ] + number);
        },
    }
    assert(number::parsed(number, 10, 65535) == Some(port as nat));
}

/// What is printed: nothing where nothing is announced, else one line that says what follows, and
/// then one line for each URL, with two spaces before it.
pub proof fn law_printed_lines(s: Seq<(u8, Seq<char>)>, i: int)
    ensures
        s.len() == 0 ==> announcement_lines(s).len() == 0,
        s.len() > 0 ==> announcement_lines(s).len() == s.len() + 1 && announcement_lines(s)[0]
            == "Available sharing URLs:"@,
        0 <= i < s.len() ==> announcement_lines(s)[i + 1] == seq![' ', ' '] + s[i].1,
{
    reveal_strlit("  ");
    assert("  "@ =~= seq![' ', ' ']);
}

/// Each URL that is listed stands for its priority and its text, in its place.
pub proof fn law_listed_urls(urls: Seq<(u8, String)>, i: int)
    ensures
        listed(urls).len() == urls.len(),
        0 <= i < urls.len() ==> listed(urls)[i] == (urls[i].0, urls[i].1@),
{
}

} // verus!
