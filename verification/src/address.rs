//! Network addresses: what they are good for, and how they are written.
use vstd::prelude::*;

use crate::number;
use crate::number::push_numeral;
use crate::text;
use std::collections::HashSet;

verus! {

broadcast use vstd::std_specs::hash::group_hash_axioms;

/// An IPv4 address, as its four octets from the first to the last.
#[derive(Clone, Copy, Debug, PartialEq, Eq, Structural)]
pub struct Ipv4 {
    pub a: u8,
    pub b: u8,
    pub c: u8,
    pub d: u8,
}

/// An IPv6 address, as the number that its sixteen octets make, the first of them the highest.
#[derive(Clone, Copy, Debug, PartialEq, Eq, Structural)]
pub struct Ipv6 {
    pub bits: u128,
}

/// A network address.
#[derive(Clone, Copy, Debug, PartialEq, Eq, Structural)]
pub enum Ip {
    V4(Ipv4),
    V6(Ipv6),
}

// ---------------------------------------------------------------------------
// Kinds of IPv4 addresses
// ---------------------------------------------------------------------------
impl Ipv4 {
    /// 10.0.0.0/8, 172.16.0.0/12 and 192.168.0.0/16.
    pub open spec fn private(self) -> bool {
        ||| self.a == 10
        ||| self.a == 172 && 16 <= self.b <= 31
        ||| self.a == 192 && self.b == 168
    }

    /// 127.0.0.0/8.
    pub open spec fn loopback(self) -> bool {
        self.a == 127
    }

    /// 169.254.0.0/16.
    pub open spec fn link_local(self) -> bool {
        self.a == 169 && self.b == 254
    }

    /// 224.0.0.0/4.
    pub open spec fn multicast(self) -> bool {
        224 <= self.a <= 239
    }

    /// 0.0.0.0.
    pub open spec fn unspecified(self) -> bool {
        self.a == 0 && self.b == 0 && self.c == 0 && self.d == 0
    }

    /// 255.255.255.255.
    pub open spec fn broadcast_all(self) -> bool {
        self.a == 255 && self.b == 255 && self.c == 255 && self.d == 255
    }

    /// 192.0.2.0/24, 198.51.100.0/24 and 203.0.113.0/24.
    pub open spec fn documentation(self) -> bool {
        ||| self.a == 192 && self.b == 0 && self.c == 2
        ||| self.a == 198 && self.b == 51 && self.c == 100
        ||| self.a == 203 && self.b == 0 && self.c == 113
    }

    /// An address that can be reached from outside the local network.
    pub open spec fn public(self) -> bool {
        !(self.private() || self.loopback() || self.link_local() || self.multicast()
            || self.unspecified() || self.documentation() || self.a == 0)
    }

    /// An address worth announcing.
    pub open spec fn shareable(self) -> bool {
        !(self.loopback() || self.link_local() || self.unspecified() || self.broadcast_all())
    }
}

/// Whether the address can be reached from outside the local network.
pub fn is_public_ipv4(v4: Ipv4) -> (r: bool)
    ensures
        r == v4.public(),
{
    let private: bool = v4.a == 10 || (v4.a == 172 && 16 <= v4.b && v4.b <= 31) || (v4.a == 192
        && v4.b == 168);
    let loopback: bool = v4.a == 127;
    let link_local: bool = v4.a == 169 && v4.b == 254;
    let multicast: bool = 224 <= v4.a && v4.a <= 239;
    let documentation: bool = (v4.a == 192 && v4.b == 0 && v4.c == 2) || (v4.a == 198 && v4.b == 51
        && v4.c == 100) || (v4.a == 203 && v4.b == 0 && v4.c == 113);
    !(private || loopback || link_local || multicast || documentation || v4.a == 0)
}

// ---------------------------------------------------------------------------
// Kinds of IPv6 addresses
// ---------------------------------------------------------------------------
impl Ipv6 {
    /// The first two octets, as a number.
    pub open spec fn first_segment(self) -> u128 {
        self.bits / 0x1_0000_0000_0000_0000_0000_0000_0000
    }

    /// ::1.
    pub open spec fn loopback(self) -> bool {
        self.bits == 1
    }

    /// ::.
    pub open spec fn unspecified(self) -> bool {
        self.bits == 0
    }

    /// ff00::/8.
    pub open spec fn multicast(self) -> bool {
        0xff00 <= self.first_segment()
    }

    /// fc00::/7.
    pub open spec fn unique_local(self) -> bool {
        0xfc00 <= self.first_segment() <= 0xfdff
    }

    /// fe80::/10.
    pub open spec fn link_local(self) -> bool {
        0xfe80 <= self.first_segment() <= 0xfebf
    }

    /// An address that can be reached from outside the local network.
    pub open spec fn public(self) -> bool {
        !(self.loopback() || self.unspecified() || self.multicast() || self.unique_local()
            || self.link_local())
    }
}

/// Whether the address can be reached from outside the local network.
pub fn is_public_ipv6(v6: Ipv6) -> (r: bool)
    ensures
        r == v6.public(),
{
    let first: u128 = v6.bits / 0x1_0000_0000_0000_0000_0000_0000_0000;
    let loopback: bool = v6.bits == 1;
    let unspecified: bool = v6.bits == 0;
    let multicast: bool = 0xff00 <= first;
    let unique_local: bool = 0xfc00 <= first && first <= 0xfdff;
    let link_local: bool = 0xfe80 <= first && first <= 0xfebf;
    !(loopback || unspecified || multicast || unique_local || link_local)
}

// ---------------------------------------------------------------------------
// Choosing addresses
// ---------------------------------------------------------------------------
/// How far up an address is announced: public IPv6 first, then public IPv4, then other IPv4,
/// then other IPv6.
pub open spec fn priority(ip: Ip) -> u8 {
    match ip {
        Ip::V6(v6) => if v6.public() {
            0
        } else {
            3
        },
        Ip::V4(v4) => if v4.public() {
            1
        } else {
            2
        },
    }
}

/// How far up an address is announced.
pub fn ip_priority(ip: Ip) -> (r: u8)
    ensures
        r == priority(ip),
{
    match ip {
        Ip::V6(v6) => if is_public_ipv6(v6) {
            0
        } else {
            3
        },
        Ip::V4(v4) => if is_public_ipv4(v4) {
            1
        } else {
            2
        },
    }
}

/// Whether an address is worth announcing. Where the temporary IPv6 addresses are known, only
/// those are; the others would tell which machine this is.
pub open spec fn shareable(ip: Ip, temporary_ipv6: Option<Set<u128>>) -> bool {
    match ip {
        Ip::V4(v4) => v4.shareable(),
        Ip::V6(v6) => v6.public() && match temporary_ipv6 {
            Some(temporary) => temporary.contains(v6.bits),
            None => true,
        },
    }
}

/// The set behind an optional reference to it.
pub open spec fn known(temporary_ipv6: Option<&HashSet<u128>>) -> Option<Set<u128>> {
    match temporary_ipv6 {
        Some(set) => Some(set@),
        None => None,
    }
}

/// Whether an address is worth announcing.
pub fn is_shareable_ip(ip: Ip, temporary_ipv6: Option<&HashSet<u128>>) -> (r: bool)
    ensures
        r == shareable(ip, known(temporary_ipv6)),
{
    match ip {
        Ip::V4(v4) => {
            let loopback: bool = v4.a == 127;
            let link_local: bool = v4.a == 169 && v4.b == 254;
            let unspecified: bool = v4.a == 0 && v4.b == 0 && v4.c == 0 && v4.d == 0;
            let broadcast_all: bool = v4.a == 255 && v4.b == 255 && v4.c == 255 && v4.d == 255;
            !(loopback || link_local || unspecified || broadcast_all)
        },
        Ip::V6(v6) => {
            if !is_public_ipv6(v6) {
                return false;
            }
            match temporary_ipv6 {
                Some(temporary) => temporary.contains(&v6.bits),
                None => true,
            }
        },
    }
}

// ---------------------------------------------------------------------------
// Text of IPv4 addresses
// ---------------------------------------------------------------------------
/// The octets in decimal, with dots between them.
pub open spec fn ipv4_text(ip: Ipv4) -> Seq<char> {
    number::numeral(ip.a as nat, 10) + "."@ + number::numeral(ip.b as nat, 10) + "."@
        + number::numeral(ip.c as nat, 10) + "."@ + number::numeral(ip.d as nat, 10)
}

/// Appends the octets in decimal, with dots between them.
pub fn push_ipv4(out: &mut String, ip: Ipv4)
    ensures
        final(out)@ == old(out)@ + ipv4_text(ip),
{
    push_numeral(out, ip.a as u32, 10);
    out.append(".");
    push_numeral(out, ip.b as u32, 10);
    out.append(".");
    push_numeral(out, ip.c as u32, 10);
    out.append(".");
    push_numeral(out, ip.d as u32, 10);
    proof {
        assert(out@ =~= old(out)@ + ipv4_text(ip));
    }
}

// ---------------------------------------------------------------------------
// Text of IPv6 addresses
// ---------------------------------------------------------------------------
/// The lowest `n` groups of sixteen bits, from the highest of them to the lowest.
pub open spec fn low_segments(bits: u128, n: nat) -> Seq<u16>
    decreases n,
{
    if n == 0 {
        Seq::empty()
    } else {
        low_segments(bits / 0x1_0000, (n - 1) as nat).push((bits % 0x1_0000) as u16)
    }
}

/// The segments that stand for an IPv4 address: five zeros and then all ones.
pub open spec fn maps_ipv4(s: Seq<u16>) -> bool {
    &&& s.len() == 8
    &&& forall|k: int| 0 <= k < 5 ==> s[k] == 0
    &&& s[5] == 0xffff
}

/// The IPv4 address in the last two segments.
pub open spec fn mapped_ipv4(s: Seq<u16>) -> Ipv4 {
    Ipv4 {
        a: (s[6] / 256) as u8,
        b: (s[6] % 256) as u8,
        c: (s[7] / 256) as u8,
        d: (s[7] % 256) as u8,
    }
}

/// The `len` segments from `start` on are zero.
pub open spec fn zero_run(s: Seq<u16>, start: int, len: int) -> bool {
    &&& 0 <= start
    &&& 0 <= len
    &&& start + len <= s.len()
    &&& forall|k: int| start <= k < start + len ==> s[k] == 0
}

/// No run of zero segments is longer, and none as long comes earlier.
pub open spec fn is_best_run(s: Seq<u16>, start: int, len: int) -> bool {
    &&& zero_run(s, start, len)
    &&& forall|a: int, l: int| #[trigger]
        zero_run(s, a, l) ==> l < len || (l == len && start <= a)
}

/// The segments in hexadecimal, with colons between them.
pub open spec fn segments_text(s: Seq<u16>) -> Seq<char>
    decreases s.len(),
{
    if s.len() == 0 {
        Seq::empty()
    } else if s.len() == 1 {
        number::numeral(s[0] as nat, 16)
    } else {
        segments_text(s.drop_last()) + ":"@ + number::numeral(s.last() as nat, 16)
    }
}

/// How an IPv6 address is written: the segments in hexadecimal, with the first of the longest
/// runs of two or more zeros left out. An address that stands for an IPv4 address shows it.
pub open spec fn ipv6_text(ip: Ipv6) -> Seq<char> {
    let s = low_segments(ip.bits, 8);
    if maps_ipv4(s) {
        "::ffff:"@ + ipv4_text(mapped_ipv4(s))
    } else if exists|a: int, l: int| l >= 2 && #[trigger] is_best_run(s, a, l) {
        let (a, l) = choose|a: int, l: int| l >= 2 && #[trigger] is_best_run(s, a, l);
        segments_text(s.take(a)) + "::"@ + segments_text(s.skip(a + l))
    } else {
        segments_text(s)
    }
}

/// The lowest `n` groups of sixteen bits, appended from the highest to the lowest.
fn push_segments(out: &mut Vec<u16>, bits: u128, n: u32)
    ensures
        final(out)@ == old(out)@ + low_segments(bits, n as nat),
    decreases n,
{
    if n > 0 {
        push_segments(out, bits / 0x1_0000, n - 1);
        out.push((bits % 0x1_0000) as u16);
    }
    proof {
        assert(out@ =~= old(out)@ + low_segments(bits, n as nat));
    }
}

/// There are as many groups as were asked for.
pub proof fn lemma_low_segments_len(bits: u128, n: nat)
    ensures
        low_segments(bits, n).len() == n,
    decreases n,
{
    if n > 0 {
        lemma_low_segments_len(bits / 0x1_0000, (n - 1) as nat);
    }
}

/// The length of the run of zeros that starts at `start`.
fn run_length(s: &Vec<u16>, start: usize) -> (len: usize)
    requires
        start <= s@.len(),
    ensures
        zero_run(s@, start as int, len as int),
        forall|l: int| #[trigger] zero_run(s@, start as int, l) ==> l <= len,
{
    let n: usize = s.len();
    let mut len: usize = 0;
    while start + len < n && s[start + len] == 0
        invariant
            n == s@.len(),
            start + len <= n,
            zero_run(s@, start as int, len as int),
        decreases s@.len() - start - len,
    {
        len += 1;
    }
    proof {
        assert forall|l: int| #[trigger] zero_run(s@, start as int, l) implies l <= len by {
            if l > len {
                assert(s@[start + len] == 0);
            }
        }
    }
    len
}

/// The first of the longest runs of zeros: where it starts, and how long it is.
fn best_run(s: &Vec<u16>) -> (r: (usize, usize))
    ensures
        is_best_run(s@, r.0 as int, r.1 as int),
{
    let mut start: usize = 0;
    let mut len: usize = 0;
    let mut i: usize = 0;
    while i < s.len()
        invariant
            i <= s@.len(),
            zero_run(s@, start as int, len as int),
            forall|a: int, l: int| #[trigger]
                zero_run(s@, a, l) && a < i ==> l < len || (l == len && start <= a),
            start <= i,
            len == 0 ==> start == 0,
        decreases s@.len() - i,
    {
        let run: usize = run_length(s, i);
        if run > len {
            start = i;
            len = run;
        }
        i += 1;
    }
    proof {
        assert forall|a: int, l: int| #[trigger] zero_run(s@, a, l) implies l < len || (l == len
            && start <= a) by {}
    }
    (start, len)
}

/// There is one best run only.
proof fn lemma_best_run_unique(s: Seq<u16>, a: int, l: int, b: int, m: int)
    requires
        is_best_run(s, a, l),
        is_best_run(s, b, m),
    ensures
        a == b,
        l == m,
{
    assert(zero_run(s, a, l));
    assert(zero_run(s, b, m));
}

/// Appends the segments from `from` to `to`, in hexadecimal, with colons between them.
fn push_segments_text(out: &mut String, s: &Vec<u16>, from: usize, to: usize)
    requires
        from <= to <= s@.len(),
    ensures
        final(out)@ == old(out)@ + segments_text(s@.subrange(from as int, to as int)),
{
    let mut i: usize = from;
    while i < to
        invariant
            from <= i <= to <= s@.len(),
            out@ == old(out)@ + segments_text(s@.subrange(from as int, i as int)),
        decreases to - i,
    {
        let ghost done = s@.subrange(from as int, i as int);
        let ghost next = s@.subrange(from as int, i + 1);
        if i > from {
            out.append(":");
        }
        push_numeral(out, s[i] as u32, 16);
        proof {
            assert(next.drop_last() =~= done);
            assert(next.last() == s@[i as int]);
            assert(out@ =~= old(out)@ + segments_text(next));
        }
        i += 1;
    }
    proof {
        assert(out@ =~= old(out)@ + segments_text(s@.subrange(from as int, to as int)));
    }
}

/// Appends an IPv6 address as it is written.
pub fn push_ipv6(out: &mut String, ip: Ipv6)
    ensures
        final(out)@ == old(out)@ + ipv6_text(ip),
{
    let mut s: Vec<u16> = Vec::new();
    push_segments(&mut s, ip.bits, 8);
    proof {
        lemma_low_segments_len(ip.bits, 8);
        assert(s@ =~= low_segments(ip.bits, 8));
    }
    if s[0] == 0 && s[1] == 0 && s[2] == 0 && s[3] == 0 && s[4] == 0 && s[5] == 0xffff {
        proof {
            assert(maps_ipv4(s@));
        }
        out.append("::ffff:");
        push_ipv4(
            out,
            Ipv4 {
                a: (s[6] / 256) as u8,
                b: (s[6] % 256) as u8,
                c: (s[7] / 256) as u8,
                d: (s[7] % 256) as u8,
            },
        );
        proof {
            assert(out@ =~= old(out)@ + ipv6_text(ip));
        }
        return;
    }
    assert(!maps_ipv4(s@));
    let (start, len) = best_run(&s);
    if len > 1 {
        push_segments_text(out, &s, 0, start);
        out.append("::");
        push_segments_text(out, &s, start + len, 8);
        proof {
            let (a, l) = choose|a: int, l: int| l >= 2 && #[trigger] is_best_run(s@, a, l);
            assert(is_best_run(s@, start as int, len as int));
            lemma_best_run_unique(s@, a, l, start as int, len as int);
            assert(s@.subrange(0, start as int) =~= s@.take(start as int));
            assert(s@.subrange(start + len, 8) =~= s@.skip(start + len));
            assert(out@ =~= old(out)@ + ipv6_text(ip));
        }
    } else {
        push_segments_text(out, &s, 0, 8);
        proof {
            assert forall|a: int, l: int| l >= 2 implies !(#[trigger] is_best_run(s@, a, l)) by {
                if is_best_run(s@, a, l) {
                    lemma_best_run_unique(s@, a, l, start as int, len as int);
                }
            }
            assert(s@.subrange(0, 8) =~= s@);
        }
    }
}

// ---------------------------------------------------------------------------
// Laws
// ---------------------------------------------------------------------------
/// Different IPv4 addresses are written differently.
pub proof fn law_ipv4_text_injective(x: Ipv4, y: Ipv4)
    requires
        ipv4_text(x) == ipv4_text(y),
    ensures
        x == y,
{
    lemma_ipv4_pieces(x);
    lemma_ipv4_pieces(y);
    let p = text::pieces(ipv4_text(x), '.');
    let q = text::pieces(ipv4_text(y), '.');
    assert(p[0] == q[0] && p[1] == q[1] && p[2] == q[2] && p[3] == q[3]);
    number::law_numeral_injective(x.a as nat, y.a as nat, 10);
    number::law_numeral_injective(x.b as nat, y.b as nat, 10);
    number::law_numeral_injective(x.c as nat, y.c as nat, 10);
    number::law_numeral_injective(x.d as nat, y.d as nat, 10);
}

proof fn lemma_ipv4_pieces(x: Ipv4)
    ensures
        text::pieces(ipv4_text(x), '.') == seq![
            number::numeral(x.a as nat, 10),
            number::numeral(x.b as nat, 10),
            number::numeral(x.c as nat, 10),
            number::numeral(x.d as nat, 10),
        ],
{
    reveal_strlit(".");
    assert("."@ =~= seq!['.']);
    let a = number::numeral(x.a as nat, 10);
    let b = number::numeral(x.b as nat, 10);
    let c = number::numeral(x.c as nat, 10);
    let d = number::numeral(x.d as nat, 10);
    number::lemma_numeral(x.a as nat, 10);
    number::lemma_numeral(x.b as nat, 10);
    number::lemma_numeral(x.c as nat, 10);
    number::lemma_numeral(x.d as nat, 10);
    text::lemma_pieces_single(a, '.');
    text::lemma_pieces_single(b, '.');
    text::lemma_pieces_single(c, '.');
    text::lemma_pieces_single(d, '.');
    let ab = a + "."@ + b;
    let abc = ab + "."@ + c;
    text::lemma_pieces_joined(a, '.', b);
    text::lemma_pieces_joined(ab, '.', c);
    text::lemma_pieces_joined(abc, '.', d);
    assert(text::pieces(abc + "."@ + d, '.') =~= seq![a, b, c, d]);
}

/// 65536 to the power of `n`.
spec fn segment_range(n: nat) -> nat
    decreases n,
{
    if n == 0 {
        1
    } else {
        segment_range((n - 1) as nat) * 0x1_0000
    }
}

/// The groups of a number tell which number it is.
proof fn lemma_low_segments_injective(x: u128, y: u128, n: nat)
    requires
        x < segment_range(n),
        y < segment_range(n),
        low_segments(x, n) == low_segments(y, n),
    ensures
        x == y,
    decreases n,
{
    if n > 0 {
        let m = (n - 1) as nat;
        let a = low_segments(x, n);
        let b = low_segments(y, n);
        assert(a.drop_last() =~= low_segments(x / 0x1_0000, m));
        assert(b.drop_last() =~= low_segments(y / 0x1_0000, m));
        assert(a.last() == (x % 0x1_0000) as u16);
        assert(b.last() == (y % 0x1_0000) as u16);
        lemma_low_segments_injective(x / 0x1_0000, y / 0x1_0000, m);
    }
}

/// Each of the segments in hexadecimal.
spec fn numerals(s: Seq<u16>) -> Seq<Seq<char>> {
    s.map_values(|x: u16| number::numeral(x as nat, 16))
}

/// The pieces between the colons are the segments; no segments are one empty piece.
spec fn numerals_or_empty(s: Seq<u16>) -> Seq<Seq<char>> {
    if s.len() == 0 {
        seq![Seq::empty()]
    } else {
        numerals(s)
    }
}

proof fn lemma_segments_pieces(s: Seq<u16>)
    ensures
        text::pieces(segments_text(s), ':') == numerals_or_empty(s),
        !text::has_char(segments_text(s), '.'),
    decreases s.len(),
{
    reveal_strlit(":");
    assert(":"@ =~= seq![':']);
    if s.len() == 0 {
        assert(segments_text(s) =~= Seq::<char>::empty());
    } else {
        let last = number::numeral(s.last() as nat, 16);
        number::lemma_numeral(s.last() as nat, 16);
        text::lemma_pieces_single(last, ':');
        if s.len() == 1 {
            assert(numerals(s) =~= seq![last]);
        } else {
            let front = segments_text(s.drop_last());
            lemma_segments_pieces(s.drop_last());
            text::lemma_pieces_joined(front, ':', last);
            assert(numerals(s) =~= numerals(s.drop_last()) + seq![last]);
            let whole = segments_text(s);
            assert forall|i: int| 0 <= i < whole.len() implies whole[i] != '.' by {
                if i < front.len() {
                    assert(whole[i] == front[i]);
                } else if i > front.len() {
                    assert(whole[i] == last[i - front.len() - 1]);
                }
            }
        }
    }
}

/// The pieces of an address with a run of zeros left out.
spec fn shortened_pieces(s: Seq<u16>, start: int, len: int) -> Seq<Seq<char>> {
    numerals_or_empty(s.take(start)) + seq![Seq::<char>::empty()] + numerals_or_empty(
        s.skip(start + len),
    )
}

proof fn lemma_shortened_pieces(s: Seq<u16>, start: int, len: int)
    requires
        zero_run(s, start, len),
    ensures
        ({
            let whole = segments_text(s.take(start)) + "::"@ + segments_text(s.skip(start + len));
            &&& text::pieces(whole, ':') == shortened_pieces(s, start, len)
            &&& !text::has_char(whole, '.')
        }),
{
    reveal_strlit("::");
    let a = segments_text(s.take(start));
    let b = segments_text(s.skip(start + len));
    let empty = Seq::<char>::empty();
    let whole = a + "::"@ + b;
    lemma_segments_pieces(s.take(start));
    lemma_segments_pieces(s.skip(start + len));
    let front = a + seq![':'] + empty;
    text::lemma_pieces_joined(a, ':', empty);
    text::lemma_pieces_joined(front, ':', b);
    assert(front + seq![':'] + b =~= whole);
    assert(text::pieces(whole, ':') =~= shortened_pieces(s, start, len));
    assert forall|i: int| 0 <= i < whole.len() implies whole[i] != '.' by {
        if i < a.len() {
            assert(whole[i] == a[i]);
        } else if i >= a.len() + 2 {
            assert(whole[i] == b[i - a.len() - 2]);
        }
    }
}

/// What the pieces of an address with a run of zeros left out tell of it.
proof fn lemma_shortened_shape(s: Seq<u16>, start: int, len: int)
    requires
        s.len() == 8,
        zero_run(s, start, len),
    ensures
        ({
            let p = shortened_pieces(s, start, len);
            let first = if start == 0 {
                1
            } else {
                start
            };
            let rest = if start + len == 8 {
                1
            } else {
                8 - start - len
            };
            &&& p.len() == first + 1 + rest
            &&& p[start].len() == 0
            &&& forall|i: int| 0 <= i < start ==> (#[trigger] p[i]).len() > 0
            &&& (p.last().len() == 0 <==> start + len == 8)
            &&& forall|i: int|
                0 <= i < start ==> #[trigger] p[i] == number::numeral(s[i] as nat, 16)
            &&& forall|i: int|
                start + len <= i < 8 ==> p[first + 1 + (i - start - len)] == number::numeral(
                    (#[trigger] s[i]) as nat,
                    16,
                )
        }),
{
    let p = shortened_pieces(s, start, len);
    let front = s.take(start);
    let back = s.skip(start + len);
    let head = numerals_or_empty(front);
    let tail = numerals_or_empty(back);
    assert forall|i: int| 0 <= i < start implies #[trigger] p[i] == number::numeral(
        s[i] as nat,
        16,
    ) && p[i].len() > 0 by {
        assert(p[i] == head[i]);
        assert(front[i] == s[i]);
        number::lemma_numeral(s[i] as nat, 16);
    }
    assert forall|i: int| start + len <= i < 8 implies p[head.len() + 1 + (i - start - len)]
        == number::numeral((#[trigger] s[i]) as nat, 16) by {
        assert(p[head.len() + 1 + (i - start - len)] == tail[i - start - len]);
        assert(back[i - start - len] == s[i]);
    }
    if start + len < 8 {
        assert(p.last() == tail.last());
        assert(tail.last() == number::numeral(back.last() as nat, 16));
        number::lemma_numeral(back.last() as nat, 16);
    } else {
        assert(p.last() == tail.last());
    }
    if start == 0 {
        assert(p[0] == head[0]);
    } else {
        assert(p[start] == Seq::<char>::empty());
    }
}

/// Addresses with runs of zeros left out that are written alike are the same.
proof fn lemma_shortened_injective(
    s: Seq<u16>,
    a: int,
    l: int,
    t: Seq<u16>,
    b: int,
    m: int,
)
    requires
        s.len() == 8,
        t.len() == 8,
        zero_run(s, a, l),
        zero_run(t, b, m),
        shortened_pieces(s, a, l) == shortened_pieces(t, b, m),
    ensures
        s == t,
{
    lemma_shortened_shape(s, a, l);
    lemma_shortened_shape(t, b, m);
    let p = shortened_pieces(s, a, l);
    if a < b {
        assert(p[a].len() > 0);
    }
    if b < a {
        assert(p[b].len() > 0);
    }
    assert(a == b);
    assert(l == m);
    assert forall|i: int| 0 <= i < 8 implies s[i] == t[i] by {
        if i < a {
            assert(p[i] == number::numeral(s[i] as nat, 16));
            assert(p[i] == number::numeral(t[i] as nat, 16));
            number::law_numeral_injective(s[i] as nat, t[i] as nat, 16);
        } else if i >= a + l {
            assert(number::numeral(s[i] as nat, 16) == number::numeral(t[i] as nat, 16));
            number::law_numeral_injective(s[i] as nat, t[i] as nat, 16);
        }
    }
    assert(s =~= t);
}

/// How an address that does not show an IPv4 address is written: the run of zeros left out
/// starts at `start` and is `len` long, or there is none, and `len` is 0.
spec fn is_plain_text(s: Seq<u16>, start: int, len: int, written: Seq<char>) -> bool {
    &&& !text::has_char(written, '.')
    &&& if len == 0 {
        text::pieces(written, ':') == numerals(s)
    } else {
        zero_run(s, start, len) && text::pieces(written, ':') == shortened_pieces(s, start, len)
    }
}

proof fn lemma_plain_text(ip: Ipv6) -> (run: (int, int))
    requires
        !maps_ipv4(low_segments(ip.bits, 8)),
    ensures
        is_plain_text(low_segments(ip.bits, 8), run.0, run.1, ipv6_text(ip)),
{
    let s = low_segments(ip.bits, 8);
    lemma_low_segments_len(ip.bits, 8);
    if exists|a: int, l: int| l >= 2 && #[trigger] is_best_run(s, a, l) {
        let (a, l) = choose|a: int, l: int| l >= 2 && #[trigger] is_best_run(s, a, l);
        lemma_shortened_pieces(s, a, l);
        (a, l)
    } else {
        lemma_segments_pieces(s);
        (0, 0)
    }
}

/// Different IPv6 addresses are written differently.
pub proof fn law_ipv6_text_injective(x: Ipv6, y: Ipv6)
    requires
        ipv6_text(x) == ipv6_text(y),
    ensures
        x == y,
{
    let s = low_segments(x.bits, 8);
    let t = low_segments(y.bits, 8);
    lemma_low_segments_len(x.bits, 8);
    lemma_low_segments_len(y.bits, 8);
    reveal_strlit("::ffff:");
    if maps_ipv4(s) && maps_ipv4(t) {
        let p = mapped_ipv4(s);
        let q = mapped_ipv4(t);
        assert(ipv4_text(p) =~= ipv6_text(x).skip(7));
        assert(ipv4_text(q) =~= ipv6_text(y).skip(7));
        law_ipv4_text_injective(p, q);
        assert(s[6] == p.a as int * 256 + p.b as int);
        assert(s[7] == p.c as int * 256 + p.d as int);
        assert(t[6] == q.a as int * 256 + q.b as int);
        assert(t[7] == q.c as int * 256 + q.d as int);
        assert(s =~= t);
    } else if maps_ipv4(s) {
        lemma_ipv4_has_dot(mapped_ipv4(s), "::ffff:"@);
        let run = lemma_plain_text(y);
    } else if maps_ipv4(t) {
        lemma_ipv4_has_dot(mapped_ipv4(t), "::ffff:"@);
        let run = lemma_plain_text(x);
    } else {
        let (a, l) = lemma_plain_text(x);
        let (b, m) = lemma_plain_text(y);
        if l == 0 && m == 0 {
            assert forall|i: int| 0 <= i < 8 implies s[i] == t[i] by {
                assert(numerals(s)[i] == numerals(t)[i]);
                number::law_numeral_injective(s[i] as nat, t[i] as nat, 16);
            }
            assert(s =~= t);
        } else if l == 0 {
            lemma_shortened_shape(t, b, m);
            assert(numerals(s)[b].len() == 0);
            number::lemma_numeral(s[b] as nat, 16);
        } else if m == 0 {
            lemma_shortened_shape(s, a, l);
            assert(numerals(t)[a].len() == 0);
            number::lemma_numeral(t[a] as nat, 16);
        } else {
            lemma_shortened_injective(s, a, l, t, b, m);
        }
    }
    reveal_with_fuel(segment_range, 9);
    lemma_low_segments_injective(x.bits, y.bits, 8);
}

/// An IPv4 address is written with dots.
proof fn lemma_ipv4_has_dot(ip: Ipv4, front: Seq<char>)
    ensures
        text::has_char(front + ipv4_text(ip), '.'),
{
    reveal_strlit(".");
    let a = number::numeral(ip.a as nat, 10);
    let whole = front + ipv4_text(ip);
    assert(whole[(front.len() + a.len()) as int] == '.');
}

/// What is worth announcing can be reached: no loopback, link-local or unspecified address is
/// announced, and no IPv6 address that is not public.
pub proof fn law_shareable_can_be_reached(ip: Ip, temporary_ipv6: Option<Set<u128>>)
    requires
        shareable(ip, temporary_ipv6),
    ensures
        ip matches Ip::V4(v4) ==> !v4.loopback() && !v4.link_local() && !v4.unspecified(),
        ip matches Ip::V6(v6) ==> !v6.loopback() && !v6.link_local() && !v6.unspecified()
            && !v6.unique_local() && priority(ip) == 0,
{
}

/// Where the temporary IPv6 addresses are known, no other IPv6 address is announced.
pub proof fn law_shareable_ipv6_is_temporary(v6: Ipv6, temporary: Set<u128>)
    requires
        shareable(Ip::V6(v6), Some(temporary)),
    ensures
        temporary.contains(v6.bits),
{
}

/// An IPv4 address is announced exactly if it is none of 127.0.0.0/8, 169.254.0.0/16, 0.0.0.0
/// and 255.255.255.255. Every other address is, the private ones among them.
pub proof fn law_ipv4_shareable_exactly(a: u8, b: u8, c: u8, d: u8, known: Option<Set<u128>>)
    ensures
        shareable(Ip::V4(Ipv4 { a, b, c, d }), known) <==> !(a == 127 || (a == 169 && b == 254) || (
        a == 0 && b == 0 && c == 0 && d == 0) || (a == 255 && b == 255 && c == 255 && d == 255)),
{
}

/// An IPv6 address is announced exactly if it is none of ::, ::1, ff00::/8, fc00::/7 and
/// fe80::/10, and is a temporary one where those are known.
pub proof fn law_ipv6_shareable_exactly(bits: u128, known: Option<Set<u128>>)
    ensures
        shareable(Ip::V6(Ipv6 { bits }), known) <==> {
            &&& bits > 1
            &&& bits < 0xff00_0000_0000_0000_0000_0000_0000_0000
            &&& !(0xfc00_0000_0000_0000_0000_0000_0000_0000 <= bits
                < 0xfe00_0000_0000_0000_0000_0000_0000_0000)
            &&& !(0xfe80_0000_0000_0000_0000_0000_0000_0000 <= bits
                < 0xfec0_0000_0000_0000_0000_0000_0000_0000)
            &&& known matches Some(temporary) ==> temporary.contains(bits)
        },
{
}

/// Where an IPv6 address is announced: first, exactly if it is none of ::, ::1, ff00::/8,
/// fc00::/7 and fe80::/10; else last.
pub proof fn law_ipv6_priority_exactly(bits: u128)
    ensures
        priority(Ip::V6(Ipv6 { bits })) == (if bits <= 1 || bits
            >= 0xff00_0000_0000_0000_0000_0000_0000_0000 || (
        0xfc00_0000_0000_0000_0000_0000_0000_0000 <= bits
            < 0xfe00_0000_0000_0000_0000_0000_0000_0000) || (
        0xfe80_0000_0000_0000_0000_0000_0000_0000 <= bits
            < 0xfec0_0000_0000_0000_0000_0000_0000_0000) {
            3u8
        } else {
            0u8
        }),
{
}

/// Where an IPv4 address is announced: after the public IPv6 addresses, the public ones first.
/// Public is every address outside 0.0.0.0/8, 10.0.0.0/8, 127.0.0.0/8, 169.254.0.0/16,
/// 172.16.0.0/12, 192.168.0.0/16, 224.0.0.0/4 and the three ranges for documentation.
pub proof fn law_ipv4_priority_exactly(a: u8, b: u8, c: u8, d: u8)
    ensures
        priority(Ip::V4(Ipv4 { a, b, c, d })) == (if a == 0 || a == 10 || a == 127 || (a == 169 && b
            == 254) || (a == 172 && b / 16 == 1) || (a == 192 && b == 168) || a / 16 == 14 || (a
            == 192 && b == 0 && c == 2) || (a == 198 && b == 51 && c == 100) || (a == 203 && b == 0
            && c == 113) {
            2u8
        } else {
            1u8
        }),
{
}

/// An IPv4 address is written so that it can be read back: between its dots stand four decimal
/// numbers without leading zeros, which are its octets.
pub proof fn law_ipv4_text_reads_back(ip: Ipv4)
    ensures
        ({
            let p = text::pieces(ipv4_text(ip), '.');
            &&& p.len() == 4
            &&& number::parsed(p[0], 10, 255) == Some(ip.a as nat)
            &&& number::parsed(p[1], 10, 255) == Some(ip.b as nat)
            &&& number::parsed(p[2], 10, 255) == Some(ip.c as nat)
            &&& number::parsed(p[3], 10, 255) == Some(ip.d as nat)
            &&& forall|i: int|
                0 <= i < 4 ==> (#[trigger] p[i])[0] != '+' && (p[i].len() > 1 ==> p[i][0] != '0')
        }),
{
    lemma_ipv4_pieces(ip);
    number::law_parsed_numeral(ip.a as nat, 10, 255);
    number::law_parsed_numeral(ip.b as nat, 10, 255);
    number::law_parsed_numeral(ip.c as nat, 10, 255);
    number::law_parsed_numeral(ip.d as nat, 10, 255);
    number::law_numeral_is_shortest(ip.a as nat, 10);
    number::law_numeral_is_shortest(ip.b as nat, 10);
    number::law_numeral_is_shortest(ip.c as nat, 10);
    number::law_numeral_is_shortest(ip.d as nat, 10);
}

/// The number that groups of sixteen bits make, the first of them the highest.
pub open spec fn groups_value(s: Seq<u16>) -> nat
    decreases s.len(),
{
    if s.len() == 0 {
        0
    } else {
        groups_value(s.drop_last()) * 0x1_0000 + s.last() as nat
    }
}

/// The groups of a number make that number again.
proof fn lemma_groups_value(bits: u128, n: nat)
    requires
        bits < segment_range(n),
    ensures
        groups_value(low_segments(bits, n)) == bits,
    decreases n,
{
    if n > 0 {
        let m = (n - 1) as nat;
        assert(low_segments(bits, n).drop_last() =~= low_segments(bits / 0x1_0000, m));
        lemma_groups_value(bits / 0x1_0000, m);
    }
}

/// Groups are told by the number that they make.
proof fn lemma_groups_injective(s: Seq<u16>, t: Seq<u16>)
    requires
        s.len() == t.len(),
        groups_value(s) == groups_value(t),
    ensures
        s == t,
    decreases s.len(),
{
    if s.len() > 0 {
        let x = groups_value(s.drop_last());
        let y = groups_value(t.drop_last());
        let a = s.last() as nat;
        let b = t.last() as nat;
        assert(x == y && a == b) by (nonlinear_arith)
            requires
                x * 0x1_0000 + a == y * 0x1_0000 + b,
                a < 0x1_0000,
                b < 0x1_0000,
        ;
        lemma_groups_injective(s.drop_last(), t.drop_last());
        assert(s =~= s.drop_last().push(s.last()));
        assert(t =~= t.drop_last().push(t.last()));
    } else {
        assert(s =~= t);
    }
}

/// The groups of an address are those that make its number.
proof fn lemma_groups_of(ip: Ipv6, s: Seq<u16>)
    requires
        s.len() == 8,
        groups_value(s) == ip.bits,
    ensures
        low_segments(ip.bits, 8) == s,
{
    reveal_with_fuel(segment_range, 9);
    lemma_low_segments_len(ip.bits, 8);
    lemma_groups_value(ip.bits, 8);
    lemma_groups_injective(low_segments(ip.bits, 8), s);
}

/// An IPv6 address that stands for an IPv4 address is written as `::ffff:` and then as that one,
/// whose octets are the last four of its own.
pub proof fn law_ipv6_text_shows_ipv4(ip: Ipv6, s: Seq<u16>)
    requires
        s.len() == 8,
        groups_value(s) == ip.bits,
        s[0] == 0 && s[1] == 0 && s[2] == 0 && s[3] == 0 && s[4] == 0,
        s[5] == 0xffff,
    ensures
        exists|v4: Ipv4|
            {
                &&& ipv6_text(ip) == "::ffff:"@ + #[trigger] ipv4_text(v4)
                &&& s[6] == v4.a * 256 + v4.b
                &&& s[7] == v4.c * 256 + v4.d
            },
{
    lemma_groups_of(ip, s);
    assert(maps_ipv4(s));
    let v4 = mapped_ipv4(s);
    assert(ipv6_text(ip) == "::ffff:"@ + ipv4_text(v4));
}

/// Any other IPv6 address is written with its groups in hexadecimal between colons. Where two
/// or more zeros follow each other, the longest run of them is left out, the first of the longest
/// ones, and an empty piece stands in its place; at either end of the text, another.
pub proof fn law_ipv6_text_is_shortest(ip: Ipv6, s: Seq<u16>)
    requires
        s.len() == 8,
        groups_value(s) == ip.bits,
        !(s[0] == 0 && s[1] == 0 && s[2] == 0 && s[3] == 0 && s[4] == 0 && s[5] == 0xffff),
    ensures
        ({
            let p = text::pieces(ipv6_text(ip), ':');
            let hex = |x: u16| number::numeral(x as nat, 16);
            let gap = seq![Seq::<char>::empty()];
            ||| {
                &&& p == s.map_values(hex)
                &&& forall|i: int| 0 <= i < 7 ==> !((#[trigger] s[i]) == 0 && s[i + 1] == 0)
            }
            ||| exists|a: int, l: int|
                {
                    &&& #[trigger] zero_run(s, a, l)
                    &&& 2 <= l
                    &&& 0 <= a && a + l <= 8
                    &&& forall|i: int| a <= i < a + l ==> s[i] == 0
                    &&& forall|b: int, m: int|
                        0 <= b && 0 <= m && b + m <= 8 && (forall|i: int|
                            b <= i < b + m ==> s[i] == 0) ==> #[trigger] zero_run(s, b, m) && (m < l
                            || (m == l && a <= b))
                    &&& p == (if a == 0 {
                        gap
                    } else {
                        s.take(a).map_values(hex)
                    }) + gap + (if a + l == 8 {
                        gap
                    } else {
                        s.skip(a + l).map_values(hex)
                    })
                }
        }),
{
    lemma_groups_of(ip, s);
    let p = text::pieces(ipv6_text(ip), ':');
    let hex = |x: u16| number::numeral(x as nat, 16);
    let gap = seq![Seq::<char>::empty()];
    assert(!maps_ipv4(s));
    if exists|a: int, l: int| l >= 2 && #[trigger] is_best_run(s, a, l) {
        let (a, l) = choose|a: int, l: int| l >= 2 && #[trigger] is_best_run(s, a, l);
        lemma_shortened_pieces(s, a, l);
        assert(zero_run(s, a, l));
        assert forall|b: int, m: int|
            0 <= b && 0 <= m && b + m <= 8 && (forall|i: int| b <= i < b + m ==> s[i] == 0) implies
            #[trigger] zero_run(s, b, m) && (m < l || (m == l && a <= b)) by {
            assert(zero_run(s, b, m));
        }
        assert(p == shortened_pieces(s, a, l));
        assert(numerals_or_empty(s.take(a)) =~= (if a == 0 {
            gap
        } else {
            s.take(a).map_values(hex)
        }));
        assert(numerals_or_empty(s.skip(a + l)) =~= (if a + l == 8 {
            gap
        } else {
            s.skip(a + l).map_values(hex)
        }));
    } else {
        lemma_segments_pieces(s);
        assert(p =~= s.map_values(hex));
        let run = lemma_some_best_run(s, 8);
        assert forall|i: int| 0 <= i < 7 implies !((#[trigger] s[i]) == 0 && s[i + 1] == 0) by {
            if s[i] == 0 && s[i + 1] == 0 {
                assert(zero_run(s, i, 2));
                assert(is_best_run(s, run.0, run.1));
            }
        }
    }
}

/// The longest run that starts at `start`.
proof fn lemma_longest_at(s: Seq<u16>, start: int, most: nat) -> (len: int)
    requires
        0 <= start,
        start + most <= s.len(),
    ensures
        zero_run(s, start, len),
        len <= most,
        forall|l: int| l <= most && #[trigger] zero_run(s, start, l) ==> l <= len,
    decreases most,
{
    if zero_run(s, start, most as int) {
        most as int
    } else if most == 0 {
        0
    } else {
        lemma_longest_at(s, start, (most - 1) as nat)
    }
}

/// Among the runs that start before `end` there is a best one.
proof fn lemma_some_best_run(s: Seq<u16>, end: int) -> (run: (int, int))
    requires
        0 <= end <= s.len(),
    ensures
        zero_run(s, run.0, run.1),
        run.0 <= end,
        forall|a: int, l: int|
            a <= end && #[trigger] zero_run(s, a, l) ==> l < run.1 || (l == run.1 && run.0 <= a),
    decreases end,
{
    if end == 0 {
        let len = lemma_longest_at(s, 0, s.len());
        (0, len)
    } else {
        let before = lemma_some_best_run(s, end - 1);
        let len = lemma_longest_at(s, end, (s.len() - end) as nat);
        if len > before.1 {
            (end, len)
        } else {
            before
        }
    }
}

/// A known set of temporary addresses is that set.
pub proof fn law_known_set(set: HashSet<u128>)
    ensures
        known(Some(&set)) == Some(set@),
        known(None) is None,
{
}

} // verus!
