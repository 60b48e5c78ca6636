//! The temporary IPv6 addresses that Linux lists in `/proc/net/if_inet6`.
use vstd::prelude::*;

use crate::lists;
use crate::number;
use crate::number::parse_number;
use crate::text;
use crate::text::{chars_of, split_on, string_of};
use std::collections::HashSet;

verus! {

broadcast use vstd::std_specs::hash::group_hash_axioms;

/// The address is one that changes over time.
pub const IFA_F_TEMPORARY: u32 = 0x01;

/// The address is no longer to be used for new connections.
pub const IFA_F_DEPRECATED: u32 = 0x20;

/// The address is not yet known to be the only one of its kind on the network.
pub const IFA_F_TENTATIVE: u32 = 0x40;

// ---------------------------------------------------------------------------
// Fields
// ---------------------------------------------------------------------------
/// The characters that Unicode counts as white space.
pub open spec fn white_space(c: char) -> bool {
    let v = c as u32;
    ||| 0x09 <= v <= 0x0d
    ||| v == 0x20
    ||| v == 0x85
    ||| v == 0xa0
    ||| v == 0x1680
    ||| 0x2000 <= v <= 0x200a
    ||| v == 0x2028
    ||| v == 0x2029
    ||| v == 0x202f
    ||| v == 0x205f
    ||| v == 0x3000
}

/// Whether Unicode counts the character as white space.
pub fn is_white_space(c: char) -> (r: bool)
    ensures
        r == white_space(c),
{
    let v: u32 = c as u32;
    (0x09 <= v && v <= 0x0d) || v == 0x20 || v == 0x85 || v == 0xa0 || v == 0x1680 || (0x2000 <= v
        && v <= 0x200a) || v == 0x2028 || v == 0x2029 || v == 0x202f || v == 0x205f || v == 0x3000
}

/// The text with each white space character replaced by a space.
pub open spec fn spaced(s: Seq<char>) -> Seq<char> {
    s.map_values(
        |c: char|
            if white_space(c) {
                ' '
            } else {
                c
            },
    )
}

/// The fields of a line: what stands between runs of white space.
pub open spec fn fields(line: Seq<char>) -> Seq<Seq<char>> {
    text::pieces(spaced(line), ' ').filter(|piece: Seq<char>| piece.len() > 0)
}

/// The fields of a line.
fn line_fields(line: &[char]) -> (r: Vec<Vec<char>>)
    ensures
        r@.map_values(|v: Vec<char>| v@) == fields(line@),
{
    let mut blanked: Vec<char> = Vec::new();
    for i in 0..line.len()
        invariant
            blanked@ == spaced(line@).take(i as int),
    {
        let c: char = if is_white_space(line[i]) {
            ' '
        } else {
            line[i]
        };
        blanked.push(c);
        proof {
            assert(spaced(line@).take(i + 1) =~= spaced(line@).take(i as int).push(c));
        }
    }
    proof {
        assert(blanked@ =~= spaced(line@));
    }
    let parts: Vec<Vec<char>> = split_on(blanked.as_slice(), ' ');
    let ghost shown = |v: Vec<char>| v@;
    let ghost keep = |piece: Seq<char>| piece.len() > 0;
    let ghost all = text::pieces(spaced(line@), ' ');
    let mut kept: Vec<Vec<char>> = Vec::new();
    let mut i: usize = 0;
    proof {
        assert(kept@.map_values(shown) =~= Seq::empty());
        lists::lemma_filter_none(all.take(0), keep);
    }
    while i < parts.len()
        invariant
            i <= parts@.len(),
            shown == (|v: Vec<char>| v@),
            keep == (|piece: Seq<char>| piece.len() > 0),
            all == parts@.map_values(shown),
            kept@.map_values(shown) == all.take(i as int).filter(keep),
        decreases parts@.len() - i,
    {
        proof {
            assert(all.take(i + 1) =~= all.take(i as int).push(all[i as int]));
            lists::lemma_filter_push(all.take(i as int), all[i as int], keep);
        }
        if parts[i].len() > 0 {
            let mut piece: Vec<char> = Vec::new();
            text::push_all(&mut piece, parts[i].as_slice());
            let ghost before = kept@;
            proof {
                assert(piece@ =~= all[i as int]);
            }
            kept.push(piece);
            proof {
                assert(kept@.map_values(shown) =~= before.map_values(shown).push(all[i as int]));
            }
        }
        i += 1;
    }
    proof {
        assert(all.take(all.len() as int) =~= all);
    }
    kept
}

// ---------------------------------------------------------------------------
// Addresses
// ---------------------------------------------------------------------------
/// What the address field of a line stands for.
#[derive(Clone, Copy, Debug, PartialEq, Eq, Structural)]
pub enum Reading {
    /// An address.
    Address(u128),
    /// No address.
    NoAddress,
    /// No address either, but for another reason: the text cannot be cut into
    /// pieces of two bytes, because one of them would end inside a character.
    SplitsCharacter,
}

/// A text read two bytes at a time, each two of them a hexadecimal number, behind the bits that
/// were read before.
pub open spec fn read_octets(s: Seq<char>, high: nat) -> Reading
    decreases s.len(),
{
    if s.len() == 0 {
        Reading::Address(high as u128)
    } else if (s[0] as u32) < 0x80 {
        if s.len() >= 2 && (s[1] as u32) < 0x80 {
            match number::parsed(s.take(2), 16, 255) {
                Some(octet) => read_octets(s.skip(2), high * 256 + octet),
                None => Reading::NoAddress,
            }
        } else {
            Reading::SplitsCharacter
        }
    } else if (s[0] as u32) < 0x800 {
        Reading::NoAddress
    } else {
        Reading::SplitsCharacter
    }
}

/// The flags are those of a temporary address that is in use.
pub open spec fn temporary_in_use(flags: u32) -> bool {
    &&& flags & IFA_F_TEMPORARY != 0
    &&& flags & IFA_F_DEPRECATED == 0
    &&& flags & IFA_F_TENTATIVE == 0
}

/// What a line says: the address, its interface's number, the length of its prefix, its scope
/// and its flags stand in the first fields. Lines about anything but a temporary address of
/// global scope that is in use say nothing.
pub open spec fn line_reading(line: Seq<char>) -> Reading {
    let f = fields(line);
    if f.len() < 5 || vstd::utf8::encode_utf8(f[0]).len() != 32 {
        Reading::NoAddress
    } else {
        match (number::parsed(f[3], 16, 0xffff_ffff), number::parsed(f[4], 16, 0xffff_ffff)) {
            (Some(scope), Some(flags)) => if scope == 0 && temporary_in_use(flags as u32) {
                read_octets(f[0], 0)
            } else {
                Reading::NoAddress
            },
            _ => Reading::NoAddress,
        }
    }
}

/// UTF-8 takes at least one byte for each character.
proof fn lemma_utf8_len(s: Seq<char>)
    ensures
        vstd::utf8::encode_utf8(s).len() >= s.len(),
    decreases s.len(),
{
    if s.len() > 0 {
        lemma_utf8_len(s.drop_first());
    }
}

/// Reads an address two bytes at a time.
fn read_address(s: &Vec<char>) -> (r: Reading)
    requires
        s@.len() <= 32,
    ensures
        r == read_octets(s@, 0),
{
    let n: usize = s.len();
    let mut i: usize = 0;
    let mut bits: u128 = 0;
    proof {
        assert(s@.skip(0) =~= s@);
    }
    while i < n
        invariant
            n == s@.len(),
            n <= 32,
            i <= n,
            i % 2 == 0,
            bits < number::octet_range((i / 2) as nat),
            read_octets(s@.skip(i as int), bits as nat) == read_octets(s@, 0),
        decreases n - i,
    {
        let ghost rest = s@.skip(i as int);
        if (s[i] as u32) < 0x80 {
            if i + 1 < n && (s[i + 1] as u32) < 0x80 {
                let mut pair: Vec<char> = Vec::new();
                pair.push(s[i]);
                pair.push(s[i + 1]);
                proof {
                    assert(pair@ =~= rest.take(2));
                    assert(rest.skip(2) =~= s@.skip(i + 2));
                }
                match parse_number(pair.as_slice(), 16, 255) {
                    Some(octet) => {
                        proof {
                            number::lemma_octet_range((i / 2 + 1) as nat);
                            assert((i + 2) / 2 == i / 2 + 1);
                        }
                        bits = bits * 256 + octet as u128;
                    },
                    None => {
                        return Reading::NoAddress;
                    },
                }
            } else {
                return Reading::SplitsCharacter;
            }
        } else if (s[i] as u32) < 0x800 {
            return Reading::NoAddress;
        } else {
            return Reading::SplitsCharacter;
        }
        i += 2;
    }
    Reading::Address(bits)
}

/// What a line says.
fn read_line(line: &[char]) -> (r: Reading)
    ensures
        r == line_reading(line@),
{
    let parts: Vec<Vec<char>> = line_fields(line);
    let ghost f = fields(line@);
    if parts.len() < 5 {
        return Reading::NoAddress;
    }
    proof {
        assert(f[0] == parts@[0]@);
        assert(f[3] == parts@[3]@);
        assert(f[4] == parts@[4]@);
        lemma_utf8_len(f[0]);
    }
    let address: String = string_of(parts[0].as_slice());
    if address.as_str().as_bytes().len() != 32 {
        return Reading::NoAddress;
    }
    let scope: u32 = match parse_number(parts[3].as_slice(), 16, 0xffff_ffff) {
        Some(value) => value,
        None => {
            return Reading::NoAddress;
        },
    };
    if scope != 0 {
        return Reading::NoAddress;
    }
    let flags: u32 = match parse_number(parts[4].as_slice(), 16, 0xffff_ffff) {
        Some(value) => value,
        None => {
            return Reading::NoAddress;
        },
    };
    let is_temporary: bool = (flags & IFA_F_TEMPORARY) != 0;
    let is_deprecated: bool = (flags & IFA_F_DEPRECATED) != 0;
    let is_tentative: bool = (flags & IFA_F_TENTATIVE) != 0;
    if !is_temporary || is_deprecated || is_tentative {
        return Reading::NoAddress;
    }
    read_address(&parts[0])
}

// ---------------------------------------------------------------------------
// The list
// ---------------------------------------------------------------------------
/// One of the lines says that `bits` is a temporary address in use.
pub open spec fn lists_temporary(content: Seq<char>, bits: u128) -> bool {
    let lines = text::pieces(content, '\n');
    exists|k: int|
        0 <= k < lines.len() && line_reading(#[trigger] lines[k]) == Reading::Address(bits)
}

/// One of the lines has an address that cannot be cut into pieces of two bytes.
pub open spec fn splits_character(content: Seq<char>) -> bool {
    let lines = text::pieces(content, '\n');
    exists|k: int|
        0 <= k < lines.len() && line_reading(#[trigger] lines[k]) == Reading::SplitsCharacter
}

/// Whether one of the lines has an address that cannot be cut into pieces of two bytes.
pub fn has_split_character(content: &str) -> (r: bool)
    ensures
        r == splits_character(content@),
{
    let chars: Vec<char> = chars_of(content);
    let lines: Vec<Vec<char>> = split_on(chars.as_slice(), '\n');
    let ghost all = text::pieces(content@, '\n');
    let mut i: usize = 0;
    while i < lines.len()
        invariant
            i <= lines@.len(),
            all == text::pieces(content@, '\n'),
            all == lines@.map_values(|v: Vec<char>| v@),
            forall|k: int|
                0 <= k < i ==> line_reading(#[trigger] all[k]) != Reading::SplitsCharacter,
        decreases lines@.len() - i,
    {
        proof {
            assert(all[i as int] == lines@[i as int]@);
        }
        if read_line(lines[i].as_slice()) == Reading::SplitsCharacter {
            return true;
        }
        i += 1;
    }
    false
}

/// The temporary addresses in use that a list of addresses names; nothing, where there is no
/// list.
pub fn linux_temporary_ipv6_set(content: Option<&str>) -> (r: Option<HashSet<u128>>)
    requires
        content matches Some(list) ==> !splits_character(list@),
    ensures
        match content {
            None => r is None,
            Some(list) => r matches Some(set) && forall|bits: u128| #[trigger]
                set@.contains(bits) <==> lists_temporary(list@, bits),
        },
{
    let list: &str = match content {
        Some(list) => list,
        None => {
            return None;
        },
    };
    let chars: Vec<char> = chars_of(list);
    let lines: Vec<Vec<char>> = split_on(chars.as_slice(), '\n');
    let ghost all = text::pieces(list@, '\n');
    let mut set: HashSet<u128> = HashSet::new();
    let mut i: usize = 0;
    while i < lines.len()
        invariant
            i <= lines@.len(),
            all == text::pieces(list@, '\n'),
            all == lines@.map_values(|v: Vec<char>| v@),
            forall|bits: u128| #[trigger]
                set@.contains(bits) <==> exists|k: int|
                    0 <= k < i && line_reading(#[trigger] all[k]) == Reading::Address(bits),
        decreases lines@.len() - i,
    {
        let ghost before = set@;
        proof {
            assert(all[i as int] == lines@[i as int]@);
        }
        let reading: Reading = read_line(lines[i].as_slice());
        if let Reading::Address(bits) = reading {
            set.insert(bits);
        }
        proof {
            assert forall|bits: u128| #[trigger] set@.contains(bits) <==> exists|k: int|
                0 <= k < i + 1 && line_reading(#[trigger] all[k]) == Reading::Address(bits) by {
                if set@.contains(bits) {
                    if before.contains(bits) {
                        let k = choose|k: int|
                            0 <= k < i && line_reading(#[trigger] all[k]) == Reading::Address(
                                bits,
                            );
                        assert(line_reading(all[k]) == Reading::Address(bits));
                    } else {
                        assert(line_reading(all[i as int]) == Reading::Address(bits));
                    }
                }
                if exists|k: int|
                    0 <= k < i + 1 && line_reading(#[trigger] all[k]) == Reading::Address(bits) {
                    let k = choose|k: int|
                        0 <= k < i + 1 && line_reading(#[trigger] all[k]) == Reading::Address(
                            bits,
                        );
                    if k < i {
                        assert(before.contains(bits));
                    }
                }
            }
        }
        i += 1;
    }
    Some(set)
}

// ---------------------------------------------------------------------------
// Laws
// ---------------------------------------------------------------------------
/// A number as the given count of hexadecimal digits, with leading zeros.
pub open spec fn hex_digits(n: nat, count: nat) -> Seq<char>
    decreases count,
{
    if count == 0 {
        Seq::empty()
    } else {
        hex_digits(n / 16, (count - 1) as nat).push(number::digit((n % 16) as int))
    }
}

/// There are as many digits as were asked for, and each takes one byte.
proof fn lemma_hex_digits(n: nat, count: nat)
    ensures
        hex_digits(n, count).len() == count,
        vstd::utf8::is_ascii_chars(hex_digits(n, count)),
    decreases count,
{
    if count > 0 {
        let front = hex_digits(n / 16, (count - 1) as nat);
        lemma_hex_digits(n / 16, (count - 1) as nat);
        number::lemma_digit_value((n % 16) as int, 16);
        assert forall|i: int| 0 <= i < count implies '\0' <= #[trigger] hex_digits(n, count)[i]
            <= '\u{7f}' by {
            if i < front.len() {
                assert(hex_digits(n, count)[i] == front[i]);
            }
        }
    }
}

/// Two digits are read as the octet that they stand for.
proof fn lemma_read_pair(octet: nat, tail: Seq<char>, high: nat)
    requires
        octet < 256,
    ensures
        read_octets(
            seq![
                number::digit((octet / 16) as int),
                number::digit((octet % 16) as int),
            ] + tail,
            high,
        ) == read_octets(tail, high * 256 + octet),
{
    let a = number::digit((octet / 16) as int);
    let b = number::digit((octet % 16) as int);
    let pair = seq![a, b];
    let s = pair + tail;
    number::lemma_digit_value((octet / 16) as int, 16);
    number::lemma_digit_value((octet % 16) as int, 16);
    assert(s.take(2) =~= pair);
    assert(s.skip(2) =~= tail);
    assert(pair.drop_last() =~= seq![a]);
    assert(seq![a].drop_last() =~= Seq::<char>::empty());
    reveal_with_fuel(number::digits_value, 3);
    assert(number::digits_value(pair, 16) == Some(octet));
    assert(number::parsed(pair, 16, 255) == Some(octet));
}

/// Digits are read, octet by octet, as the number that they stand for.
proof fn lemma_read_digits(n: nat, octets: nat, tail: Seq<char>, high: nat)
    requires
        n < number::octet_range(octets),
    ensures
        read_octets(hex_digits(n, 2 * octets) + tail, high) == read_octets(
            tail,
            high * number::octet_range(octets) + n,
        ),
    decreases octets,
{
    let digits = hex_digits(n, 2 * octets);
    if octets == 0 {
        assert(digits + tail =~= tail);
        assert(high * 1 + n == high) by (nonlinear_arith)
            requires
                n == 0,
        ;
    } else {
        let before = (octets - 1) as nat;
        let octet = n % 256;
        let rest = n / 256;
        let range = number::octet_range(before);
        let pair = seq![number::digit((octet / 16) as int), number::digit((octet % 16) as int)];
        assert(n / 16 / 16 == rest);
        assert((n / 16) % 16 == octet / 16);
        assert(n % 16 == octet % 16);
        reveal_with_fuel(hex_digits, 3);
        assert(digits + tail =~= hex_digits(rest, 2 * before) + (pair + tail));
        lemma_read_digits(rest, before, pair + tail, high);
        lemma_read_pair(octet, tail, high * range + rest);
        assert((high * range + rest) * 256 + octet == high * (range * 256) + n) by (nonlinear_arith)
            requires
                n == rest * 256 + octet,
        ;
    }
}

/// A line about a temporary address of global scope that is in use is read as that address.
pub proof fn law_listed_address_is_read(line: Seq<char>, bits: u128, flags: u32)
    requires
        fields(line).len() >= 5,
        fields(line)[0] == hex_digits(bits as nat, 32),
        number::parsed(fields(line)[3], 16, 0xffff_ffff) == Some(0nat),
        number::parsed(fields(line)[4], 16, 0xffff_ffff) == Some(flags as nat),
        temporary_in_use(flags),
    ensures
        line_reading(line) == Reading::Address(bits),
{
    let digits = hex_digits(bits as nat, 32);
    let empty = Seq::<char>::empty();
    lemma_hex_digits(bits as nat, 32);
    vstd::utf8::is_ascii_chars_encode_utf8(digits);
    reveal_with_fuel(number::octet_range, 17);
    lemma_read_digits(bits as nat, 16, empty, 0);
    assert(digits + empty =~= digits);
    assert(0nat * number::octet_range(16) == 0) by (nonlinear_arith);
}

/// Each line counts by itself: lists one behind the other name the addresses of both.
pub proof fn law_lists_joined(a: Seq<char>, b: Seq<char>, bits: u128)
    ensures
        lists_temporary(a + seq!['\n'] + b, bits) <==> lists_temporary(a, bits)
            || lists_temporary(b, bits),
{
    text::lemma_pieces_joined(a, '\n', b);
    let p = text::pieces(a, '\n');
    let q = text::pieces(b, '\n');
    let all = text::pieces(a + seq!['\n'] + b, '\n');
    if lists_temporary(a, bits) {
        let k = choose|k: int|
            0 <= k < p.len() && line_reading(#[trigger] p[k]) == Reading::Address(bits);
        assert(all[k] == p[k]);
    }
    if lists_temporary(b, bits) {
        let k = choose|k: int|
            0 <= k < q.len() && line_reading(#[trigger] q[k]) == Reading::Address(bits);
        assert(all[p.len() + k] == q[k]);
    }
    if lists_temporary(a + seq!['\n'] + b, bits) {
        let k = choose|k: int|
            0 <= k < all.len() && line_reading(#[trigger] all[k]) == Reading::Address(bits);
        if k < p.len() {
            assert(p[k] == all[k]);
        } else {
            assert(q[k - p.len()] == all[k]);
        }
    }
}

/// ASCII text of even length is read two characters at a time.
proof fn lemma_read_ascii(s: Seq<char>, high: nat)
    requires
        vstd::utf8::is_ascii_chars(s),
        s.len() % 2 == 0,
    ensures
        read_octets(s, high) != Reading::SplitsCharacter,
    decreases s.len(),
{
    if s.len() > 0 {
        assert(s[0] <= '\u{7f}' && s[1] <= '\u{7f}');
        if let Some(octet) = number::parsed(s.take(2), 16, 255) {
            let rest = s.skip(2);
            assert forall|i: int| 0 <= i < rest.len() implies '\0' <= #[trigger] rest[i]
                <= '\u{7f}' by {
                assert(rest[i] == s[i + 2]);
            }
            lemma_read_ascii(rest, high * 256 + octet);
        }
    }
}

/// The pieces of ASCII text are ASCII text.
proof fn lemma_pieces_ascii(s: Seq<char>, separator: char)
    requires
        vstd::utf8::is_ascii_chars(s),
    ensures
        forall|i: int|
            0 <= i < text::pieces(s, separator).len() ==> vstd::utf8::is_ascii_chars(
                #[trigger] text::pieces(s, separator)[i],
            ),
{
    let all = text::pieces(s, separator);
    text::lemma_pieces_chars(s, separator);
    assert forall|i: int| 0 <= i < all.len() implies vstd::utf8::is_ascii_chars(
        #[trigger] all[i],
    ) by {
        assert forall|k: int| 0 <= k < all[i].len() implies '\0' <= #[trigger] all[i][k]
            <= '\u{7f}' by {
            let j = choose|j: int| 0 <= j < s.len() && s[j] == all[i][k];
            assert(s[j] <= '\u{7f}');
        }
    }
}

/// A list in ASCII, as Linux writes it, has no address that cannot be cut into pieces of two
/// bytes.
pub proof fn law_ascii_splits_no_character(content: Seq<char>)
    requires
        vstd::utf8::is_ascii_chars(content),
    ensures
        !splits_character(content),
{
    let lines = text::pieces(content, '\n');
    lemma_pieces_ascii(content, '\n');
    assert forall|k: int| 0 <= k < lines.len() implies line_reading(#[trigger] lines[k])
        != Reading::SplitsCharacter by {
        let line = lines[k];
        let blanked = spaced(line);
        assert forall|i: int| 0 <= i < blanked.len() implies '\0' <= #[trigger] blanked[i]
            <= '\u{7f}' by {
            assert(line[i] <= '\u{7f}');
        }
        let keep = |piece: Seq<char>| piece.len() > 0;
        let parts = text::pieces(blanked, ' ');
        lemma_pieces_ascii(blanked, ' ');
        lists::lemma_filter_within(parts, keep);
        let f = fields(line);
        if f.len() >= 5 {
            assert(parts.contains(f[0]));
            let j = choose|j: int| 0 <= j < parts.len() && parts[j] == f[0];
            assert(vstd::utf8::is_ascii_chars(parts[j]));
            vstd::utf8::is_ascii_chars_encode_utf8(f[0]);
            if f[0].len() == 32 {
                lemma_read_ascii(f[0], 0);
            }
        }
    }
}

/// A line is read as an address only if its scope, in hexadecimal, is 0, its flags have bit 0 set
/// and bits 5 and 6 clear, and its address field has thirty-two characters. In particular, a line
/// whose flags are 0 is never read as an address.
pub proof fn law_read_address_is_temporary(line: Seq<char>, bits: u128)
    requires
        line_reading(line) == Reading::Address(bits),
    ensures
        fields(line).len() >= 5,
        fields(line)[0].len() == 32,
        number::parsed(fields(line)[3], 16, 0xffff_ffff) == Some(0nat),
        number::parsed(fields(line)[4], 16, 0xffff_ffff) matches Some(flags) && flags % 2 == 1 && (
        flags / 32) % 2 == 0 && (flags / 64) % 2 == 0,
{
    let f = fields(line);
    let flags = number::parsed(f[4], 16, 0xffff_ffff)->0 as u32;
    assert(flags % 2 == 1 && (flags / 32) % 2 == 0 && (flags / 64) % 2 == 0) by (bit_vector)
        requires
            flags & 0x01 != 0,
            flags & 0x20 == 0,
            flags & 0x40 == 0,
    ;
    lemma_read_is_ascii(f[0], 0, bits);
    vstd::utf8::is_ascii_chars_encode_utf8(f[0]);
}

/// A character of a small number is an ASCII one.
proof fn lemma_small_char(c: char)
    requires
        (c as u32) < 0x80,
    ensures
        '\0' <= c <= '\u{7f}',
{
    vstd::utf8::char_is_scalar(c);
}

/// A text that is read as an address is ASCII text.
proof fn lemma_read_is_ascii(s: Seq<char>, high: nat, bits: u128)
    requires
        read_octets(s, high) == Reading::Address(bits),
    ensures
        vstd::utf8::is_ascii_chars(s),
    decreases s.len(),
{
    if s.len() > 0 {
        let octet = number::parsed(s.take(2), 16, 255)->0;
        let rest = s.skip(2);
        lemma_read_is_ascii(rest, high * 256 + octet, bits);
        lemma_small_char(s[0]);
        lemma_small_char(s[1]);
        assert forall|i: int| 0 <= i < s.len() implies '\0' <= #[trigger] s[i] <= '\u{7f}' by {
            if i >= 2 {
                assert(s[i] == rest[i - 2]);
            }
        }
    }
}

/// A line of which the address field is thirty-two hexadecimal digits, the scope is 0 and the
/// flags have bit 0 set and bits 5 and 6 clear is read as the address that the digits stand for.
pub proof fn law_temporary_address_is_read(line: Seq<char>, bits: u128, flags: nat)
    requires
        fields(line).len() >= 5,
        fields(line)[0] == hex_digits(bits as nat, 32),
        number::parsed(fields(line)[3], 16, 0xffff_ffff) == Some(0nat),
        number::parsed(fields(line)[4], 16, 0xffff_ffff) == Some(flags),
        flags % 2 == 1,
        (flags / 32) % 2 == 0,
        (flags / 64) % 2 == 0,
    ensures
        line_reading(line) == Reading::Address(bits),
{
    let set = flags as u32;
    assert(set & 0x01 != 0 && set & 0x20 == 0 && set & 0x40 == 0) by (bit_vector)
        requires
            set % 2 == 1,
            (set / 32) % 2 == 0,
            (set / 64) % 2 == 0,
    ;
    law_listed_address_is_read(line, bits, set);
}

/// White space separates fields, and is in none of them: text without any is one field, or none
/// where it is empty, and a white space character ends one field and starts the next.
pub proof fn law_fields_split(a: Seq<char>, c: char, b: Seq<char>)
    requires
        forall|i: int| 0 <= i < a.len() ==> !white_space(#[trigger] a[i]),
        white_space(c),
    ensures
        fields(a) == (if a.len() == 0 {
            Seq::<Seq<char>>::empty()
        } else {
            seq![a]
        }),
        fields(a + seq![c] + b) == fields(a) + fields(b),
{
    let keep = |piece: Seq<char>| piece.len() > 0;
    let empty = Seq::<Seq<char>>::empty();
    assert forall|i: int| 0 <= i < a.len() implies a[i] != ' ' by {
        assert(!white_space(a[i]));
    }
    assert(spaced(a) =~= a);
    assert(spaced(a + seq![c] + b) =~= a + seq![' '] + spaced(b));
    text::law_split(a, ' ', spaced(b));
    Seq::filter_distributes_over_add(seq![a], text::pieces(spaced(b), ' '), keep);
    lists::lemma_filter_none(empty, keep);
    lists::lemma_filter_push(empty, a, keep);
    assert(empty.push(a) =~= seq![a]);
}

/// A list of one line names an address exactly if the line is read as that address.
pub proof fn law_one_line(line: Seq<char>, bits: u128)
    requires
        forall|i: int| 0 <= i < line.len() ==> line[i] != '\n',
    ensures
        lists_temporary(line, bits) <==> line_reading(line) == Reading::Address(bits),
{
    text::law_split(line, '\n', Seq::empty());
    let lines = text::pieces(line, '\n');
    assert(lines[0] == line);
}

/// What a line is read as: the address that its first field stands for, exactly if it has five
/// fields, the first of them takes thirty-two bytes, the scope is 0, and the flags have bit 0 set
/// and bits 5 and 6 clear. All else is no address.
pub proof fn law_line_read_exactly(line: Seq<char>)
    ensures
        ({
            let f = fields(line);
            let scope = number::parsed(f[3], 16, 0xffff_ffff);
            let flags = number::parsed(f[4], 16, 0xffff_ffff);
            line_reading(line) == (if f.len() >= 5 && vstd::utf8::encode_utf8(f[0]).len() == 32
                && scope == Some(0nat) && flags is Some && flags->0 % 2 == 1 && (flags->0 / 32) % 2
                == 0 && (flags->0 / 64) % 2 == 0 {
                read_octets(f[0], 0)
            } else {
                Reading::NoAddress
            })
        }),
{
    let f = fields(line);
    if let Some(n) = number::parsed(f[4], 16, 0xffff_ffff) {
        let flags = n as u32;
        assert((flags & 0x01 != 0 && flags & 0x20 == 0 && flags & 0x40 == 0) == (flags % 2 == 1 && (
        flags / 32) % 2 == 0 && (flags / 64) % 2 == 0)) by (bit_vector);
    }
}

/// An address is read octet by octet, the first of them the highest: each is two ASCII characters
/// that make a number in hexadecimal. Anything else is no address, and a character of more than
/// one byte cannot be cut, unless it takes just the two bytes of an octet.
pub proof fn law_read_octet_by_octet(a: char, b: char, rest: Seq<char>, high: nat)
    ensures
        read_octets(Seq::empty(), high) == Reading::Address(high as u128),
        (a as u32) < 0x80 && (b as u32) < 0x80 ==> read_octets(seq![a, b] + rest, high) == match (
        number::parsed(seq![a, b], 16, 255)) {
            Some(octet) => read_octets(rest, high * 256 + octet),
            None => Reading::NoAddress,
        },
        (a as u32) < 0x80 && (b as u32) >= 0x80 ==> read_octets(seq![a, b] + rest, high)
            == Reading::SplitsCharacter,
        0x80 <= (a as u32) < 0x800 ==> read_octets(seq![a] + rest, high) == Reading::NoAddress,
        (a as u32) >= 0x800 ==> read_octets(seq![a] + rest, high) == Reading::SplitsCharacter,
{
    let s = seq![a, b] + rest;
    assert(s.take(2) =~= seq![a, b]);
    assert(s.skip(2) =~= rest);
    assert(s[0] == a && s[1] == b);
    assert((seq![a] + rest)[0] == a);
}

/// A list cannot be read exactly if one of its lines cannot.
pub proof fn law_split_lines(line: Seq<char>, content: Seq<char>)
    requires
        forall|i: int| 0 <= i < line.len() ==> line[i] != '\n',
    ensures
        splits_character(line) <==> line_reading(line) == Reading::SplitsCharacter,
        splits_character(line + seq!['\n'] + content) <==> splits_character(line)
            || splits_character(content),
{
    text::law_split(line, '\n', content);
    let one = text::pieces(line, '\n');
    let more = text::pieces(content, '\n');
    let all = text::pieces(line + seq!['\n'] + content, '\n');
    assert(one[0] == line && all[0] == line);
    if splits_character(content) {
        let k = choose|k: int|
            0 <= k < more.len() && line_reading(#[trigger] more[k]) == Reading::SplitsCharacter;
        assert(all[k + 1] == more[k]);
    }
    if splits_character(line + seq!['\n'] + content) {
        let k = choose|k: int|
            0 <= k < all.len() && line_reading(#[trigger] all[k]) == Reading::SplitsCharacter;
        if k > 0 {
            assert(more[k - 1] == all[k]);
        }
    }
}

} // verus!
