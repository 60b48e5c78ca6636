//! Which of the machine's network interfaces to announce.
use vstd::prelude::*;

use crate::address::{Ip, Ipv4, Ipv6};
use crate::number;
use crate::path;
use crate::path::join_path;
use crate::text;
use crate::text::{chars_of, find_from};
use crate::urls::InterfaceIp;

verus! {

/// The addresses of the interfaces.
pub open spec fn addresses(found: Seq<InterfaceIp>) -> Seq<Ip> {
    found.map_values(|i: InterfaceIp| i.ip)
}

// ---------------------------------------------------------------------------
// Octets
// ---------------------------------------------------------------------------
/// The number that the first `n` octets make, the first of them the highest.
pub open spec fn octets_value(octets: Seq<u8>, n: nat) -> nat
    decreases n,
{
    if n == 0 {
        0
    } else {
        octets_value(octets, (n - 1) as nat) * 256 + octets[n - 1] as nat
    }
}

/// The IPv4 address in the first four octets.
pub open spec fn ipv4_of(octets: Seq<u8>) -> Ipv4 {
    Ipv4 { a: octets[0], b: octets[1], c: octets[2], d: octets[3] }
}

/// The IPv6 address in sixteen octets.
pub open spec fn ipv6_of(octets: Seq<u8>) -> Ipv6 {
    Ipv6 { bits: octets_value(octets, 16) as u128 }
}

proof fn lemma_octets_value(octets: Seq<u8>, n: nat)
    ensures
        octets_value(octets, n) < number::octet_range(n),
    decreases n,
{
    if n > 0 {
        lemma_octets_value(octets, (n - 1) as nat);
    }
}

/// The IPv6 address in sixteen octets.
pub fn ipv6_from_octets(octets: &[u8; 16]) -> (r: Ipv6)
    ensures
        r == ipv6_of(octets@),
        r.bits == octets_value(octets@, 16),
{
    let mut bits: u128 = 0;
    let mut i: usize = 0;
    while i < 16
        invariant
            i <= 16,
            bits == octets_value(octets@, i as nat),
        decreases 16 - i,
    {
        proof {
            lemma_octets_value(octets@, (i + 1) as nat);
            number::lemma_octet_range((i + 1) as nat);
        }
        bits = bits * 256 + octets[i] as u128;
        i += 1;
    }
    Ipv6 { bits }
}

// ---------------------------------------------------------------------------
// Linux and Android
// ---------------------------------------------------------------------------
/// The two systems that list their interfaces in the same way.
#[derive(Clone, Copy, Debug, PartialEq, Eq, Structural)]
pub enum UnixKind {
    Linux,
    Android,
}

/// The numbers by which the system marks interfaces and kinds of addresses.
pub struct UnixNumbers {
    /// The flag of an interface that is up.
    pub iff_up: i32,
    /// The flag of a loopback interface.
    pub iff_loopback: i32,
    /// The family of IPv4 addresses.
    pub af_inet: i32,
    /// The family of IPv6 addresses.
    pub af_inet6: i32,
}

/// An address of an interface, as the system lists it.
pub struct UnixInterface {
    /// The flags of the interface.
    pub flags: i32,
    /// Whether the interface has a device, by `device_path`.
    pub device_exists: bool,
    /// Whether the interface is a virtual one, by `virtual_path`.
    pub virtual_exists: bool,
    /// The family of the address.
    pub family: i32,
    /// The octets of the address, the first four of them for IPv4.
    pub octets: [u8; 16],
}

/// The path that exists where an interface has a device.
pub fn device_path(name: &str) -> (r: String)
    ensures
        r@ == path::joined_to(path::joined_to("/sys/class/net"@, name@), "device"@),
{
    let sys_path: String = join_path("/sys/class/net", name);
    join_path(sys_path.as_str(), "device")
}

/// The path that exists where an interface is a virtual one.
pub fn virtual_path(name: &str) -> (r: String)
    ensures
        r@ == path::joined_to("/sys/devices/virtual/net"@, name@),
{
    join_path("/sys/devices/virtual/net", name)
}

/// Whether an interface leads to other machines: on Linux, one with a device that is not
/// virtual. On Android that cannot be told from the device, so all of them count.
pub open spec fn shareable_interface(
    kind: UnixKind,
    device_exists: bool,
    virtual_exists: bool,
) -> bool {
    match kind {
        UnixKind::Linux => device_exists && !virtual_exists,
        UnixKind::Android => true,
    }
}

/// Whether an interface leads to other machines.
pub fn is_shareable_interface_unix(
    kind: UnixKind,
    device_exists: bool,
    virtual_exists: bool,
) -> (r: bool)
    ensures
        r == shareable_interface(kind, device_exists, virtual_exists),
{
    match kind {
        UnixKind::Linux => device_exists && !virtual_exists,
        UnixKind::Android => true,
    }
}

/// The address to consider, if any: that of an interface which is up, is not the loopback one
/// and leads to other machines.
pub open spec fn unix_address(
    kind: UnixKind,
    numbers: UnixNumbers,
    entry: UnixInterface,
) -> Option<Ip> {
    if entry.flags & numbers.iff_up == 0 || entry.flags & numbers.iff_loopback != 0
        || !shareable_interface(kind, entry.device_exists, entry.virtual_exists) {
        None
    } else if entry.family == numbers.af_inet {
        Some(Ip::V4(ipv4_of(entry.octets@)))
    } else if entry.family == numbers.af_inet6 {
        Some(Ip::V6(ipv6_of(entry.octets@)))
    } else {
        None
    }
}

/// The addresses to consider, in the order in which the system lists them.
pub fn collect_unix_interface_ips(
    kind: UnixKind,
    numbers: &UnixNumbers,
    entries: &Vec<UnixInterface>,
) -> (out: Vec<InterfaceIp>)
    ensures
        addresses(out@) == entries@.filter_map(
            |entry: UnixInterface| unix_address(kind, *numbers, entry),
        ),
{
    let ghost pick = |entry: UnixInterface| unix_address(kind, *numbers, entry);
    let mut out: Vec<InterfaceIp> = Vec::new();
    let mut i: usize = 0;
    proof {
        assert(addresses(out@) =~= entries@.take(0).filter_map(pick));
    }
    while i < entries.len()
        invariant
            i <= entries@.len(),
            pick == (|entry: UnixInterface| unix_address(kind, *numbers, entry)),
            addresses(out@) == entries@.take(i as int).filter_map(pick),
        decreases entries@.len() - i,
    {
        let entry: &UnixInterface = &entries[i];
        let ghost before = out@;
        proof {
            assert(entries@.take(i + 1).drop_last() =~= entries@.take(i as int));
            assert(entries@.take(i + 1).last() == entries@[i as int]);
        }
        let is_up: bool = (entry.flags & numbers.iff_up) != 0;
        let is_loopback: bool = (entry.flags & numbers.iff_loopback) != 0;
        if is_up && !is_loopback && is_shareable_interface_unix(
            kind,
            entry.device_exists,
            entry.virtual_exists,
        ) {
            if entry.family == numbers.af_inet {
                let v4 = Ipv4 {
                    a: entry.octets[0],
                    b: entry.octets[1],
                    c: entry.octets[2],
                    d: entry.octets[3],
                };
                out.push(InterfaceIp { ip: Ip::V4(v4) });
                proof {
                    assert(addresses(out@) =~= addresses(before) + seq![Ip::V4(v4)]);
                }
            } else if entry.family == numbers.af_inet6 {
                let v6: Ipv6 = ipv6_from_octets(&entry.octets);
                out.push(InterfaceIp { ip: Ip::V6(v6) });
                proof {
                    assert(addresses(out@) =~= addresses(before) + seq![Ip::V6(v6)]);
                }
            }
        }
        i += 1;
    }
    proof {
        assert(entries@.take(entries@.len() as int) =~= entries@);
    }
    out
}

// ---------------------------------------------------------------------------
// Windows: names
// ---------------------------------------------------------------------------
/// `char::from_u32` gives the character of that number, and nothing exactly where there is
/// none: for the surrogates and for numbers that are too large.
pub assume_specification[ char::from_u32 ](i: u32) -> (r: Option<char>)
    ensures
        match r {
            Some(c) => c as u32 == i,
            None => 0xD800 <= i <= 0xDFFF || i > 0x10FFFF,
        },
;

/// A unit that is the first half of a character.
pub open spec fn high_surrogate(u: u16) -> bool {
    0xD800 <= u <= 0xDBFF
}

/// A unit that is the second half of a character.
pub open spec fn low_surrogate(u: u16) -> bool {
    0xDC00 <= u <= 0xDFFF
}

/// UTF-16 as text, with the replacement character for each half that stands alone.
pub open spec fn utf16_lossy(s: Seq<u16>) -> Seq<char>
    decreases s.len(),
{
    if s.len() == 0 {
        Seq::empty()
    } else if !high_surrogate(s[0]) && !low_surrogate(s[0]) {
        seq![s[0] as char] + utf16_lossy(s.skip(1))
    } else if high_surrogate(s[0]) && s.len() >= 2 && low_surrogate(s[1]) {
        seq![(0x10000 + (s[0] - 0xD800) * 0x400 + (s[1] - 0xDC00)) as char] + utf16_lossy(
            s.skip(2),
        )
    } else {
        seq!['\u{FFFD}'] + utf16_lossy(s.skip(1))
    }
}

/// The units before the first zero.
pub open spec fn before_nul(s: Seq<u16>) -> Seq<u16>
    decreases s.len(),
{
    if s.len() == 0 || s[0] == 0 {
        Seq::empty()
    } else {
        seq![s[0]] + before_nul(s.skip(1))
    }
}

/// The number of units before the first zero.
fn nul_position(units: &Vec<u16>) -> (len: usize)
    ensures
        len <= units@.len(),
        units@.take(len as int) == before_nul(units@),
{
    let mut len: usize = 0;
    proof {
        assert(units@.skip(0) =~= units@);
        assert(units@.take(0) =~= Seq::empty());
    }
    while len < units.len() && units[len] != 0
        invariant
            len <= units@.len(),
            units@.take(len as int) + before_nul(units@.skip(len as int)) == before_nul(units@),
        decreases units@.len() - len,
    {
        proof {
            let rest = units@.skip(len as int);
            assert(rest.skip(1) =~= units@.skip(len + 1));
            assert(units@.take(len + 1) =~= units@.take(len as int) + seq![rest[0]]);
            assert(units@.take(len as int) + (seq![rest[0]] + before_nul(rest.skip(1)))
                =~= units@.take(len + 1) + before_nul(units@.skip(len + 1)));
        }
        len += 1;
    }
    proof {
        assert(before_nul(units@.skip(len as int)) =~= Seq::empty());
        assert(units@.take(len as int) + Seq::<u16>::empty() =~= units@.take(len as int));
    }
    len
}

/// The text of a wide string, up to the zero that ends it.
pub fn wchar_to_string(units: &Vec<u16>) -> (r: String)
    ensures
        r@ == utf16_lossy(before_nul(units@)),
{
    let len: usize = nul_position(units);
    let ghost given = before_nul(units@);
    let mut out: String = String::new();
    let mut i: usize = 0;
    proof {
        assert(given.skip(0) =~= given);
    }
    while i < len
        invariant
            i <= len <= units@.len(),
            given == units@.take(len as int),
            out@ + utf16_lossy(given.skip(i as int)) == utf16_lossy(given),
        decreases len - i,
    {
        let ghost rest = given.skip(i as int);
        let ghost before = out@;
        let unit: u16 = units[i];
        proof {
            assert(rest[0] == unit);
            assert(rest.skip(1) =~= given.skip(i + 1));
        }
        if unit < 0xD800 || unit > 0xDFFF {
            let c: char = char::from_u32(unit as u32).unwrap();
            out.push(c);
            proof {
                vstd::utf8::char_u32_cast(c, unit as u32);
                assert(c == unit as char);
                assert(before + (seq![c] + utf16_lossy(rest.skip(1))) =~= out@ + utf16_lossy(
                    rest.skip(1),
                ));
            }
            i += 1;
        } else if unit <= 0xDBFF && i + 1 < len && units[i + 1] >= 0xDC00 && units[i + 1]
            <= 0xDFFF {
            let high: u32 = unit as u32 - 0xD800;
            let low: u32 = units[i + 1] as u32 - 0xDC00;
            let c: char = char::from_u32(0x10000 + high * 0x400 + low).unwrap();
            out.push(c);
            proof {
                assert(rest[1] == units@[i + 1]);
                assert(rest.skip(2) =~= given.skip(i + 2));
                vstd::utf8::char_u32_cast(c, (0x10000 + high * 0x400 + low) as u32);
                assert(c == (0x10000 + (rest[0] - 0xD800) * 0x400 + (rest[1] - 0xDC00)) as char);
                assert(before + (seq![c] + utf16_lossy(rest.skip(2))) =~= out@ + utf16_lossy(
                    rest.skip(2),
                ));
            }
            i += 2;
        } else {
            out.push('\u{FFFD}');
            proof {
                if rest.len() >= 2 {
                    assert(rest[1] == units@[i + 1]);
                }
                assert(before + (seq!['\u{FFFD}'] + utf16_lossy(rest.skip(1))) =~= out@
                    + utf16_lossy(rest.skip(1)));
            }
            i += 1;
        }
    }
    proof {
        assert(given.skip(len as int) =~= Seq::empty());
        assert(out@ =~= out@ + utf16_lossy(given.skip(len as int)));
    }
    out
}

/// The lower case of an ASCII letter; any other character itself.
pub open spec fn ascii_lower(c: char) -> char {
    if 'A' <= c <= 'Z' {
        (c as int + 32) as char
    } else {
        c
    }
}

/// What the names of virtual interfaces tend to hold.
pub open spec fn virtual_hints() -> Seq<Seq<char>> {
    seq![
        "virtual"@,
        "hyper-v"@,
        "vmware"@,
        "virtualbox"@,
        "vbox"@,
        "wsl"@,
        "tap"@,
        "tun"@,
        "tailscale"@,
        "zerotier"@,
        "docker"@,
        "loopback"@,
        "vpn"@,
    ]
}

/// The name holds one of the hints, upper and lower case alike.
pub open spec fn looks_virtual(name: Seq<char>) -> bool {
    exists|k: int|
        0 <= k < virtual_hints().len() && text::occurs(
            name.map_values(|c: char| ascii_lower(c)),
            #[trigger] virtual_hints()[k],
        )
}

/// Whether an interface of that name is likely a virtual one.
pub fn looks_virtual_windows_interface(name: &str) -> (r: bool)
    ensures
        r == looks_virtual(name@),
{
    let chars: Vec<char> = chars_of(name);
    let ghost lowered = name@.map_values(|c: char| ascii_lower(c));
    let mut lower: Vec<char> = Vec::new();
    let mut i: usize = 0;
    while i < chars.len()
        invariant
            i <= chars@.len(),
            chars@ == name@,
            lowered == name@.map_values(|c: char| ascii_lower(c)),
            lower@ == lowered.take(i as int),
        decreases chars@.len() - i,
    {
        let c: char = chars[i];
        let l: char = if 'A' <= c && c <= 'Z' {
            (c as u8 + 32) as char
        } else {
            c
        };
        lower.push(l);
        proof {
            assert(lowered.take(i + 1) =~= lowered.take(i as int).push(l));
        }
        i += 1;
    }
    proof {
        assert(lower@ =~= lowered);
    }
    let hints: [&str; 13] = [
        "virtual",
        "hyper-v",
        "vmware",
        "virtualbox",
        "vbox",
        "wsl",
        "tap",
        "tun",
        "tailscale",
        "zerotier",
        "docker",
        "loopback",
        "vpn",
    ];
    proof {
        assert forall|k: int| 0 <= k < 13 implies (#[trigger] hints@[k])@ == virtual_hints()[k] by {}
    }
    let mut k: usize = 0;
    while k < 13
        invariant
            k <= 13,
            lower@ == lowered,
            lowered == name@.map_values(|c: char| ascii_lower(c)),
            virtual_hints().len() == 13,
            forall|j: int| 0 <= j < 13 ==> (#[trigger] hints@[j])@ == virtual_hints()[j],
            forall|j: int|
                0 <= j < k ==> !text::occurs(lowered, #[trigger] virtual_hints()[j]),
        decreases 13 - k,
    {
        let hint: Vec<char> = chars_of(hints[k]);
        proof {
            assert(hints@[k as int]@ == virtual_hints()[k as int]);
            text::lemma_find_none(lower@, hint@, 0);
        }
        if find_from(lower.as_slice(), hint.as_slice(), 0).is_some() {
            proof {
                let p = text::find(lower@, hint@, 0)->0;
                assert(text::is_first(lower@, hint@, 0, p));
                assert(text::occurs_at(lower@, hint@, p));
                assert(text::occurs(lowered, virtual_hints()[k as int]));
            }
            return true;
        }
        proof {
            if text::occurs(lowered, hint@) {
                let p = choose|p: int| text::occurs_at(lowered, hint@, p);
                assert(0 <= p);
            }
        }
        k += 1;
    }
    false
}

// ---------------------------------------------------------------------------
// Windows: adapters
// ---------------------------------------------------------------------------
/// The state of an adapter that is up.
pub const IF_OPER_STATUS_UP: i32 = 1;

/// The type of the loopback adapter.
pub const IF_TYPE_SOFTWARE_LOOPBACK: u32 = 24;

/// The type of an adapter that tunnels through others.
pub const IF_TYPE_TUNNEL: u32 = 131;

/// How many bytes the list of adapters is given room for at first.
pub const ADAPTERS_BUFFER: u32 = 16384;

/// The numbers by which the system marks kinds of addresses and their states.
pub struct WindowsNumbers {
    /// The family of IPv4 addresses.
    pub af_inet: u16,
    /// The family of IPv6 addresses.
    pub af_inet6: u16,
    /// The flag of an address that changes over time.
    pub transient: u32,
    /// The state of an address that is known to be the only one of its kind on the network.
    pub dad_preferred: i32,
}

/// An address of an adapter, as the system lists it.
pub struct WindowsUnicast {
    /// The family of the address.
    pub family: u16,
    /// The octets of the address, the first four of them for IPv4.
    pub octets: [u8; 16],
    /// The flags of the address.
    pub flags: u32,
    /// Whether the address is known to be the only one of its kind on the network.
    pub dad_state: i32,
    /// For how many seconds the address is still to be used for new connections.
    pub preferred_lifetime: u32,
}

/// An adapter, as the system lists it.
pub struct WindowsAdapter {
    /// The name that the adapter has for its users, in UTF-16.
    pub friendly_name: Vec<u16>,
    /// The state of the adapter.
    pub oper_status: i32,
    /// The type of the adapter.
    pub if_type: u32,
    /// The addresses of the adapter.
    pub unicast: Vec<WindowsUnicast>,
}

/// What to do after an attempt to list the adapters.
#[derive(Clone, Copy, Debug, PartialEq, Eq, Structural)]
pub enum AdaptersStep {
    /// Try again with room for so many bytes.
    Retry(u32),
    /// Read the list.
    Read,
    /// Do without.
    GiveUp,
}

/// What to do after an attempt that ended in `code`, where `needed` bytes of room would do. A
/// list that did not fit is asked for once more.
pub fn adapters_step(
    code: u32,
    needed: u32,
    retried: bool,
    buffer_overflow: u32,
    no_error: u32,
) -> (r: AdaptersStep)
    ensures
        r == (if code == buffer_overflow && !retried {
            AdaptersStep::Retry(needed)
        } else if code == no_error {
            AdaptersStep::Read
        } else {
            AdaptersStep::GiveUp
        }),
{
    if code == buffer_overflow && !retried {
        return AdaptersStep::Retry(needed);
    }
    if code != no_error {
        return AdaptersStep::GiveUp;
    }
    AdaptersStep::Read
}

/// The address to consider, if any: any IPv4 address, and an IPv6 address that changes over
/// time, is settled and is still to be used.
pub open spec fn unicast_address(numbers: WindowsNumbers, entry: WindowsUnicast) -> Option<Ip> {
    if entry.family == numbers.af_inet {
        Some(Ip::V4(ipv4_of(entry.octets@)))
    } else if entry.family == numbers.af_inet6 && entry.flags & numbers.transient != 0
        && entry.dad_state == numbers.dad_preferred && entry.preferred_lifetime > 0 {
        Some(Ip::V6(ipv6_of(entry.octets@)))
    } else {
        None
    }
}

/// An adapter that is up, leads to other machines and does not look virtual.
pub open spec fn usable_adapter(adapter: WindowsAdapter) -> bool {
    &&& adapter.oper_status == IF_OPER_STATUS_UP
    &&& adapter.if_type != IF_TYPE_SOFTWARE_LOOPBACK
    &&& adapter.if_type != IF_TYPE_TUNNEL
    &&& !looks_virtual(utf16_lossy(before_nul(adapter.friendly_name@)))
}

/// The addresses of one adapter to consider.
pub open spec fn adapter_addresses(numbers: WindowsNumbers, adapter: WindowsAdapter) -> Seq<Ip> {
    if usable_adapter(adapter) {
        adapter.unicast@.filter_map(|entry: WindowsUnicast| unicast_address(numbers, entry))
    } else {
        Seq::empty()
    }
}

/// The addresses of all adapters to consider, adapter by adapter.
pub open spec fn windows_addresses(
    numbers: WindowsNumbers,
    adapters: Seq<WindowsAdapter>,
) -> Seq<Ip>
    decreases adapters.len(),
{
    if adapters.len() == 0 {
        Seq::empty()
    } else {
        windows_addresses(numbers, adapters.drop_last()) + adapter_addresses(
            numbers,
            adapters.last(),
        )
    }
}

/// Appends the addresses of one adapter to consider.
fn push_unicast(
    out: &mut Vec<InterfaceIp>,
    numbers: &WindowsNumbers,
    unicast: &Vec<WindowsUnicast>,
)
    ensures
        addresses(final(out)@) == addresses(old(out)@) + unicast@.filter_map(
            |entry: WindowsUnicast| unicast_address(*numbers, entry),
        ),
{
    let ghost pick = |entry: WindowsUnicast| unicast_address(*numbers, entry);
    let ghost given = addresses(out@);
    let mut i: usize = 0;
    proof {
        assert(given =~= given + unicast@.take(0).filter_map(pick));
    }
    while i < unicast.len()
        invariant
            i <= unicast@.len(),
            pick == (|entry: WindowsUnicast| unicast_address(*numbers, entry)),
            addresses(out@) == given + unicast@.take(i as int).filter_map(pick),
        decreases unicast@.len() - i,
    {
        let entry: &WindowsUnicast = &unicast[i];
        let ghost before = out@;
        let ghost done = unicast@.take(i as int).filter_map(pick);
        proof {
            assert(unicast@.take(i + 1).drop_last() =~= unicast@.take(i as int));
            assert(unicast@.take(i + 1).last() == unicast@[i as int]);
        }
        if entry.family == numbers.af_inet {
            let v4 = Ipv4 {
                a: entry.octets[0],
                b: entry.octets[1],
                c: entry.octets[2],
                d: entry.octets[3],
            };
            out.push(InterfaceIp { ip: Ip::V4(v4) });
            proof {
                assert(addresses(out@) =~= addresses(before).push(Ip::V4(v4)));
                assert(addresses(out@) =~= given + (done + seq![Ip::V4(v4)]));
            }
        } else if entry.family == numbers.af_inet6 {
            let is_transient: bool = (entry.flags & numbers.transient) != 0;
            let dad_preferred: bool = entry.dad_state == numbers.dad_preferred;
            let not_expired: bool = entry.preferred_lifetime > 0;
            if is_transient && dad_preferred && not_expired {
                let v6: Ipv6 = ipv6_from_octets(&entry.octets);
                out.push(InterfaceIp { ip: Ip::V6(v6) });
                proof {
                    assert(addresses(out@) =~= addresses(before).push(Ip::V6(v6)));
                    assert(addresses(out@) =~= given + (done + seq![Ip::V6(v6)]));
                }
            }
        }
        i += 1;
    }
    proof {
        assert(unicast@.take(unicast@.len() as int) =~= unicast@);
    }
}

/// The addresses to consider, in the order in which the system lists them.
pub fn collect_windows_interface_ips(
    numbers: &WindowsNumbers,
    adapters: &Vec<WindowsAdapter>,
) -> (out: Vec<InterfaceIp>)
    ensures
        addresses(out@) == windows_addresses(*numbers, adapters@),
{
    let mut out: Vec<InterfaceIp> = Vec::new();
    let mut i: usize = 0;
    proof {
        assert(addresses(out@) =~= Seq::empty());
    }
    while i < adapters.len()
        invariant
            i <= adapters@.len(),
            addresses(out@) == windows_addresses(*numbers, adapters@.take(i as int)),
        decreases adapters@.len() - i,
    {
        let ad: &WindowsAdapter = &adapters[i];
        let ghost before = addresses(out@);
        proof {
            assert(adapters@.take(i + 1).drop_last() =~= adapters@.take(i as int));
            assert(adapters@.take(i + 1).last() == adapters@[i as int]);
        }
        let friendly: String = wchar_to_string(&ad.friendly_name);
        let is_up: bool = ad.oper_status == IF_OPER_STATUS_UP;
        let allowed_type: bool = ad.if_type != IF_TYPE_SOFTWARE_LOOPBACK && ad.if_type
            != IF_TYPE_TUNNEL;
        let not_virtual: bool = !looks_virtual_windows_interface(friendly.as_str());
        if is_up && allowed_type && not_virtual {
            push_unicast(&mut out, numbers, &ad.unicast);
        } else {
            proof {
                assert(before + Seq::<Ip>::empty() =~= before);
            }
        }
        i += 1;
    }
    proof {
        assert(adapters@.take(adapters@.len() as int) =~= adapters@);
    }
    out
}

// ---------------------------------------------------------------------------
// Laws
// ---------------------------------------------------------------------------
/// Each octet stands in the address where it stood in the list, the first of them the highest.
pub proof fn law_octets_keep_their_places(octets: Seq<u8>, i: int)
    requires
        octets.len() == 16,
        0 <= i < 16,
    ensures
        ipv4_of(octets).a == octets[0],
        ipv4_of(octets).b == octets[1],
        ipv4_of(octets).c == octets[2],
        ipv4_of(octets).d == octets[3],
        (ipv6_of(octets).bits as nat / number::octet_range((15 - i) as nat)) % 256 == octets[i],
{
    lemma_octets_value(octets, 16);
    number::lemma_octet_range(16);
    lemma_octet_at(octets, 16, i);
}

proof fn lemma_octet_at(octets: Seq<u8>, n: nat, i: int)
    requires
        0 <= i < n <= octets.len(),
    ensures
        (octets_value(octets, n) / number::octet_range((n - 1 - i) as nat)) % 256 == octets[i],
    decreases n,
{
    let m = (n - 1) as nat;
    let high = octets_value(octets, m);
    let low = octets[n - 1] as nat;
    let whole = octets_value(octets, n);
    assert(whole == high * 256 + low);
    if i == m {
        assert(number::octet_range(0) == 1);
        assert(whole / 1 == whole);
        assert((high * 256 + low) % 256 == low);
    } else {
        let range = number::octet_range((m - 1 - i) as nat);
        lemma_octet_at(octets, m, i);
        lemma_range_positive((m - 1 - i) as nat);
        vstd::arithmetic::div_mod::lemma_div_denominator(whole as int, 256, range as int);
        assert(whole / 256 == high);
        assert(range * 256 == 256 * range) by (nonlinear_arith);
        assert(whole / (range * 256) == (whole / 256) / range);
    }
}

proof fn lemma_range_positive(n: nat)
    ensures
        number::octet_range(n) > 0,
    decreases n,
{
    if n > 0 {
        lemma_range_positive((n - 1) as nat);
    }
}

/// An address of a Linux or Android interface is considered exactly if the interface is up, is no
/// loopback one, on Linux has a device and is no virtual one, and the address is of one of the
/// two families.
pub proof fn law_unix_address_exactly(
    kind: UnixKind,
    numbers: UnixNumbers,
    entry: UnixInterface,
)
    ensures
        unix_address(kind, numbers, entry) is Some <==> {
            &&& entry.flags & numbers.iff_up != 0
            &&& entry.flags & numbers.iff_loopback == 0
            &&& kind == UnixKind::Linux ==> entry.device_exists && !entry.virtual_exists
            &&& entry.family == numbers.af_inet || entry.family == numbers.af_inet6
        },
        unix_address(kind, numbers, entry) matches Some(ip) ==> match ip {
            Ip::V4(v4) => entry.family == numbers.af_inet && v4 == ipv4_of(entry.octets@),
            Ip::V6(v6) => entry.family == numbers.af_inet6 && v6 == ipv6_of(entry.octets@),
        },
        unix_address(kind, numbers, entry) is Some && entry.family == numbers.af_inet
            ==> unix_address(kind, numbers, entry)->0 is V4,
{
}

/// An address of a Windows adapter is considered exactly if it is an IPv4 one, or an IPv6 one that
/// changes over time, is settled and is still to be used.
pub proof fn law_unicast_address_exactly(numbers: WindowsNumbers, entry: WindowsUnicast)
    ensures
        unicast_address(numbers, entry) is Some <==> entry.family == numbers.af_inet || (
        entry.family == numbers.af_inet6 && entry.flags & numbers.transient != 0 && entry.dad_state
            == numbers.dad_preferred && entry.preferred_lifetime != 0),
        unicast_address(numbers, entry) matches Some(ip) ==> match ip {
            Ip::V4(v4) => entry.family == numbers.af_inet && v4 == ipv4_of(entry.octets@),
            Ip::V6(v6) => entry.family == numbers.af_inet6 && v6 == ipv6_of(entry.octets@),
        },
        entry.family == numbers.af_inet ==> unicast_address(numbers, entry)->0 is V4,
{
}

/// The addresses of a Windows adapter are considered exactly if it is up (1), is neither the
/// loopback one (24) nor a tunnel (131), and its name does not look virtual; adapters are taken
/// one after the other.
pub proof fn law_windows_addresses_by_adapter(
    numbers: WindowsNumbers,
    adapters: Seq<WindowsAdapter>,
    adapter: WindowsAdapter,
)
    ensures
        windows_addresses(numbers, Seq::empty()) == Seq::<Ip>::empty(),
        windows_addresses(numbers, adapters.push(adapter)) == windows_addresses(numbers, adapters)
            + (if adapter.oper_status == 1 && adapter.if_type != 24 && adapter.if_type != 131
            && !looks_virtual(utf16_lossy(before_nul(adapter.friendly_name@))) {
            adapter.unicast@.filter_map(|entry: WindowsUnicast| unicast_address(numbers, entry))
        } else {
            Seq::empty()
        }),
{
    assert(adapters.push(adapter).drop_last() =~= adapters);
}

/// A name looks virtual exactly if one of the thirteen words stands somewhere in it, whatever the
/// case of its ASCII letters.
pub proof fn law_looks_virtual_exactly(name: Seq<char>)
    ensures
        ({
            let lower = name.map_values(
                |c: char|
                    if 65 <= c as int <= 90 {
                        (c as int + 32) as char
                    } else {
                        c
                    },
            );
            looks_virtual(name) <==> {
                ||| text::occurs(lower, "virtual"@)
                ||| text::occurs(lower, "hyper-v"@)
                ||| text::occurs(lower, "vmware"@)
                ||| text::occurs(lower, "virtualbox"@)
                ||| text::occurs(lower, "vbox"@)
                ||| text::occurs(lower, "wsl"@)
                ||| text::occurs(lower, "tap"@)
                ||| text::occurs(lower, "tun"@)
                ||| text::occurs(lower, "tailscale"@)
                ||| text::occurs(lower, "zerotier"@)
                ||| text::occurs(lower, "docker"@)
                ||| text::occurs(lower, "loopback"@)
                ||| text::occurs(lower, "vpn"@)
            }
        }),
{
    let lower = name.map_values(
        |c: char|
            if 65 <= c as int <= 90 {
                (c as int + 32) as char
            } else {
                c
            },
    );
    let hints = virtual_hints();
    assert(lower =~= name.map_values(|c: char| ascii_lower(c)));
    assert(hints[0] == "virtual"@ && hints[1] == "hyper-v"@ && hints[2] == "vmware"@ && hints[3]
        == "virtualbox"@ && hints[4] == "vbox"@ && hints[5] == "wsl"@ && hints[6] == "tap"@
        && hints[7] == "tun"@ && hints[8] == "tailscale"@ && hints[9] == "zerotier"@ && hints[10]
        == "docker"@ && hints[11] == "loopback"@ && hints[12] == "vpn"@);
    if looks_virtual(name) {
        let k = choose|k: int|
            0 <= k < hints.len() && text::occurs(
                name.map_values(|c: char| ascii_lower(c)),
                #[trigger] hints[k],
            );
        assert(text::occurs(lower, hints[k]));
    }
}

/// Text in UTF-16: characters up to 0xFFFF as one unit, the others as two halves.
pub open spec fn utf16(s: Seq<char>) -> Seq<u16>
    decreases s.len(),
{
    if s.len() == 0 {
        Seq::empty()
    } else {
        let c = s[0] as int;
        (if c < 0x10000 {
            seq![c as u16]
        } else {
            seq![
                (0xD800 + (c - 0x10000) / 0x400) as u16,
                (0xDC00 + (c - 0x10000) % 0x400) as u16,
            ]
        }) + utf16(s.skip(1))
    }
}

/// One character that was written in UTF-16, in front of others, is read back.
proof fn lemma_unit_reads_back(c: char, rest: Seq<u16>)
    ensures
        ({
            let n = c as int;
            utf16_lossy(
                (if n < 0x10000 {
                    seq![n as u16]
                } else {
                    seq![
                        (0xD800 + (n - 0x10000) / 0x400) as u16,
                        (0xDC00 + (n - 0x10000) % 0x400) as u16,
                    ]
                }) + rest,
            ) == seq![c] + utf16_lossy(rest)
        }),
{
    let n = c as int;
    vstd::utf8::char_is_scalar(c);
    assert(0 <= n < 0x11_0000 && !(0xD800 <= n <= 0xDFFF));
    if n < 0x10000 {
        let whole = seq![n as u16] + rest;
        assert(whole.skip(1) =~= rest);
        assert(whole[0] as char == c);
    } else {
        let whole = seq![
            (0xD800 + (n - 0x10000) / 0x400) as u16,
            (0xDC00 + (n - 0x10000) % 0x400) as u16,
        ] + rest;
        assert(whole.skip(2) =~= rest);
        assert(0x10000 + (whole[0] - 0xD800) * 0x400 + (whole[1] - 0xDC00) == n);
    }
}

/// Text that was written in UTF-16 is read back.
pub proof fn law_utf16_reads_back(s: Seq<char>)
    ensures
        utf16_lossy(utf16(s)) == s,
    decreases s.len(),
{
    if s.len() == 0 {
        assert(s =~= Seq::empty());
    } else {
        law_utf16_reads_back(s.skip(1));
        lemma_unit_reads_back(s[0], utf16(s.skip(1)));
        assert(seq![s[0]] + s.skip(1) =~= s);
    }
}

/// A half that stands alone is read as the replacement character, and what follows it is read on.
pub proof fn law_lone_half_is_replaced(half: u16, rest: Seq<u16>)
    requires
        0xD800 <= half <= 0xDFFF,
        half <= 0xDBFF && rest.len() > 0 ==> !(0xDC00 <= rest[0] <= 0xDFFF),
    ensures
        utf16_lossy(seq![half] + rest) == seq!['\u{FFFD}'] + utf16_lossy(rest),
{
    let s = seq![half] + rest;
    assert(s.skip(1) =~= rest);
    if rest.len() > 0 {
        assert(s[1] == rest[0]);
    }
}

/// A wide string ends before its first zero, or with its last unit where it has none.
pub proof fn law_wide_string_ends_at_zero(a: Seq<u16>, b: Seq<u16>)
    requires
        forall|i: int| 0 <= i < a.len() ==> a[i] != 0,
    ensures
        before_nul(a) == a,
        before_nul(a + seq![0u16] + b) == a,
    decreases a.len(),
{
    if a.len() == 0 {
        assert(a =~= Seq::empty());
        assert((a + seq![0u16] + b)[0] == 0);
    } else {
        let rest = a.skip(1);
        assert forall|i: int| 0 <= i < rest.len() implies rest[i] != 0 by {
            assert(rest[i] == a[i + 1]);
        }
        law_wide_string_ends_at_zero(rest, b);
        assert(seq![a[0]] + rest =~= a);
        assert((a + seq![0u16] + b).skip(1) =~= rest + seq![0u16] + b);
    }
}

/// Each interface stands for its address, in its place.
pub proof fn law_addresses_of_interfaces(found: Seq<InterfaceIp>, i: int)
    ensures
        addresses(found).len() == found.len(),
        0 <= i < found.len() ==> addresses(found)[i] == found[i].ip,
{
}

} // verus!
