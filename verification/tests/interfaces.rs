use relay::address::{Ip, Ipv4, Ipv6};
use relay::interfaces::{
    adapters_step, collect_unix_interface_ips, collect_windows_interface_ips, device_path,
    ipv6_from_octets, is_shareable_interface_unix, looks_virtual_windows_interface, virtual_path,
    wchar_to_string, AdaptersStep, UnixInterface, UnixKind, UnixNumbers, WindowsAdapter,
    WindowsNumbers, WindowsUnicast,
};
use relay::urls::InterfaceIp;

const V6_OCTETS: [u8; 16] = [0x20, 0x01, 0x0d, 0xb8, 0, 1, 0, 2, 3, 4, 5, 6, 7, 8, 9, 0xff];
const V6_BITS: u128 = 0x2001_0db8_0001_0002_0304_0506_0708_09ff;
const V4_OCTETS: [u8; 16] = [192, 168, 1, 20, 9, 9, 9, 9, 9, 9, 9, 9, 9, 9, 9, 9];

fn ips(found: Vec<InterfaceIp>) -> Vec<Ip> {
    found.iter().map(|i| i.ip).collect()
}

fn the_v4() -> Ip {
    Ip::V4(Ipv4 { a: 192, b: 168, c: 1, d: 20 })
}

fn the_v6() -> Ip {
    Ip::V6(Ipv6 { bits: V6_BITS })
}

#[test]
fn octets_make_addresses() {
    assert_eq!(ipv6_from_octets(&V6_OCTETS), Ipv6 { bits: V6_BITS });
    assert_eq!(ipv6_from_octets(&[0; 16]).bits, 0);
    assert_eq!(ipv6_from_octets(&[0xff; 16]).bits, u128::MAX);
}

#[test]
fn where_devices_are_looked_for() {
    assert_eq!(device_path("eth0"), "/sys/class/net/eth0/device");
    assert_eq!(virtual_path("eth0"), "/sys/devices/virtual/net/eth0");
    assert_eq!(device_path(""), "/sys/class/net/device");
    assert_eq!(virtual_path("/x"), "/x");
}

#[test]
fn which_interfaces_lead_to_other_machines() {
    assert!(is_shareable_interface_unix(UnixKind::Linux, true, false));
    assert!(!is_shareable_interface_unix(UnixKind::Linux, true, true));
    assert!(!is_shareable_interface_unix(UnixKind::Linux, false, false));
    assert!(!is_shareable_interface_unix(UnixKind::Linux, false, true));
    for device in [true, false] {
        for of_virtual in [true, false] {
            assert!(is_shareable_interface_unix(UnixKind::Android, device, of_virtual));
        }
    }
}

const UNIX: UnixNumbers = UnixNumbers { iff_up: 1, iff_loopback: 8, af_inet: 2, af_inet6: 10 };

fn unix(flags: i32, device: bool, of_virtual: bool, family: i32) -> UnixInterface {
    UnixInterface {
        flags,
        device_exists: device,
        virtual_exists: of_virtual,
        family,
        octets: if family == 2 { V4_OCTETS } else { V6_OCTETS },
    }
}

#[test]
fn unix_interfaces_that_are_up_have_addresses() {
    let entries = vec![
        unix(0x1043, true, false, 17),
        unix(0x1043, true, false, 2),
        unix(0x1043, true, false, 10),
    ];
    assert_eq!(ips(collect_unix_interface_ips(UnixKind::Linux, &UNIX, &entries)), vec![the_v4(), the_v6()]);
}

#[test]
fn other_unix_interfaces_are_left_out() {
    let entries = vec![
        unix(0x1042, true, false, 2),
        unix(0x49, true, false, 2),
        unix(0x1043, false, false, 2),
        unix(0x1043, true, true, 10),
    ];
    assert!(ips(collect_unix_interface_ips(UnixKind::Linux, &UNIX, &entries)).is_empty());
    assert_eq!(
        ips(collect_unix_interface_ips(UnixKind::Android, &UNIX, &entries)),
        vec![the_v4(), the_v6()]
    );
}

fn wide(s: &str) -> Vec<u16> {
    s.encode_utf16().chain([0]).collect()
}

#[test]
fn wide_strings_end_at_their_zero() {
    assert_eq!(wchar_to_string(&wide("以太网 2")), "以太网 2");
    assert_eq!(wchar_to_string(&wide("a\u{1F600}b")), "a\u{1F600}b");
    assert_eq!(wchar_to_string(&vec![0x61, 0, 0x62]), "a");
    assert_eq!(wchar_to_string(&vec![0x61, 0x62]), "ab");
    assert_eq!(wchar_to_string(&vec![]), "");
}

#[test]
fn halves_that_stand_alone_are_replaced() {
    let cases: [&[u16]; 9] = [
        &[0xD800],
        &[0xDC00],
        &[0xD800, 0xD800, 0xDC00],
        &[0xDC00, 0xD800],
        &[0xD83D, 0xDE00],
        &[0xDBFF, 0xDFFF],
        &[0xD7FF, 0xE000, 0xFFFF],
        &[0xD800, 0x61],
        &[0x61, 0xDFFF, 0x62],
    ];
    for units in cases {
        assert_eq!(wchar_to_string(&units.to_vec()), String::from_utf16_lossy(units));
    }
    assert_eq!(wchar_to_string(&vec![0xD800, 0x61]), "\u{FFFD}a");
}

#[test]
fn names_of_virtual_interfaces() {
    for name in [
        "VirtualBox Host-Only Network",
        "vEthernet (WSL)",
        "Hyper-V Switch",
        "VMware Network Adapter VMnet8",
        "vboxnet0",
        "TAP-Windows",
        "tun0",
        "Tailscale",
        "ZeroTier One",
        "DockerNAT",
        "Loopback Pseudo-Interface 1",
        "My VPN",
        "a virtual b",
        "Network tape",
    ] {
        assert!(looks_virtual_windows_interface(name), "{name}");
    }
}

#[test]
fn names_of_other_interfaces() {
    for name in ["", "Ethernet", "Wi-Fi", "以太网", "ta p", "Local Area Connection 2", "ｖｐｎ", "VIRTUA"] {
        assert!(!looks_virtual_windows_interface(name), "{name}");
    }
}

#[test]
fn adapters_are_asked_for_twice_at_most() {
    let (overflow, fine) = (111, 0);
    assert_eq!(adapters_step(overflow, 20000, false, overflow, fine), AdaptersStep::Retry(20000));
    assert_eq!(adapters_step(overflow, 20000, true, overflow, fine), AdaptersStep::GiveUp);
    assert_eq!(adapters_step(fine, 0, false, overflow, fine), AdaptersStep::Read);
    assert_eq!(adapters_step(fine, 0, true, overflow, fine), AdaptersStep::Read);
    assert_eq!(adapters_step(5, 0, false, overflow, fine), AdaptersStep::GiveUp);
    assert_eq!(adapters_step(5, 0, true, overflow, fine), AdaptersStep::GiveUp);
}

const WINDOWS: WindowsNumbers =
    WindowsNumbers { af_inet: 2, af_inet6: 23, transient: 2, dad_preferred: 4 };

fn unicast(family: u16, flags: u32, dad_state: i32, preferred_lifetime: u32) -> WindowsUnicast {
    WindowsUnicast {
        family,
        octets: if family == 2 { V4_OCTETS } else { V6_OCTETS },
        flags,
        dad_state,
        preferred_lifetime,
    }
}

fn adapter(name: &str, oper_status: i32, if_type: u32) -> WindowsAdapter {
    WindowsAdapter {
        friendly_name: wide(name),
        oper_status,
        if_type,
        unicast: vec![unicast(2, 0, 0, 0), unicast(23, 3, 4, 60)],
    }
}

#[test]
fn windows_adapters_that_are_up_have_addresses() {
    let adapters = vec![adapter("Ethernet", 1, 6), adapter("Wi-Fi", 1, 71)];
    assert_eq!(
        ips(collect_windows_interface_ips(&WINDOWS, &adapters)),
        vec![the_v4(), the_v6(), the_v4(), the_v6()]
    );
}

#[test]
fn other_windows_adapters_are_left_out() {
    let adapters = vec![
        adapter("Ethernet", 2, 6),
        adapter("Ethernet", 1, 24),
        adapter("Ethernet", 1, 131),
        adapter("VMware Network Adapter", 1, 6),
    ];
    assert!(ips(collect_windows_interface_ips(&WINDOWS, &adapters)).is_empty());
}

#[test]
fn windows_ipv6_addresses_must_be_temporary_settled_and_in_use() {
    let cases = [
        (unicast(23, 2, 4, 1), true),
        (unicast(23, 1, 4, 1), false),
        (unicast(23, 2, 3, 1), false),
        (unicast(23, 2, 4, 0), false),
        (unicast(5, 2, 4, 1), false),
    ];
    for (entry, listed) in cases {
        let mut one = adapter("Ethernet", 1, 6);
        one.unicast = vec![entry];
        let expected = if listed { vec![the_v6()] } else { vec![] };
        assert_eq!(ips(collect_windows_interface_ips(&WINDOWS, &vec![one])), expected);
    }
}
