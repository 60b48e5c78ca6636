use relay::address::{
    ip_priority, is_public_ipv4, is_public_ipv6, is_shareable_ip, push_ipv4, push_ipv6, Ip, Ipv4,
    Ipv6,
};
use std::collections::HashSet;

fn v4(a: u8, b: u8, c: u8, d: u8) -> Ipv4 {
    Ipv4 { a, b, c, d }
}

fn v6(s: [u16; 8]) -> Ipv6 {
    let mut bits: u128 = 0;
    for part in s {
        bits = bits * 0x1_0000 + part as u128;
    }
    Ipv6 { bits }
}

fn text4(ip: Ipv4) -> String {
    let mut out = String::new();
    push_ipv4(&mut out, ip);
    out
}

fn text6(ip: Ipv6) -> String {
    let mut out = String::new();
    push_ipv6(&mut out, ip);
    out
}

#[test]
fn public_ipv4_addresses() {
    for ip in [
        v4(8, 8, 8, 8),
        v4(172, 15, 0, 1),
        v4(172, 32, 0, 1),
        v4(192, 167, 0, 1),
        v4(169, 253, 0, 1),
        v4(223, 1, 1, 1),
        v4(240, 0, 0, 1),
        v4(255, 255, 255, 255),
        v4(192, 0, 3, 1),
        v4(100, 64, 0, 1),
    ] {
        assert!(is_public_ipv4(ip), "{}", text4(ip));
    }
}

#[test]
fn other_ipv4_addresses() {
    for ip in [
        v4(10, 1, 2, 3),
        v4(172, 16, 0, 1),
        v4(172, 31, 255, 255),
        v4(192, 168, 1, 1),
        v4(127, 0, 0, 1),
        v4(169, 254, 1, 1),
        v4(224, 0, 0, 1),
        v4(239, 255, 255, 255),
        v4(0, 0, 0, 0),
        v4(0, 1, 2, 3),
        v4(192, 0, 2, 1),
        v4(198, 51, 100, 7),
        v4(203, 0, 113, 255),
    ] {
        assert!(!is_public_ipv4(ip), "{}", text4(ip));
    }
}

#[test]
fn public_ipv6_addresses() {
    for ip in [
        v6([0x2001, 0xdb8, 0, 0, 0, 0, 0, 1]),
        v6([0, 0, 0, 0, 0, 0, 0, 2]),
        v6([0, 0, 0, 0, 0, 0xffff, 0x7f00, 1]),
        v6([0xfbff, 0, 0, 0, 0, 0, 0, 1]),
        v6([0xfe00, 0, 0, 0, 0, 0, 0, 1]),
        v6([0xfe7f, 0, 0, 0, 0, 0, 0, 1]),
        v6([0xfec0, 0, 0, 0, 0, 0, 0, 1]),
        v6([0xfeff, 0, 0, 0, 0, 0, 0, 1]),
    ] {
        assert!(is_public_ipv6(ip), "{}", text6(ip));
    }
}

#[test]
fn other_ipv6_addresses() {
    for ip in [
        v6([0, 0, 0, 0, 0, 0, 0, 0]),
        v6([0, 0, 0, 0, 0, 0, 0, 1]),
        v6([0xff02, 0, 0, 0, 0, 0, 0, 1]),
        v6([0xffff, 0xffff, 0xffff, 0xffff, 0xffff, 0xffff, 0xffff, 0xffff]),
        v6([0xfc00, 0, 0, 0, 0, 0, 0, 1]),
        v6([0xfdff, 1, 0, 0, 0, 0, 0, 1]),
        v6([0xfe80, 0, 0, 0, 0, 0, 0, 1]),
        v6([0xfebf, 1, 0, 0, 0, 0, 0, 1]),
    ] {
        assert!(!is_public_ipv6(ip), "{}", text6(ip));
    }
}

#[test]
fn priorities() {
    assert_eq!(ip_priority(Ip::V6(v6([0x2001, 0, 0, 0, 0, 0, 0, 1]))), 0);
    assert_eq!(ip_priority(Ip::V4(v4(8, 8, 8, 8))), 1);
    assert_eq!(ip_priority(Ip::V4(v4(192, 168, 0, 2))), 2);
    assert_eq!(ip_priority(Ip::V6(v6([0xfe80, 0, 0, 0, 0, 0, 0, 1]))), 3);
}

#[test]
fn ipv4_addresses_worth_announcing() {
    for ip in [v4(192, 168, 0, 2), v4(8, 8, 8, 8), v4(0, 1, 2, 3), v4(255, 255, 255, 254), v4(224, 0, 0, 1)] {
        assert!(is_shareable_ip(Ip::V4(ip), None));
        assert!(is_shareable_ip(Ip::V4(ip), Some(&HashSet::new())));
    }
    for ip in [v4(127, 1, 2, 3), v4(169, 254, 0, 1), v4(0, 0, 0, 0), v4(255, 255, 255, 255)] {
        assert!(!is_shareable_ip(Ip::V4(ip), None));
    }
}

#[test]
fn ipv6_addresses_worth_announcing() {
    let public = v6([0x2001, 0, 0, 0, 0, 0, 0, 1]);
    let local = v6([0xfe80, 0, 0, 0, 0, 0, 0, 1]);
    let mut temporary: HashSet<u128> = HashSet::new();
    assert!(is_shareable_ip(Ip::V6(public), None));
    assert!(!is_shareable_ip(Ip::V6(public), Some(&temporary)));
    temporary.insert(public.bits);
    temporary.insert(local.bits);
    assert!(is_shareable_ip(Ip::V6(public), Some(&temporary)));
    assert!(!is_shareable_ip(Ip::V6(local), Some(&temporary)));
    assert!(!is_shareable_ip(Ip::V6(local), None));
}

#[test]
fn ipv4_addresses_are_written_in_decimal() {
    assert_eq!(text4(v4(0, 0, 0, 0)), "0.0.0.0");
    assert_eq!(text4(v4(192, 168, 1, 20)), "192.168.1.20");
    assert_eq!(text4(v4(255, 100, 9, 10)), "255.100.9.10");
}

#[test]
fn ipv6_addresses_leave_out_the_first_of_the_longest_runs_of_zeros() {
    let cases: [([u16; 8], &str); 14] = [
        ([0, 0, 0, 0, 0, 0, 0, 0], "::"),
        ([0, 0, 0, 0, 0, 0, 0, 1], "::1"),
        ([1, 0, 0, 0, 0, 0, 0, 0], "1::"),
        ([0x2001, 0xdb8, 0, 0, 0, 0, 0, 1], "2001:db8::1"),
        ([0x2001, 0, 0, 1, 0, 0, 0, 1], "2001:0:0:1::1"),
        ([0x2001, 0, 0, 1, 2, 0, 0, 1], "2001::1:2:0:0:1"),
        ([0, 0, 1, 2, 3, 0, 0, 0], "0:0:1:2:3::"),
        ([1, 0, 2, 3, 4, 5, 6, 7], "1:0:2:3:4:5:6:7"),
        ([0, 1, 2, 3, 4, 5, 6, 7], "0:1:2:3:4:5:6:7"),
        ([1, 2, 3, 4, 5, 6, 7, 8], "1:2:3:4:5:6:7:8"),
        ([0xffff, 0xabcd, 0x10, 0x100, 0x1000, 0xa, 0, 0xf], "ffff:abcd:10:100:1000:a:0:f"),
        ([0, 0, 0, 0, 0, 0xffff, 0xc0a8, 0x0114], "::ffff:192.168.1.20"),
        ([0, 0, 0, 0, 0, 0, 0xc0a8, 0x0114], "::c0a8:114"),
        ([0, 0, 0, 0, 0xffff, 0, 0xc0a8, 0x0114], "::ffff:0:c0a8:114"),
    ];
    for (segments, expected) in cases {
        assert_eq!(text6(v6(segments)), expected);
    }
}

/// Reads segments in hexadecimal, with colons between them.
fn segments(text: &str) -> Vec<u16> {
    if text.is_empty() {
        return Vec::new();
    }
    text.split(':').map(|part| u16::from_str_radix(part, 16).unwrap()).collect()
}

#[test]
fn ipv6_addresses_can_be_read_back() {
    let values: [u16; 3] = [0, 1, 0xfffe];
    for n in 0..6561u32 {
        let mut rest: u32 = n;
        let mut s: [u16; 8] = [0; 8];
        for part in s.iter_mut() {
            *part = values[(rest % 3) as usize];
            rest /= 3;
        }
        let text = text6(v6(s));
        let read: Vec<u16> = match text.find("::") {
            None => segments(&text),
            Some(at) => {
                let mut all = segments(&text[..at]);
                let tail = segments(&text[at + 2..]);
                while all.len() + tail.len() < 8 {
                    all.push(0);
                }
                all.extend(tail);
                all
            }
        };
        assert_eq!(read, s, "{text}");
    }
}
