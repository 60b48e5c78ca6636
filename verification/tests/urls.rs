use relay::address::{Ip, Ipv4, Ipv6};
use relay::urls::{access_lines, access_urls, server_url, InterfaceIp};
use std::collections::HashSet;

fn v4(a: u8, b: u8, c: u8, d: u8) -> Ip {
    Ip::V4(Ipv4 { a, b, c, d })
}

fn v6(bits: u128) -> Ip {
    Ip::V6(Ipv6 { bits })
}

fn ifaces(ips: &[Ip]) -> Vec<InterfaceIp> {
    ips.iter().map(|ip| InterfaceIp { ip: *ip }).collect()
}

const PUBLIC: u128 = 0x2001_0db8_0000_0000_0000_0000_0000_0001;
const OTHER: u128 = 0x2001_0db8_0000_0000_0000_0000_0000_000a;
const LINK_LOCAL: u128 = 0xfe80_0000_0000_0000_0000_0000_0000_0001;

#[test]
fn urls_of_addresses() {
    assert_eq!(server_url(v4(192, 168, 1, 20), 8000), "http://192.168.1.20:8000");
    assert_eq!(server_url(v6(PUBLIC), 65535), "http://[2001:db8::1]:65535");
    assert_eq!(server_url(v6(1), 0), "http://[::1]:0");
}

#[test]
fn urls_come_by_priority_and_then_by_text() {
    let found = ifaces(&[
        v4(192, 168, 1, 20),
        v4(8, 8, 8, 8),
        v6(OTHER),
        v4(10, 0, 0, 1),
        v6(PUBLIC),
        v4(9, 9, 9, 9),
    ]);
    assert_eq!(
        access_urls(80, &found, None),
        vec![
            (0, "http://[2001:db8::1]:80".to_string()),
            (0, "http://[2001:db8::a]:80".to_string()),
            (1, "http://8.8.8.8:80".to_string()),
            (1, "http://9.9.9.9:80".to_string()),
            (2, "http://10.0.0.1:80".to_string()),
            (2, "http://192.168.1.20:80".to_string()),
        ]
    );
}

#[test]
fn urls_are_ordered_as_text_and_not_as_numbers() {
    let found = ifaces(&[v4(192, 168, 1, 9), v4(192, 168, 1, 10)]);
    let urls: Vec<String> = access_urls(1, &found, None).into_iter().map(|(_, url)| url).collect();
    assert_eq!(urls, vec!["http://192.168.1.10:1", "http://192.168.1.9:1"]);
}

#[test]
fn no_url_comes_twice() {
    let found = ifaces(&[v4(10, 0, 0, 1), v6(PUBLIC), v4(10, 0, 0, 1), v6(PUBLIC)]);
    assert_eq!(access_urls(80, &found, None).len(), 2);
}

#[test]
fn the_order_of_the_interfaces_does_not_matter() {
    let a = ifaces(&[v4(10, 0, 0, 1), v6(PUBLIC), v4(8, 8, 8, 8)]);
    let b = ifaces(&[v4(8, 8, 8, 8), v4(10, 0, 0, 1), v6(PUBLIC), v4(8, 8, 8, 8)]);
    assert_eq!(access_urls(80, &a, None), access_urls(80, &b, None));
}

#[test]
fn addresses_not_worth_announcing_are_left_out() {
    let found = ifaces(&[v4(127, 0, 0, 1), v4(169, 254, 3, 4), v6(LINK_LOCAL), v6(1), v4(0, 0, 0, 0)]);
    assert!(access_urls(80, &found, None).is_empty());
}

#[test]
fn only_temporary_ipv6_addresses_are_announced_where_they_are_known() {
    let found = ifaces(&[v6(PUBLIC), v6(OTHER), v4(10, 0, 0, 1)]);
    let mut temporary: HashSet<u128> = HashSet::new();
    temporary.insert(OTHER);
    assert_eq!(
        access_urls(80, &found, Some(&temporary)),
        vec![
            (0, "http://[2001:db8::a]:80".to_string()),
            (2, "http://10.0.0.1:80".to_string()),
        ]
    );
}

#[test]
fn what_is_printed() {
    let found = ifaces(&[v4(10, 0, 0, 1), v6(PUBLIC)]);
    assert_eq!(
        access_lines(&access_urls(8000, &found, None)),
        vec!["Available sharing URLs:", "  http://[2001:db8::1]:8000", "  http://10.0.0.1:8000"]
    );
}

#[test]
fn nothing_is_printed_where_there_is_nothing_to_announce() {
    assert!(access_lines(&access_urls(8000, &vec![], None)).is_empty());
}

#[test]
fn different_addresses_have_different_urls() {
    let all = [v4(1, 2, 3, 4), v4(12, 3, 4, 1), v4(1, 23, 4, 1), v6(0x0102_0304), v6(0xffff_0102_0304), v6(PUBLIC), v6(OTHER), v6(0)];
    for a in all {
        for b in all {
            assert_eq!(server_url(a, 80) == server_url(b, 80), a == b);
        }
    }
}
