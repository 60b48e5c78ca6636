use relay::inet6::{has_split_character, is_white_space, linux_temporary_ipv6_set};

const ADDRESS: u128 = 0x2001_0db8_0001_0002_0123_4567_89ab_cdef;

fn read(content: &str) -> Vec<u128> {
    assert!(!has_split_character(content));
    let mut all: Vec<u128> = linux_temporary_ipv6_set(Some(content)).unwrap().into_iter().collect();
    all.sort();
    all
}

#[test]
fn white_space_is_what_unicode_says() {
    for v in 0..=0x10ffffu32 {
        if let Some(c) = char::from_u32(v) {
            assert_eq!(is_white_space(c), c.is_whitespace(), "{v:x}");
        }
    }
}

#[test]
fn without_a_list_nothing_is_known() {
    assert!(linux_temporary_ipv6_set(None).is_none());
    assert!(linux_temporary_ipv6_set(Some("")).unwrap().is_empty());
}

#[test]
fn temporary_addresses_are_read() {
    let content = "00000000000000000000000000000001 01 80 10 80       lo\n\
        20010db80001000201234567 89abcdef 02 40 00 01     eth0\n\
        20010db8000100020123456789abcdef 02 40 00 01     eth0\n\
        20010DB800010002FFFFFFFFFFFFFFFF 02 40 00 01     eth0\n\
        fe800000000000000000000000000001 02 40 20 80     eth0\n";
    assert_eq!(read(content), vec![ADDRESS, 0x2001_0db8_0001_0002_ffff_ffff_ffff_ffff]);
}

#[test]
fn flags_and_scopes_decide() {
    let cases = [
        ("00", "01", true),
        ("00", "81", true),
        ("0", "1", true),
        ("+0", "+1", true),
        ("00", "80", false),
        ("00", "21", false),
        ("00", "41", false),
        ("00", "61", false),
        ("20", "01", false),
        ("10", "01", false),
        ("xx", "01", false),
        ("00", "xx", false),
        ("100000000", "01", false),
        ("00", "100000001", false),
    ];
    for (scope, flags, listed) in cases {
        let content = format!("20010db8000100020123456789abcdef 02 40 {scope} {flags} eth0");
        let expected = if listed { vec![ADDRESS] } else { vec![] };
        assert_eq!(read(&content), expected, "{scope} {flags}");
    }
}

#[test]
fn fields_may_stand_apart() {
    assert_eq!(read(" \t20010db8000100020123456789abcdef\u{3000}02  40 00\u{a0}01\r\n"), vec![ADDRESS]);
}

#[test]
fn the_name_of_the_interface_may_be_missing() {
    assert_eq!(read("20010db8000100020123456789abcdef 02 40 00 01"), vec![ADDRESS]);
    assert!(read("20010db8000100020123456789abcdef 02 40 00").is_empty());
    assert!(read("20010db8000100020123456789abcdef 02 40").is_empty());
}

#[test]
fn addresses_have_thirty_two_digits() {
    for address in [
        "20010db8000100020123456789abcde",
        "20010db8000100020123456789abcdef0",
        "20010db8000100020123456789abcdeg",
        "2001:db8:1:2:123:4567:89ab:cdef:",
        "éé010db8000100020123456789abcdef",
        "00éé0db8000100020123456789abcd",
    ] {
        assert!(read(&format!("{address} 02 40 00 01 eth0")).is_empty(), "{address}");
    }
}

#[test]
fn a_plus_sign_may_stand_for_the_first_digit_of_an_octet() {
    assert_eq!(
        read("+f010db8000100020123456789abcdef 02 40 00 01 eth0"),
        vec![0x0f01_0db8_0001_0002_0123_4567_89ab_cdef]
    );
}

#[test]
fn addresses_that_cannot_be_cut_into_octets_are_told_apart() {
    // A character of two bytes across the border between two octets, and one of three bytes.
    for cut in ["0é0db8000100020123456789abcdef0", "点00db8000100020123456789abcdef"] {
        assert_eq!(cut.len(), 32);
        assert!(has_split_character(&format!("{cut} 02 40 00 01 eth0")));
        // Where the line is not about a temporary address in use, it does not matter.
        assert!(!has_split_character(&format!("{cut} 02 40 00 80 eth0")));
        assert!(!has_split_character(&format!("{cut} 02 40 10 01 eth0")));
    }
    assert!(!has_split_character(""));
}

#[test]
fn lists_one_behind_the_other_name_the_addresses_of_both() {
    let one = "20010db8000100020123456789abcdef 02 40 00 01 eth0";
    let other = "20010db8000100020123456789abcdee 03 40 00 01 eth1";
    assert_eq!(read(&format!("{one}\n{other}")), vec![ADDRESS - 1, ADDRESS]);
    assert_eq!(read(&format!("{one}\n\nnothing\n{one}")), vec![ADDRESS]);
}
