use relay::number::{parse_number, push_numeral};
use relay::text::chars_of;

fn numeral(n: u32, radix: u32) -> String {
    let mut out = String::new();
    push_numeral(&mut out, n, radix);
    out
}

fn parsed(s: &str, radix: u32, max: u32) -> Option<u32> {
    parse_number(&chars_of(s), radix, max)
}

#[test]
fn numbers_are_written_without_leading_zeros() {
    for n in [0, 1, 9, 10, 255, 256, 65535, 4294967295u32] {
        assert_eq!(numeral(n, 10), n.to_string());
        assert_eq!(numeral(n, 16), format!("{n:x}"));
        assert_eq!(numeral(n, 2), format!("{n:b}"));
    }
}

#[test]
fn numbers_are_appended() {
    let mut out = "port ".to_string();
    push_numeral(&mut out, 8000, 10);
    assert_eq!(out, "port 8000");
}

#[test]
fn reading_agrees_with_std() {
    let all = [
        "", "+", "-", "-0", "0", "00", "+0", "++1", "1 ", " 1", "65535", "65536", "+65535", "065535",
        "99999999999999999999", "1a", "1.0", "٣", "8000",
    ];
    for s in all {
        assert_eq!(parsed(s, 10, 65535).map(|n| n as u16), s.parse::<u16>().ok(), "{s}");
    }
    for s in ["", "+", "ff", "FF", "+f", "100", "fg", "0x1", "-1", "é", "00000ff"] {
        assert_eq!(
            parsed(s, 16, 255).map(|n| n as u8),
            u8::from_str_radix(s, 16).ok(),
            "{s}"
        );
    }
    for s in ["ffffffff", "100000000", "FFFFFFFF", "0ffffffff"] {
        assert_eq!(parsed(s, 16, 0xffff_ffff), u32::from_str_radix(s, 16).ok(), "{s}");
    }
}

#[test]
fn what_was_written_is_read_back() {
    for n in [0, 7, 80, 443, 8000, 65535u32] {
        assert_eq!(parsed(&numeral(n, 10), 10, 65535), Some(n));
        assert_eq!(parsed(&numeral(n, 16), 16, 65535), Some(n));
    }
}
