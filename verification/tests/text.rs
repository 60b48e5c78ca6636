use relay::text::{
    chars_of, find_from, matches_at, push_all, push_range, replaced, same_text, split_on,
    string_of, text_not_after,
};

fn replaced_text(s: &str, from: &str, to: &str) -> String {
    let r = replaced(&chars_of(s), &chars_of(from), &chars_of(to));
    string_of(&r)
}

#[test]
fn characters_and_back() {
    let s = "aé点\u{1F600}";
    assert_eq!(chars_of(s), vec!['a', 'é', '点', '\u{1F600}']);
    assert_eq!(string_of(&chars_of(s)), s);
    assert_eq!(string_of(&[]), "");
}

#[test]
fn texts_are_compared_by_their_characters() {
    assert!(same_text("点a", "点a"));
    assert!(!same_text("点a", "点b"));
    assert!(!same_text("", "a"));
}

#[test]
fn appending_characters() {
    let mut out = chars_of("ab");
    push_all(&mut out, &chars_of("cd"));
    push_range(&mut out, &chars_of("efgh"), 1, 3);
    assert_eq!(string_of(&out), "abcdfg");
}

#[test]
fn finding_agrees_with_str_find() {
    let hays = ["", "a", "aaa", "abcabc", "{{#items}}x{{/items}}", "点点a点"];
    let needles = ["", "a", "aa", "bc", "{{/items}}", "点a", "zz"];
    for hay in hays {
        for needle in needles {
            let expected = hay.find(needle).map(|i| hay[..i].chars().count());
            assert_eq!(
                find_from(&chars_of(hay), &chars_of(needle), 0),
                expected,
                "{hay} {needle}"
            );
        }
    }
}

#[test]
fn finding_starts_where_it_is_told_to() {
    let hay = chars_of("abab");
    let needle = chars_of("ab");
    assert_eq!(find_from(&hay, &needle, 0), Some(0));
    assert_eq!(find_from(&hay, &needle, 1), Some(2));
    assert_eq!(find_from(&hay, &needle, 3), None);
    assert_eq!(find_from(&hay, &needle, 9), None);
    assert!(matches_at(&hay, &needle, 2));
    assert!(!matches_at(&hay, &needle, 3));
}

#[test]
fn replacing_agrees_with_str_replace() {
    let cases = [
        ("", "a", "b"),
        ("aaa", "aa", "b"),
        ("aaaa", "aa", "a"),
        ("xay", "a", ""),
        ("xaya", "a", "aa"),
        ("点a点", "点", "p"),
        ("{{{k}}}", "{{k}}", "v"),
        ("nothing", "k", "v"),
    ];
    for (s, from, to) in cases {
        assert_eq!(replaced_text(s, from, to), s.replace(from, to), "{s} {from} {to}");
    }
}

#[test]
fn replacing_what_is_not_there_changes_nothing() {
    assert_eq!(replaced_text("abc", "x", "y"), "abc");
}

#[test]
fn replacing_one_thing_keeps_the_text_around_it() {
    assert_eq!(replaced_text("left MID right", "MID", "*"), "left * right");
}

#[test]
fn splitting_agrees_with_str_split() {
    for s in ["", "/", "a", "a/b", "/a//b/", "点/b"] {
        let got: Vec<String> = split_on(&chars_of(s), '/').iter().map(|v| string_of(v)).collect();
        let expected: Vec<String> = s.split('/').map(|p| p.to_string()).collect();
        assert_eq!(got, expected, "{s}");
    }
}

#[test]
fn texts_are_ordered_as_strings_are() {
    let all = ["", "a", "ab", "b", "B", "é", "点", "\u{FFFD}", "\u{10000}", "a\u{10000}"];
    for a in all {
        for b in all {
            assert_eq!(text_not_after(a, b), a <= b, "{a} {b}");
        }
    }
}
