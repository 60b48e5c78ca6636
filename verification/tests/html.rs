use relay::html::escape_html;

#[test]
fn the_five_characters_are_escaped() {
    assert_eq!(escape_html("&<>\"'"), "&amp;&lt;&gt;&quot;&#39;");
}

#[test]
fn other_text_stays() {
    assert_eq!(escape_html(""), "");
    assert_eq!(escape_html("点击 a/b {x}"), "点击 a/b {x}");
}

#[test]
fn escaped_text_holds_no_markup() {
    let out = escape_html("<a href=\"x\" title='y'>&</a>");
    assert_eq!(out, "&lt;a href=&quot;x&quot; title=&#39;y&#39;&gt;&amp;&lt;/a&gt;");
    assert!(!out.contains(|c| matches!(c, '<' | '>' | '"' | '\'')));
}

#[test]
fn what_was_escaped_is_escaped_again() {
    assert_eq!(escape_html("&amp;"), "&amp;amp;");
}

#[test]
fn escaping_piece_by_piece_is_escaping_the_whole() {
    let (a, b) = ("x<", "&y");
    assert_eq!(escape_html(&format!("{a}{b}")), format!("{}{}", escape_html(a), escape_html(b)));
}

#[test]
fn different_texts_stay_different() {
    let all = ["", "<", "&lt;", "&amp;lt;", "lt;", "'", "&#39;"];
    for a in all {
        for b in all {
            assert_eq!(escape_html(a) == escape_html(b), a == b);
        }
    }
}
