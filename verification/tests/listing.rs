use relay::listing::{
    listing_context, order_rows, render_directory_listing, render_directory_listing_within,
    render_speedtest_only, sort_rows, Row,
};
use relay::path::{sanitize_path, sanitize_windows_path, Platform};
use relay::template::{render_sections, render_vars, Templates};

fn row(name: &str, is_dir: bool) -> Row {
    Row { name: name.to_string(), is_dir }
}

fn names(rows: &[Row]) -> Vec<String> {
    rows.iter().map(|r| r.name.clone()).collect()
}

fn templates() -> Templates {
    Templates {
        listing: "<t>{{title}}</t><h>{{heading}}</h>{{#items}}<a href=\"{{href}}\">{{label}}</a>{{/items}}"
            .to_string(),
        speedtest: "{{title}}|{{heading}}|{{description}}".to_string(),
    }
}

#[test]
fn entries_are_sorted_without_regard_to_case() {
    let rows = vec![row("b", false), row("C", true), row("A", false), row("ä", false), row("Ä2", false)];
    assert_eq!(names(&sort_rows(&rows)), vec!["A", "b", "C", "ä", "Ä2"]);
}

#[test]
fn names_that_differ_in_case_keep_their_order() {
    let rows = vec![row("x", false), row("A", false), row("a", true), row("X", true)];
    let sorted = sort_rows(&rows);
    assert_eq!(names(&sorted), vec!["A", "a", "x", "X"]);
    assert_eq!(sorted.iter().map(|r| r.is_dir).collect::<Vec<bool>>(), vec![false, true, false, true]);
}

#[test]
fn sorting_agrees_with_a_stable_sort_by_lower_case() {
    let given = ["Straße", "STRASSE", "straße", "İ", "i", "ΑΣ", "ας", "Z", "", "_", "a b", "点"];
    let rows: Vec<Row> = given.iter().map(|n| row(n, false)).collect();
    let mut expected: Vec<String> = given.iter().map(|n| n.to_string()).collect();
    expected.sort_by(|a, b| a.to_lowercase().cmp(&b.to_lowercase()));
    assert_eq!(names(&sort_rows(&rows)), expected);
}

#[test]
fn the_shared_directory_has_no_way_up() {
    let page = render_directory_listing(
        &templates(),
        Platform::Unix,
        &sanitize_path("").unwrap(),
        &vec![row("b.txt", false), row("A", true)],
    );
    assert_eq!(
        page.unwrap(),
        "<t>Index of /</t><h>Index of /</h><a href=\"/file?loc=/A/\">A/</a><a href=\"/file?loc=/b.txt\">b.txt</a>"
    );
}

#[test]
fn directories_below_it_lead_up() {
    let page = render_directory_listing(
        &templates(),
        Platform::Unix,
        &sanitize_path("one").unwrap(),
        &vec![row("x", false)],
    );
    assert_eq!(
        page.unwrap(),
        "<t>Index of /one</t><h>Index of /one</h><a href=\"/file?loc=/\">..</a><a href=\"/file?loc=/one/x\">x</a>"
    );
    let page = render_directory_listing(
        &templates(),
        Platform::Unix,
        &sanitize_path("one/two").unwrap(),
        &vec![row("three", true)],
    );
    assert_eq!(
        page.unwrap(),
        "<t>Index of /one/two</t><h>Index of /one/two</h><a href=\"/file?loc=/one/\">..</a><a href=\"/file?loc=/one/two/three/\">three/</a>"
    );
}

#[test]
fn an_empty_directory_has_no_entries() {
    let page = render_directory_listing(&templates(), Platform::Unix, &sanitize_path("").unwrap(), &vec![]);
    assert_eq!(page.unwrap(), "<t>Index of /</t><h>Index of /</h>");
}

#[test]
fn names_are_made_safe_for_html() {
    let page = render_directory_listing(
        &templates(),
        Platform::Unix,
        &sanitize_path("a&b").unwrap(),
        &vec![row("<i>\"'", false)],
    );
    assert_eq!(
        page.unwrap(),
        "<t>Index of /a&amp;b</t><h>Index of /a&amp;b</h><a href=\"/file?loc=/\">..</a><a href=\"/file?loc=/a&amp;b/&lt;i&gt;&quot;&#39;\">&lt;i&gt;&quot;&#39;</a>"
    );
}

#[test]
fn the_context_of_a_page_holds_its_rows_and_titles() {
    let ctx = listing_context(Platform::Unix, &sanitize_path("d").unwrap(), &vec![row("f", false), row("E", true)]);
    assert_eq!(render_vars("{{title}}={{heading}}", &ctx.vars), "Index of /d=Index of /d");
    assert_eq!(
        render_sections("{{#items}}{{href}} {{label}};{{/items}}", &ctx.sections),
        "/file?loc=/ ..;/file?loc=/d/E/ E/;/file?loc=/d/f f;"
    );
}

#[test]
fn names_with_tags_can_keep_a_page_from_ending() {
    let page = render_directory_listing_within(
        &templates(),
        Platform::Unix,
        &sanitize_path("{{#items}}{{href}}{{").unwrap(),
        &vec![row("items}}", false)],
        30,
    );
    assert!(page.is_none());
}

#[test]
fn ordinary_pages_take_one_step() {
    let base = sanitize_path("d").unwrap();
    let rows = vec![row("f", false), row("g", false)];
    let whole = render_directory_listing(&templates(), Platform::Unix, &base, &rows).unwrap();
    assert_eq!(
        render_directory_listing_within(&templates(), Platform::Unix, &base, &rows, 1).unwrap().unwrap(),
        whole
    );
    assert!(render_directory_listing_within(&templates(), Platform::Unix, &base, &rows, 0).is_none());
}

#[test]
fn the_speed_page_says_what_it_is_for() {
    assert_eq!(
        render_speedtest_only(&templates()).unwrap(),
        "Speed Test|Speed Test|点击右下角按钮开始测试当前连接下载速度。"
    );
}

#[test]
fn closing_braces_in_names_do_no_harm() {
    let page = render_directory_listing(
        &templates(),
        Platform::Unix,
        &sanitize_path("a}}").unwrap(),
        &vec![row("}}items}}", true)],
    );
    assert_eq!(
        page.unwrap(),
        "<t>Index of /a}}</t><h>Index of /a}}</h><a href=\"/file?loc=/\">..</a><a href=\"/file?loc=/a}}/}}items}}/\">}}items}}/</a>"
    );
}

#[test]
fn large_directories_are_sorted() {
    let rows: Vec<Row> = (0..3000u32).map(|i| row(&format!("N{}", i * 7919 % 3000), false)).collect();
    let mut expected = names(&rows);
    expected.sort();
    assert_eq!(names(&sort_rows(&rows)), expected);
}

#[test]
fn on_windows_paths_are_shown_with_backslashes() {
    let page = render_directory_listing(
        &templates(),
        Platform::Windows,
        &sanitize_windows_path("one/two\\three").unwrap(),
        &vec![row("x", false), row("D", true)],
    );
    assert_eq!(
        page.unwrap(),
        "<t>Index of /one\\two\\three</t><h>Index of /one\\two\\three</h><a href=\"/file?loc=/one\\two/\">..</a><a href=\"/file?loc=/one\\two\\three/D/\">D/</a><a href=\"/file?loc=/one\\two\\three/x\">x</a>"
    );
    let page = render_directory_listing(
        &templates(),
        Platform::Windows,
        &sanitize_windows_path("one").unwrap(),
        &vec![],
    );
    assert_eq!(
        page.unwrap(),
        "<t>Index of /one</t><h>Index of /one</h><a href=\"/file?loc=/\">..</a>"
    );
}

#[test]
fn entries_are_ordered_by_the_keys_given_for_them() {
    let rows = vec![row("one", false), row("two", true), row("three", false), row("four", true)];
    let keys: Vec<String> = ["b", "a", "b", ""].iter().map(|k| k.to_string()).collect();
    let ordered = order_rows(&rows, &keys);
    assert_eq!(names(&ordered), vec!["four", "two", "one", "three"]);
    assert_eq!(
        ordered.iter().map(|r| r.is_dir).collect::<Vec<bool>>(),
        vec![true, true, false, false]
    );
    assert!(order_rows(&vec![], &vec![]).is_empty());
}
