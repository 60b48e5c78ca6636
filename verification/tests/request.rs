use relay::listing::Row;
use relay::path::{sanitize_path, Platform, RelativePath};
use relay::request::{
    after_inspection, after_listing, after_serving, handle_app_js, handle_file, handle_path_impl,
    handle_speedtest, handle_style_css, not_found, redirect_root, server_error, Found, Reply, Step,
};
use relay::template::Templates;

fn templates() -> Templates {
    Templates {
        listing: "{{title}}:{{#items}}{{href}}={{label}};{{/items}}".to_string(),
        speedtest: "{{title}}".to_string(),
    }
}

fn shown(reply: Reply) -> String {
    match reply {
        Reply::Redirect(to) => format!("redirect {to}"),
        Reply::Html(page) => format!("page {page}"),
        Reply::Asset { content_type, text } => format!("asset {content_type} {text}"),
        Reply::Failure { status, text } => format!("{status} {text}"),
        Reply::Stream { content_type, cache_control } => format!("stream {content_type} {cache_control}"),
    }
}

fn step(step: Step) -> String {
    match step {
        Step::Answer(reply) => shown(reply),
        Step::Inspect(path) => format!("inspect '{}'", path.text()),
        Step::List(path) => format!("list '{}'", path.text()),
        Step::Serve(path) => format!("serve '{}'", path.text()),
    }
}

fn path(text: &str) -> RelativePath {
    sanitize_path(text).unwrap()
}

#[test]
fn fixed_answers() {
    assert_eq!(shown(redirect_root()), "redirect /file?loc=/");
    assert_eq!(shown(not_found()), "404 Not Found");
    assert_eq!(shown(server_error()), "500 Internal Server Error");
    assert_eq!(shown(handle_style_css("a{}")), "asset text/css; charset=utf-8 a{}");
    assert_eq!(shown(handle_app_js("f()")), "asset application/javascript; charset=utf-8 f()");
    assert_eq!(
        shown(handle_speedtest()),
        "stream application/octet-stream no-store, no-cache, must-revalidate, max-age=0"
    );
}

#[test]
fn without_a_shared_directory_there_is_only_the_speed_page() {
    for loc in [None, Some("/"), Some("/../x"), Some("x")] {
        assert_eq!(step(handle_file(&templates(), Platform::Unix, false, loc)), "page Speed Test");
    }
    assert_eq!(step(handle_path_impl(Platform::Unix, false, "a")), "404 Not Found");
}

#[test]
fn locations_are_looked_up_below_the_shared_directory() {
    let cases = [
        (None, "inspect ''"),
        (Some(""), "inspect ''"),
        (Some("/"), "inspect ''"),
        (Some("/a"), "inspect 'a'"),
        (Some("/a/./b//"), "inspect 'a/b'"),
        (Some("/点 x"), "inspect '点 x'"),
    ];
    for (loc, expected) in cases {
        assert_eq!(step(handle_file(&templates(), Platform::Unix, true, loc)), expected);
    }
}

#[test]
fn locations_that_leave_it_are_not_found() {
    for loc in ["/..", "/../etc/passwd", "/a/../../b", "/a/..", "//etc/passwd", "a", "..", "//"] {
        assert_eq!(step(handle_file(&templates(), Platform::Unix, true, Some(loc))), "404 Not Found", "{loc}");
    }
    assert_eq!(step(handle_path_impl(Platform::Unix, true, "a/..")), "404 Not Found");
}

#[test]
fn directories_are_listed_and_files_are_sent() {
    assert_eq!(step(after_inspection(path("a"), Found::Nothing)), "404 Not Found");
    assert_eq!(step(after_inspection(path("a/b"), Found::Directory)), "list 'a/b'");
    assert_eq!(step(after_inspection(path("a/b"), Found::File)), "serve 'a/b'");
}

#[test]
fn directories_are_shown() {
    let rows = vec![
        Row { name: "b".to_string(), is_dir: false },
        Row { name: "A".to_string(), is_dir: true },
    ];
    assert_eq!(
        shown(after_listing(&templates(), Platform::Unix, &path("d"), Some(&rows), 1).unwrap()),
        "page Index of /d:/file?loc=/=..;/file?loc=/d/A/=A/;/file?loc=/d/b=b;"
    );
    assert!(after_listing(&templates(), Platform::Unix, &path("d"), Some(&rows), 0).is_none());
}

#[test]
fn failures_on_the_way_are_server_errors() {
    assert_eq!(
        shown(after_listing(&templates(), Platform::Unix, &path("d"), None, 0).unwrap()),
        "500 Internal Server Error"
    );
    assert_eq!(shown(after_serving(false).unwrap()), "500 Internal Server Error");
    assert!(after_serving(true).is_none());
}

#[test]
fn locations_behind_entries_lead_to_them() {
    assert_eq!(step(handle_file(&templates(), Platform::Unix, true, Some("/d/A/"))), "inspect 'd/A'");
    assert_eq!(step(handle_file(&templates(), Platform::Unix, true, Some("/d/b"))), "inspect 'd/b'");
}

#[test]
fn on_windows_backslashes_separate_too() {
    let cases = [
        (None, "inspect ''"),
        (Some("/"), "inspect ''"),
        (Some("/a\\b/c"), "inspect 'a/b/c'"),
        (Some("/a\\"), "inspect 'a'"),
        (Some("/.\\a"), "inspect 'a'"),
    ];
    for (loc, expected) in cases {
        assert_eq!(step(handle_file(&templates(), Platform::Windows, true, loc)), expected);
    }
    assert_eq!(
        step(handle_file(&templates(), Platform::Unix, true, Some("/a\\..\\b"))),
        "inspect 'a\\..\\b'"
    );
}

#[test]
fn on_windows_locations_that_leave_it_are_not_found() {
    for loc in [
        "/..", "/a\\..\\b", "/a/..\\b", "/..\\b", "/\\a", "//a", "/\\\\server\\share", "/C:", "/c:\\x", "/C:x",
        "/a/C:/x", "/./C:\\x", "a", "\\a",
    ] {
        assert_eq!(
            step(handle_file(&templates(), Platform::Windows, true, Some(loc))),
            "404 Not Found",
            "{loc}"
        );
    }
    assert_eq!(step(handle_path_impl(Platform::Windows, true, "a\\..")), "404 Not Found");
    assert_eq!(step(handle_path_impl(Platform::Windows, false, "a")), "404 Not Found");
}

#[test]
fn on_windows_locations_behind_entries_lead_to_them() {
    assert_eq!(
        step(handle_file(&templates(), Platform::Windows, true, Some("/one\\two/x/"))),
        "inspect 'one/two/x'"
    );
    assert_eq!(
        step(handle_file(&templates(), Platform::Windows, true, Some("/one\\two/"))),
        "inspect 'one/two'"
    );
}
