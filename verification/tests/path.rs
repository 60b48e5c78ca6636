use relay::path::{
    join_path, normalize_loc, sanitize_path, sanitize_path_on, sanitize_windows_path, Platform,
};

fn sanitized(path: &str) -> Option<String> {
    sanitize_path(path).map(|relative| relative.text())
}

#[test]
fn locations_lose_their_leading_slash() {
    assert_eq!(normalize_loc(""), Some(String::new()));
    assert_eq!(normalize_loc("/"), Some(String::new()));
    assert_eq!(normalize_loc("/a/b"), Some("a/b".to_string()));
    assert_eq!(normalize_loc("/a/"), Some("a/".to_string()));
    assert_eq!(normalize_loc("//a"), Some("/a".to_string()));
}

#[test]
fn locations_without_a_leading_slash_name_nothing() {
    assert_eq!(normalize_loc("a"), None);
    assert_eq!(normalize_loc("../a"), None);
    assert_eq!(normalize_loc(" /a"), None);
}

#[test]
fn paths_that_lead_down_are_let_through() {
    assert_eq!(sanitized(""), Some(String::new()));
    assert_eq!(sanitized("a"), Some("a".to_string()));
    assert_eq!(sanitized("a/b/点"), Some("a/b/点".to_string()));
    assert_eq!(sanitized("a//b/"), Some("a/b".to_string()));
    assert_eq!(sanitized("./a/./b/."), Some("a/b".to_string()));
    assert_eq!(sanitized("."), Some(String::new()));
}

#[test]
fn names_that_only_look_like_a_parent_are_let_through() {
    assert_eq!(sanitized("..."), Some("...".to_string()));
    assert_eq!(sanitized("a../..b/.c"), Some("a../..b/.c".to_string()));
}

#[test]
fn paths_that_climb_are_refused() {
    for path in ["..", "../a", "a/..", "a/../b", "a/b/../../c", "./..", "a//.."] {
        assert_eq!(sanitized(path), None, "{path}");
    }
}

#[test]
fn paths_from_the_root_are_refused() {
    for path in ["/", "/a", "//a", "/.."] {
        assert_eq!(sanitized(path), None, "{path}");
    }
}

#[test]
fn sanitizing_agrees_with_the_components_of_a_path() {
    let pieces = ["", ".", "..", "a", "b c", "..."];
    for x in pieces {
        for y in pieces {
            for z in pieces {
                let path = format!("{x}/{y}/{z}");
                let mut expected = Some(std::path::PathBuf::new());
                for component in std::path::Path::new(&path).components() {
                    match component {
                        std::path::Component::Normal(part) => {
                            if let Some(p) = expected.as_mut() {
                                p.push(part);
                            }
                        }
                        std::path::Component::CurDir => {}
                        _ => expected = None,
                    }
                }
                let expected = expected.map(|p| p.to_string_lossy().to_string());
                assert_eq!(sanitized(&path), expected, "{path}");
            }
        }
    }
}

#[test]
fn sanitizing_twice_is_sanitizing_once() {
    let once = sanitized("./a//b/").unwrap();
    assert_eq!(sanitized(&once), Some(once));
}

#[test]
fn parents_lack_the_last_name() {
    let path = sanitize_path("a/b/c").unwrap();
    assert!(!path.is_empty());
    assert_eq!(path.parent().text(), "a/b");
    assert_eq!(path.parent().parent().parent().text(), "");
    assert!(path.parent().parent().parent().is_empty());
    assert!(sanitize_path("").unwrap().parent().is_empty());
}

#[test]
fn joining_agrees_with_std() {
    for base in ["", "/", "/srv", "/srv/", "a", "a/b"] {
        for tail in ["", "x", "x/y", "/x", "."] {
            let expected = std::path::Path::new(base).join(tail);
            assert_eq!(join_path(base, tail), expected.to_string_lossy(), "{base} {tail}");
        }
    }
}

#[test]
fn what_is_reached_lies_below_the_shared_directory() {
    let relative = sanitize_path("a/./b").unwrap();
    assert_eq!(join_path("/srv/share", &relative.text()), "/srv/share/a/b");
    assert_eq!(join_path("/", &relative.text()), "/a/b");
}

fn windows(path: &str) -> Option<String> {
    sanitize_windows_path(path).map(|relative| relative.text_on(Platform::Windows))
}

#[test]
fn windows_paths_that_lead_down_are_let_through() {
    let cases = [
        ("", ""),
        (".", ""),
        ("a", "a"),
        ("a/b\\c", "a\\b\\c"),
        ("a\\\\b/", "a\\b"),
        (".\\a\\.\\b", "a\\b"),
        ("...", "..."),
        ("a..\\..b", "a..\\..b"),
        ("ab:c", "ab:c"),
        ("1:", "1:"),
        (":a", ":a"),
        ("é:", "é:"),
        ("点\\x", "点\\x"),
    ];
    for (path, expected) in cases {
        assert_eq!(windows(path), Some(expected.to_string()), "{path}");
    }
}

#[test]
fn windows_paths_that_climb_are_refused() {
    for path in ["..", "..\\a", "a\\..", "a\\..\\b", "a/..\\b", "a\\../b", ".\\.."] {
        assert_eq!(windows(path), None, "{path}");
    }
}

#[test]
fn windows_paths_from_a_root_are_refused() {
    for path in ["\\", "/", "\\a", "\\\\server\\share\\a", "//server/share", "\\\\?\\C:\\a", "\\\\.\\COM1"] {
        assert_eq!(windows(path), None, "{path}");
    }
}

#[test]
fn windows_paths_to_a_drive_are_refused() {
    for path in ["C:", "c:", "Z:\\a", "C:a", "C:/a", "a\\C:", "a/D:x", ".\\C:\\a"] {
        assert_eq!(windows(path), None, "{path}");
    }
}

#[test]
fn windows_paths_are_read_back_as_they_are_shown() {
    let once = windows("./a\\b//c").unwrap();
    assert_eq!(once, "a\\b\\c");
    assert_eq!(windows(&once), Some(once));
}

#[test]
fn each_platform_has_its_own_rules() {
    let path = "a\\..\\C:";
    assert_eq!(sanitize_path_on(Platform::Unix, path).unwrap().text(), path);
    assert!(sanitize_path_on(Platform::Windows, path).is_none());
    let relative = sanitize_path_on(Platform::Windows, "a/b").unwrap();
    assert_eq!(relative.text(), "a/b");
    assert_eq!(relative.text_on(Platform::Unix), "a/b");
    assert_eq!(relative.text_on(Platform::Windows), "a\\b");
}

#[test]
fn paths_without_backslashes_or_drives_mean_the_same_everywhere() {
    for path in ["", "a", "a/b/", "./a", "..", "a/../b", "/a", "a//b"] {
        let here = sanitize_path(path).map(|relative| relative.text());
        let there = sanitize_windows_path(path).map(|relative| relative.text());
        assert_eq!(here, there, "{path}");
    }
}
