use relay::cli::{check_root, parse_arguments, usage, UsageError};

fn args(given: &[&str]) -> Vec<String> {
    given.iter().map(|a| a.to_string()).collect()
}

fn error(given: &[&str]) -> UsageError {
    match parse_arguments(&args(given)) {
        Ok(_) => panic!("accepted"),
        Err(e) => e,
    }
}

#[test]
fn a_port_alone() {
    let asked = parse_arguments(&args(&["8000"])).ok().unwrap();
    assert_eq!(asked.port, 8000);
    assert_eq!(asked.root, None);
}

#[test]
fn a_port_and_a_directory() {
    let asked = parse_arguments(&args(&["+65535", "/srv/share"])).ok().unwrap();
    assert_eq!(asked.port, 65535);
    assert_eq!(asked.root, Some("/srv/share".to_string()));
    assert_eq!(parse_arguments(&args(&["0", ""])).ok().unwrap().root, Some(String::new()));
}

#[test]
fn wrong_arguments() {
    assert_eq!(error(&[]), UsageError::MissingPort);
    assert_eq!(error(&["80", "a", "b"]), UsageError::TooManyArguments);
    assert_eq!(error(&["x", "a", "b"]), UsageError::TooManyArguments);
    for port in ["", "x", "65536", "-1", "80 ", "8_0", "0x50"] {
        assert_eq!(error(&[port]), UsageError::InvalidPort, "{port}");
        assert_eq!(error(&[port, "/srv"]), UsageError::InvalidPort, "{port}");
    }
}

#[test]
fn the_directory_must_be_one() {
    assert_eq!(check_root(Some(true), true), Ok(()));
    assert_eq!(check_root(Some(true), false), Err(UsageError::RootNotCanonical));
    assert_eq!(check_root(Some(false), true), Err(UsageError::RootNotDirectory));
    assert_eq!(check_root(None, true), Err(UsageError::RootNotAccessible));
}

#[test]
fn errors_in_words() {
    let all = [
        (UsageError::MissingPort, "missing port argument"),
        (UsageError::TooManyArguments, "too many arguments"),
        (UsageError::InvalidPort, "invalid port"),
        (UsageError::RootNotAccessible, "root path does not exist or is not accessible"),
        (UsageError::RootNotDirectory, "root path is not a directory"),
        (UsageError::RootNotCanonical, "failed to canonicalize root path"),
    ];
    for (error, words) in all {
        assert_eq!(error.message(), words);
        let refusal = usage(&error);
        assert_eq!(
            refusal.lines,
            vec![format!("Error: {words}"), "Usage: relay <port> [root_path]".to_string()]
        );
        assert_eq!(refusal.error, "invalid arguments");
    }
}

#[test]
fn every_port_is_read() {
    for port in 0..=65535u16 {
        assert_eq!(parse_arguments(&args(&[&port.to_string()])).ok().unwrap().port, port);
    }
}
