use lrust::coreutils::pwd::{parse_args, to_unix_path, unix_path_of_text};
use std::path::Path;

fn args(list: &[&str]) -> Vec<String> {
    list.iter().map(|s| s.to_string()).collect()
}

#[test]
fn pwd_options() {
    assert_eq!(parse_args(&args(&[])), Ok(false));
    assert_eq!(parse_args(&args(&["-P"])), Ok(true));
    assert_eq!(parse_args(&args(&["--physical", "-L"])), Ok(false));
    assert_eq!(parse_args(&args(&["--logical", "--physical"])), Ok(true));
    assert_eq!(parse_args(&args(&["-L", "-x", "-P"])), Err("-x".to_string()));
}

#[test]
fn pwd_windows_drive() {
    assert_eq!(to_unix_path(Path::new("C:\\Users\\me")), "/c/Users/me");
    assert_eq!(unix_path_of_text("D:"), "/d");
    assert_eq!(unix_path_of_text("z:/a"), "/z/a");
}

#[test]
fn pwd_unix_path_unchanged() {
    assert_eq!(to_unix_path(Path::new("/home/user")), "/home/user");
    assert_eq!(unix_path_of_text("a\\b"), "a/b");
    assert_eq!(unix_path_of_text("\u{e9}:x"), "\u{e9}:x");
    assert_eq!(unix_path_of_text("::x"), "/:x");
}

#[test]
fn pwd_unix_path_twice() {
    for text in ["C:\\a\\b", "relative\\x", "/usr/bin", "e:", "a"] {
        let once = unix_path_of_text(text);
        assert!(!once.contains('\\'));
        assert_eq!(unix_path_of_text(&once), once);
    }
}

#[test]
fn pwd_colon_start_twice() {
    let once = unix_path_of_text(":x");
    assert_eq!(once, ":x");
    assert_eq!(unix_path_of_text(&once), once);
}
