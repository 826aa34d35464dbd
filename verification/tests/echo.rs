use lrust::coreutils::echo::{output, parse_flags, unescape};

fn args(list: &[&str]) -> Vec<String> {
    list.iter().map(|s| s.to_string()).collect()
}

#[test]
fn echo_plain_words() {
    assert_eq!(output(&args(&["hello", "world"])), "hello world\n");
    assert_eq!(output(&args(&[])), "\n");
}

#[test]
fn echo_no_newline() {
    assert_eq!(output(&args(&["-n", "a"])), "a");
}

#[test]
fn echo_escapes() {
    assert_eq!(output(&args(&["-e", "a\\tb\\n"])), "a\tb\n\n");
    assert_eq!(output(&args(&["-eE", "a\\tb"])), "a\\tb\n");
    assert_eq!(output(&args(&["-ne", "x\\\\y"])), "x\\y");
}

#[test]
fn echo_non_flag_stops_options() {
    assert_eq!(output(&args(&["-x", "-n"])), "-x -n\n");
    assert_eq!(output(&args(&["a", "-n"])), "a -n\n");
    assert_eq!(output(&args(&["-", "b"])), "- b\n");
}

#[test]
fn echo_parse_flags_index() {
    assert_eq!(parse_flags(&args(&["-n", "-e", "x"])), (false, true, 2));
    assert_eq!(parse_flags(&args(&["-nq", "x"])), (true, false, 0));
}

#[test]
fn echo_unescape_cases() {
    assert_eq!(unescape("a\\nb"), "a\nb");
    assert_eq!(unescape("\\r\\t"), "\r\t");
    assert_eq!(unescape("\\q"), "\\q");
    assert_eq!(unescape("end\\"), "end\\");
    assert_eq!(unescape("\\\\n"), "\\n");
    assert_eq!(unescape("plain"), "plain");
}
