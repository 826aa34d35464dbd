use lrust::gnuutils::watch::{
    command_output, parse_args, shell_join, split_at_newlines, strip_ansi, Outcome, Screen, Switches,
};

fn args(list: &[&str]) -> Vec<String> {
    list.iter().map(|s| s.to_string()).collect()
}

fn no_switches() -> Switches {
    Switches { no_title: false, differences: false, color: false, beep: false, errexit: false, chgexit: false }
}

#[test]
fn watch_parse_command_and_switches() {
    let p = parse_args(&args(&["-d", "-n", "5", "--no-title", "ls", "-l"]));
    assert_eq!(p.intervals, args(&["5"]));
    match p.outcome {
        Outcome::Run(c) => {
            assert!(c.switches.differences && c.switches.no_title);
            assert!(!c.switches.color && !c.switches.beep && !c.switches.errexit && !c.switches.chgexit);
            assert_eq!(c.command, args(&["ls", "-l"]));
        },
        _ => panic!(),
    }
}

#[test]
fn watch_parse_intervals_in_order() {
    let p = parse_args(&args(&["--interval=0.5", "-n", "x", "--interval", "3", "-c", "-b", "-e", "-g", "date"]));
    assert_eq!(p.intervals, args(&["0.5", "x", "3"]));
    match p.outcome {
        Outcome::Run(c) => {
            assert!(c.switches.color && c.switches.beep && c.switches.errexit && c.switches.chgexit);
            assert_eq!(c.command, args(&["date"]));
        },
        _ => panic!(),
    }
}

#[test]
fn watch_parse_endings() {
    assert!(matches!(parse_args(&args(&[])).outcome, Outcome::NoCommand));
    assert!(matches!(parse_args(&args(&["-d"])).outcome, Outcome::NoCommand));
    assert!(matches!(parse_args(&args(&["--"])).outcome, Outcome::NoCommand));
    assert!(matches!(parse_args(&args(&["ls", "-h", "-n"])).outcome, Outcome::Help));
    match parse_args(&args(&["ls", "--interval"])).outcome {
        Outcome::MissingArgument(a) => assert_eq!(a, "--interval"),
        _ => panic!(),
    }
    match parse_args(&args(&["-t", "--", "-n", "1"])).outcome {
        Outcome::Run(c) => assert_eq!(c.command, args(&["-n", "1"])),
        _ => panic!(),
    }
}

#[test]
fn watch_shell_join_quoting() {
    assert_eq!(shell_join(&args(&["ls", "-l"])), "ls -l");
    assert_eq!(shell_join(&args(&["echo", "a b"])), "echo 'a b'");
    assert_eq!(shell_join(&args(&["it's here"])), "'it'\\''s here'");
    assert_eq!(shell_join(&args(&["it's"])), "it's");
    assert_eq!(shell_join(&args(&["tab\there", "nbsp\u{a0}x"])), "'tab\there' 'nbsp\u{a0}x'");
    assert_eq!(shell_join(&args(&[])), "");
}

#[test]
fn watch_strip_ansi() {
    assert_eq!(strip_ansi(b"\x1b[31mred\x1b[0m", true), b"red".to_vec());
    assert_eq!(strip_ansi(b"\x1b[31mred\x1b[0m", false), b"\x1b[31mred\x1b[0m".to_vec());
    assert_eq!(strip_ansi(b"a\x1bb", true), b"a\x1bb".to_vec());
    assert_eq!(strip_ansi(b"x\x1b[12;3", true), b"x".to_vec());
    assert_eq!(strip_ansi(b"\x1b\x1b[Ay", true), b"\x1by".to_vec());
}

#[test]
fn watch_split_lines() {
    assert_eq!(split_at_newlines(b"a\nb\n"), vec![b"a".to_vec(), b"b".to_vec(), vec![]]);
    assert_eq!(split_at_newlines(b""), vec![Vec::<u8>::new()]);
    assert_eq!(split_at_newlines(b"one"), vec![b"one".to_vec()]);
}

#[test]
fn watch_command_output() {
    let (out, code) = command_output(b"\x1b[1mhi\n".to_vec(), b"err\n", false, Some(3));
    assert_eq!(out, b"hi\nerr\n".to_vec());
    assert_eq!(code, 3);
    let (out, code) = command_output(b"\x1b[1mhi".to_vec(), b"", true, None);
    assert_eq!(out, b"\x1b[1mhi".to_vec());
    assert_eq!(code, 1);
}

#[test]
fn watch_first_frame() {
    let mut s = Screen::new();
    let f = s.step(&no_switches(), b"a\nb", 0);
    assert_eq!(f.lead, b"\x1b[2J\x1b[H".to_vec());
    assert!(f.title);
    assert_eq!(f.body, b"a\nb\n".to_vec());
    assert!(!f.report_status && !f.beep);
    assert_eq!(f.exit, None);
    assert_eq!(s.prev_height, 2);
    assert!(!s.first);
}

#[test]
fn watch_first_frame_highlighted() {
    let mut s = Screen::new();
    let mut sw = no_switches();
    sw.differences = true;
    sw.no_title = true;
    let f = s.step(&sw, b"x", 0);
    assert!(!f.title);
    assert_eq!(f.body, b"\x1b[33mx\x1b[0m\n".to_vec());
}

#[test]
fn watch_changed_frame() {
    let mut s = Screen::new();
    let sw = no_switches();
    s.step(&sw, b"a\nb\nc", 0);
    let f = s.step(&sw, b"a\nB", 0);
    assert_eq!(f.lead, b"\x1b[H".to_vec());
    assert!(f.title);
    assert_eq!(f.body, b"\x1b[4;1H\x1b[KB\x1b[5;1H\x1b[K\x1b[5;1H".to_vec());
    assert!(s.changed);
}

#[test]
fn watch_unchanged_frame_and_exits() {
    let mut s = Screen::new();
    let mut sw = no_switches();
    sw.chgexit = true;
    sw.errexit = true;
    sw.beep = true;
    let f = s.step(&sw, b"same", 0);
    assert_eq!(f.exit, None);
    let f = s.step(&sw, b"same", 0);
    assert!(f.lead.is_empty() && f.body.is_empty() && !f.title);
    assert_eq!(f.exit, None);
    let f = s.step(&sw, b"same", 7);
    assert!(f.report_status && f.beep);
    assert_eq!(f.exit, Some(7));
    let f = s.step(&sw, b"other", 0);
    assert_eq!(f.exit, Some(0));
}

#[test]
fn watch_strip_and_split_laws() {
    let plain = b"no escapes here\nsecond".to_vec();
    assert_eq!(strip_ansi(&plain, true), plain);
    let lines = split_at_newlines(&plain);
    assert_eq!(lines.join(&b'\n'), plain);
    let noisy = b"\x1b[1;32mok\x1b[0m\n".to_vec();
    assert!(strip_ansi(&noisy, true).len() <= noisy.len());
}

#[test]
fn watch_strip_after_plain_text() {
    let a = b"plain [text] ".to_vec();
    let b = b"\x1b[2Kcolored\x1b[0m".to_vec();
    let joined: Vec<u8> = [a.clone(), b.clone()].concat();
    assert_eq!(strip_ansi(&joined, true), [a, strip_ansi(&b, true)].concat());
}
