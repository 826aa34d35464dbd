use lrust::coreutils::cat::{parse_args, render_line, takes_number, Options, State};

fn args(list: &[&str]) -> Vec<String> {
    list.iter().map(|s| s.to_string()).collect()
}

fn opts_with(f: impl Fn(&mut Options)) -> Options {
    let mut o = Options::new();
    f(&mut o);
    o
}

#[test]
fn cat_no_arguments_reads_stdin() {
    let c = parse_args(&args(&[])).unwrap();
    assert_eq!(c.options, Options::new());
    assert_eq!(c.files, vec!["-".to_string()]);
}

#[test]
fn cat_flags_and_files() {
    let c = parse_args(&args(&["-n", "a.txt", "-sE", "b.txt"])).unwrap();
    assert!(c.options.number_all);
    assert!(c.options.squeeze_blank);
    assert!(c.options.show_ends);
    assert!(!c.options.show_tabs);
    assert_eq!(c.files, args(&["a.txt", "b.txt"]));
}

#[test]
fn cat_combined_flags() {
    let a = parse_args(&args(&["-A"])).unwrap().options;
    assert!(a.show_nonprinting && a.show_ends && a.show_tabs);
    let e = parse_args(&args(&["-e"])).unwrap().options;
    assert!(e.show_nonprinting && e.show_ends && !e.show_tabs);
    let t = parse_args(&args(&["-t"])).unwrap().options;
    assert!(t.show_nonprinting && t.show_tabs && !t.show_ends);
    let u = parse_args(&args(&["-u"])).unwrap().options;
    assert_eq!(u, Options::new());
    let b = parse_args(&args(&["-b"])).unwrap().options;
    assert!(b.number_nonblank);
}

#[test]
fn cat_double_dash_ends_options() {
    let c = parse_args(&args(&["-n", "--", "-v", "x"])).unwrap();
    assert!(c.options.number_all);
    assert!(!c.options.show_nonprinting);
    assert_eq!(c.files, args(&["-v", "x"]));
}

#[test]
fn cat_dash_is_a_file() {
    let c = parse_args(&args(&["-", "f"])).unwrap();
    assert_eq!(c.files, args(&["-", "f"]));
}

#[test]
fn cat_invalid_option() {
    assert_eq!(parse_args(&args(&["-nx", "f"])).err(), Some('x'));
    assert_eq!(parse_args(&args(&["f", "-q"])).err(), Some('q'));
}

#[test]
fn cat_plain_line_is_copied() {
    let o = Options::new();
    let mut st = State::new();
    assert_eq!(render_line(&o, &mut st, "hello\tworld").unwrap(), "hello\tworld\n");
    assert_eq!(st.line_number, 1);
}

#[test]
fn cat_numbering() {
    let o = opts_with(|o| o.number_all = true);
    let mut st = State::new();
    assert_eq!(render_line(&o, &mut st, "a").unwrap(), "     1\ta\n");
    assert_eq!(render_line(&o, &mut st, "").unwrap(), "     2\t\n");
    assert_eq!(st.line_number, 3);
    let mut big = State { line_number: 1234567, prev_blank: false };
    assert_eq!(render_line(&o, &mut big, "x").unwrap(), "1234567\tx\n");
}

#[test]
fn cat_number_nonblank_skips_blank() {
    let o = opts_with(|o| {
        o.number_nonblank = true;
        o.number_all = true;
    });
    let mut st = State::new();
    assert_eq!(render_line(&o, &mut st, "a").unwrap(), "     1\ta\n");
    assert_eq!(render_line(&o, &mut st, "").unwrap(), "\n");
    assert_eq!(render_line(&o, &mut st, "b").unwrap(), "     2\tb\n");
}

#[test]
fn cat_squeeze_blank() {
    let o = opts_with(|o| o.squeeze_blank = true);
    let mut st = State::new();
    assert_eq!(render_line(&o, &mut st, "").unwrap(), "\n");
    assert_eq!(render_line(&o, &mut st, ""), None);
    assert_eq!(render_line(&o, &mut st, ""), None);
    assert_eq!(render_line(&o, &mut st, "x").unwrap(), "x\n");
    assert_eq!(render_line(&o, &mut st, "").unwrap(), "\n");
}

#[test]
fn cat_show_ends_and_tabs() {
    let o = opts_with(|o| {
        o.show_ends = true;
        o.show_tabs = true;
    });
    let mut st = State::new();
    assert_eq!(render_line(&o, &mut st, "a\tb").unwrap(), "a^Ib$\n");
}

#[test]
fn cat_show_nonprinting() {
    let o = opts_with(|o| o.show_nonprinting = true);
    let mut st = State::new();
    assert_eq!(render_line(&o, &mut st, "\u{1}\u{7f}\t\r").unwrap(), "^A^?\t\r\n");
    assert_eq!(render_line(&o, &mut st, "\u{80}\u{9f}").unwrap(), "^\u{c0}^\u{df}\n");
    assert_eq!(render_line(&o, &mut st, "\u{e9}\u{a0}").unwrap(), "M-iM- \n");
    assert_eq!(render_line(&o, &mut st, "\u{e000}").unwrap(), "M-?\n");
    assert_eq!(render_line(&o, &mut st, "\u{4e2d}").unwrap(), "M-\u{4dad}\n");
}

#[test]
fn cat_takes_number() {
    let o = opts_with(|o| o.number_nonblank = true);
    let st = State::new();
    assert!(takes_number(&o, &st, "a"));
    assert!(!takes_number(&o, &st, ""));
}

#[test]
fn cat_show_all_equals_v_e_t() {
    assert_eq!(parse_args(&args(&["-A"])).unwrap().options, parse_args(&args(&["-vET"])).unwrap().options);
}

#[test]
fn cat_split_input_changes_nothing() {
    let o = opts_with(|o| {
        o.number_all = true;
        o.squeeze_blank = true;
    });
    let lines = ["a", "", "", "b", "", "c"];
    let mut whole = State::new();
    let one: Vec<Option<String>> = lines.iter().map(|l| render_line(&o, &mut whole, l)).collect();
    let mut parts = State::new();
    let mut two: Vec<Option<String>> = lines[..2].iter().map(|l| render_line(&o, &mut parts, l)).collect();
    two.extend(lines[2..].iter().map(|l| render_line(&o, &mut parts, l)));
    assert_eq!(one, two);
    assert_eq!(whole, parts);
    assert_eq!(one[2], None);
    assert!(whole.prev_blank == false && whole.line_number == 6);
}
