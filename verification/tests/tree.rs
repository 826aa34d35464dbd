use lrust::gnuutils::tree::{heading, listing, parse_args, sorted_order, within_depth, Command, Entry, Options};

fn args(list: &[&str]) -> Vec<String> {
    list.iter().map(|s| s.to_string()).collect()
}

fn entry(name: &str, is_dir: bool) -> Entry {
    Entry { name: name.as_bytes().to_vec(), is_dir }
}

fn run_of(c: Command) -> (Options, Vec<String>) {
    match c {
        Command::Run(o, d) => (o, d),
        _ => panic!("not a run"),
    }
}

#[test]
fn tree_defaults() {
    let (o, d) = run_of(parse_args(&args(&[])));
    assert_eq!(o, Options { all: false, dirs_only: false, max_depth: None });
    assert_eq!(d, args(&["."]));
}

#[test]
fn tree_options_and_dirs() {
    let (o, d) = run_of(parse_args(&args(&["-a", "src", "-d", "-L", "2", "-x", "docs"])));
    assert_eq!(o, Options { all: true, dirs_only: true, max_depth: Some(2) });
    assert_eq!(d, args(&["src", "docs"]));
    let (o, _) = run_of(parse_args(&args(&["-L3", "-L", "+7"])));
    assert_eq!(o.max_depth, Some(7));
}

#[test]
fn tree_double_dash() {
    let (_, d) = run_of(parse_args(&args(&["a", "--", "-a", "-L"])));
    assert_eq!(d, args(&["a", "-a", "-L"]));
}

#[test]
fn tree_errors_and_help() {
    assert!(matches!(parse_args(&args(&["-L"])), Command::MissingLevel));
    match parse_args(&args(&["-L", "two"])) {
        Command::InvalidLevel(v) => assert_eq!(v, "two"),
        _ => panic!(),
    }
    match parse_args(&args(&["-L-1"])) {
        Command::InvalidLevel(v) => assert_eq!(v, "-1"),
        _ => panic!(),
    }
    assert!(matches!(parse_args(&args(&["x", "--help", "-L"])), Command::Help));
    assert!(matches!(parse_args(&args(&["-h"])), Command::Help));
}

#[test]
fn tree_sort_order() {
    let es = vec![entry("b", false), entry(".hidden", false), entry("a", true), entry("B", false), entry("a", false)];
    assert_eq!(sorted_order(&es), vec![3, 2, 4, 0, 1]);
}

#[test]
fn tree_listing_lines() {
    let es = vec![entry("src", true), entry(".git", true), entry("README", false)];
    let o = Options { all: false, dirs_only: false, max_depth: None };
    let lines = listing(&es, "│   ", &o);
    assert_eq!(lines.len(), 2);
    assert_eq!(lines[0].entry, 2);
    assert_eq!(lines[0].lead, "│   ├── ");
    assert_eq!(lines[0].child_prefix, None);
    assert_eq!(lines[1].entry, 0);
    assert_eq!(lines[1].lead, "│   └── ");
    assert_eq!(lines[1].child_prefix, Some("│       ".to_string()));
    let all = Options { all: true, dirs_only: true, max_depth: None };
    let lines = listing(&es, "", &all);
    assert_eq!(lines.iter().map(|l| l.entry).collect::<Vec<_>>(), vec![0, 1]);
    assert_eq!(lines[0].child_prefix, Some("│   ".to_string()));
    assert_eq!(lines[1].child_prefix, Some("    ".to_string()));
}

#[test]
fn tree_depth_and_heading() {
    let o = Options { all: false, dirs_only: false, max_depth: Some(1) };
    assert!(within_depth(&o, 0));
    assert!(!within_depth(&o, 1));
    assert!(!within_depth(&o, 2));
    let two = Options { all: false, dirs_only: false, max_depth: Some(2) };
    assert!(within_depth(&two, 1));
    assert!(!within_depth(&two, 2));
    let free = Options { all: false, dirs_only: false, max_depth: None };
    assert!(within_depth(&free, 1000));
    assert_eq!(heading(0, 1), (false, false));
    assert_eq!(heading(1, 2), (true, true));
}
