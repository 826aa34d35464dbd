use lrust::gnu_cmd::watch::{diff_lines, Watcher};
use lrust::gnuutils::watch::Switches;

fn switches(differences: bool, errexit: bool) -> Switches {
    Switches { no_title: false, differences, color: false, beep: true, errexit, chgexit: true }
}

#[test]
fn gnu_watch_diff_lines() {
    assert_eq!(diff_lines(b"a\nb", b"a\nc"), b"a\n\x1b[33mb\x1b[0m\n".to_vec());
    assert_eq!(diff_lines(b"a\nb", b"a"), b"a\n\x1b[33mb\x1b[0m\n".to_vec());
    assert_eq!(diff_lines(b"a\n", b"a\n"), b"a\n\n".to_vec());
}

#[test]
fn gnu_watch_steps() {
    let mut w = Watcher::new();
    let f = w.step(&switches(true, false), b"x\ny".to_vec(), 0);
    assert_eq!(f.body, b"x\ny".to_vec());
    assert_eq!(f.exit, None);
    let f = w.step(&switches(true, false), b"x\nz".to_vec(), 2);
    assert_eq!(f.body, b"x\n\x1b[33mz\x1b[0m\n".to_vec());
    assert!(f.report_status && f.beep);
    assert_eq!(f.exit, Some(0));
    let f = w.step(&switches(false, true), b"q".to_vec(), 5);
    assert_eq!(f.body, b"q".to_vec());
    assert_eq!(f.exit, Some(5));
}

#[test]
fn gnu_watch_chgexit_stops_on_change() {
    let mut sw = switches(false, false);
    sw.beep = false;
    let mut w = Watcher::new();
    assert_eq!(w.step(&sw, b"12:00".to_vec(), 0).exit, None);
    assert_eq!(w.step(&sw, b"12:00".to_vec(), 0).exit, None);
    assert_eq!(w.step(&sw, b"12:01".to_vec(), 0).exit, Some(0));
    sw.chgexit = false;
    let mut w = Watcher::new();
    w.step(&sw, b"a".to_vec(), 0);
    assert_eq!(w.step(&sw, b"b".to_vec(), 0).exit, None);
}
