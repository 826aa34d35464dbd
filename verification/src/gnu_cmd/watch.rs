//! The plain `watch`: every run clears the screen and shows the whole output,
//! with the lines that differ from the previous run in yellow when asked.
//!
//! The command line is read as by [`crate::gnuutils::watch::parse_args`];
//! the caller clears the screen, prints the title, runs the command and hands
//! its cleaned output and status to [`Watcher::step`].

use crate::bytes::bytes_equal;
use crate::gnuutils::watch::{full_text, line_views, painted, same_lines, split_at_newlines, split_lines, Switches};
use vstd::prelude::*;

verus! {

/// Whether the `i`-th current line differs from the previous output's `i`-th
/// line (a line past the end of the previous output always differs).
pub open spec fn line_changed(cur: Seq<Seq<u8>>, prev: Seq<Seq<u8>>, i: int) -> bool {
    i >= prev.len() || prev[i] != cur[i]
}

/// The current lines, each followed by a newline, the changed ones in yellow.
pub open spec fn diff_text(cur: Seq<Seq<u8>>, prev: Seq<Seq<u8>>) -> Seq<u8>
    decreases cur.len(),
{
    if cur.len() == 0 {
        seq![]
    } else {
        let i = cur.len() - 1;
        diff_text(cur.drop_last(), prev) + painted(cur[i], line_changed(cur, prev, i)) + seq![0x0Au8]
    }
}

/// The output of the previous run, if any.
pub struct Watcher {
    pub prev_output: Option<Vec<u8>>,
}

/// What to do after a run: write `body` below the title; report a failing exit
/// status (and beep) on the error output; stop with `exit` when it is set.
pub struct Frame {
    pub body: Vec<u8>,
    pub report_status: bool,
    pub beep: bool,
    pub exit: Option<i32>,
}

/// What is written after a run: with highlighting and a previous run, the
/// lines marked against the previous lines; otherwise the output as it is.
pub open spec fn shown_output(highlight: bool, prev: Option<Seq<u8>>, cleaned: Seq<u8>) -> Seq<u8> {
    match prev {
        Some(p) if highlight => diff_text(split_lines(cleaned), split_lines(p)),
        _ => cleaned,
    }
}

/// Whether a run's output has other lines than the previous run's (never on
/// the first run).
pub open spec fn output_changed(prev: Option<Seq<u8>>, cleaned: Seq<u8>) -> bool {
    match prev {
        Some(p) => split_lines(cleaned) != split_lines(p),
        None => false,
    }
}

/// When `watch` stops after a run: with `-e` on a failing run, with that
/// run's status; else with `-g` when the output changed, with 0.
pub open spec fn exit_after(sw: Switches, prev: Option<Seq<u8>>, cleaned: Seq<u8>, status: i32) -> Option<i32> {
    if status != 0 && sw.errexit {
        Some(status)
    } else if sw.chgexit && output_changed(prev, cleaned) {
        Some(0i32)
    } else {
        None
    }
}

/// The contents of the remembered output.
pub open spec fn prev_view(w: Watcher) -> Option<Seq<u8>> {
    match w.prev_output {
        Some(p) => Some(p@),
        None => None,
    }
}

/// The lines of `current`, each followed by a newline, those that differ from
/// the lines of `prev` in yellow.
pub fn diff_lines(current: &[u8], prev: &[u8]) -> (r: Vec<u8>)
    ensures
        r@ == diff_text(split_lines(current@), split_lines(prev@)),
{
    let cur = split_at_newlines(current);
    let old = split_at_newlines(prev);
    let ghost cv = line_views(cur@);
    let ghost pv = line_views(old@);
    let mut out: Vec<u8> = Vec::new();
    let mut i: usize = 0;
    while i < cur.len()
        invariant
            i <= cur@.len(),
            cv == line_views(cur@),
            pv == line_views(old@),
            out@ == diff_text(cv.take(i as int), pv),
        decreases cur@.len() - i,
    {
        let changed = if i < old.len() {
            !bytes_equal(old[i].as_slice(), cur[i].as_slice())
        } else {
            true
        };
        let ghost t = cv.take(i + 1);
        assert(t.drop_last() == cv.take(i as int));
        assert(t[i as int] == cv[i as int]);
        assert(changed == line_changed(t, pv, i as int));
        push_painted_line(&mut out, cur[i].as_slice(), changed);
        out.push(0x0A);
        i += 1;
    }
    assert(cv.take(cur@.len() as int) == cv);
    out
}

/// Appends a line as drawn.
fn push_painted_line(out: &mut Vec<u8>, line: &[u8], highlight: bool)
    ensures
        final(out)@ == old(out)@ + painted(line@, highlight),
{
    let ghost start = out@;
    if highlight {
        out.push(0x1B);
        out.push(0x5B);
        out.push(0x33);
        out.push(0x33);
        out.push(0x6D);
    }
    let ghost mid = out@;
    let mut k: usize = 0;
    while k < line.len()
        invariant
            k <= line@.len(),
            out@ == mid + line@.take(k as int),
        decreases line@.len() - k,
    {
        out.push(line[k]);
        k += 1;
        assert(line@.take(k as int) == line@.take((k - 1) as int).push(line@[k - 1]));
    }
    assert(line@.take(line@.len() as int) == line@);
    if highlight {
        out.push(0x1B);
        out.push(0x5B);
        out.push(0x30);
        out.push(0x6D);
    }
    assert(out@ =~= start + painted(line@, highlight));
}

impl Watcher {
    /// Before the first run.
    pub fn new() -> (w: Self)
        ensures
            w.prev_output is None,
    {
        Watcher { prev_output: None }
    }

    /// Takes the cleaned output and exit status of one run: returns what to
    /// write and report and whether to stop (`-e` on a failing run, `-g` when
    /// the lines differ from the previous run's), and remembers the output.
    pub fn step(&mut self, sw: &Switches, cleaned: Vec<u8>, status: i32) -> (f: Frame)
        ensures
            f.body@ == shown_output(sw.differences, prev_view(*old(self)), cleaned@),
            f.report_status == (status != 0),
            f.beep == (status != 0 && sw.beep),
            f.exit == exit_after(*sw, prev_view(*old(self)), cleaned@, status),
            prev_view(*final(self)) == Some(cleaned@),
    {
        let body = match &self.prev_output {
            Some(p) if sw.differences => diff_lines(cleaned.as_slice(), p.as_slice()),
            _ => {
                let mut copy: Vec<u8> = Vec::new();
                let mut k: usize = 0;
                while k < cleaned.len()
                    invariant
                        k <= cleaned@.len(),
                        copy@ == cleaned@.take(k as int),
                    decreases cleaned@.len() - k,
                {
                    copy.push(cleaned[k]);
                    k += 1;
                    assert(cleaned@.take(k as int) == cleaned@.take((k - 1) as int).push(cleaned@[k - 1]));
                }
                assert(cleaned@.take(cleaned@.len() as int) == cleaned@);
                copy
            },
        };
        let changed = match &self.prev_output {
            Some(p) => {
                let cur_lines = split_at_newlines(cleaned.as_slice());
                let prev_lines = split_at_newlines(p.as_slice());
                !same_lines(&cur_lines, &prev_lines)
            },
            None => false,
        };
        self.prev_output = Some(cleaned);
        let exit = if status != 0 && sw.errexit {
            Some(status)
        } else if sw.chgexit && changed {
            Some(0)
        } else {
            None
        };
        Frame { body, report_status: status != 0, beep: status != 0 && sw.beep, exit }
    }
}

/// Against an identical previous output no line is highlighted.
pub proof fn lemma_no_change_no_highlight(cur: Seq<Seq<u8>>, prev: Seq<Seq<u8>>)
    requires
        prev.len() >= cur.len(),
        forall|i: int| 0 <= i < cur.len() ==> prev[i] == cur[i],
    ensures
        diff_text(cur, prev) == full_text(cur, false),
    decreases cur.len(),
{
    if cur.len() > 0 {
        lemma_no_change_no_highlight(cur.drop_last(), prev);
        assert(cur[cur.len() - 1] == cur.last());
    }
}

/// A run whose output is the same as the previous run's shows its lines
/// without any highlighting.
pub proof fn lemma_same_output_plain(prev: Seq<u8>)
    ensures
        shown_output(true, Some(prev), prev) == full_text(split_lines(prev), false),
{
    lemma_no_change_no_highlight(split_lines(prev), split_lines(prev));
}

/// Lines past the end of the previous output are always highlighted: against
/// no previous lines every line is drawn in yellow.
pub proof fn lemma_new_lines_highlighted(cur: Seq<Seq<u8>>)
    ensures
        diff_text(cur, seq![]) == full_text(cur, true),
    decreases cur.len(),
{
    if cur.len() > 0 {
        lemma_new_lines_highlighted(cur.drop_last());
        assert(cur[cur.len() - 1] == cur.last());
    }
}

} // verus!
