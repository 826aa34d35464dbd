//! `watch`: option parsing, the command line shown in the title, the cleaning
//! of the command's output, and what is redrawn on the screen after each run.
//!
//! Running the command, reading the clock, sleeping and writing to the
//! terminal are left to the caller, which hands each run's output and exit
//! status to [`Screen::step`] and performs the [`Frame`] it gets back.

use crate::bytes::bytes_equal;
use crate::decimal::{decimal, decimal_text};
use crate::text::{chars_of, same_chars, string_of, views};
use vstd::prelude::*;

verus! {

/// The switches of `watch`.
#[derive(Clone, Copy, Debug, PartialEq, Eq)]
pub struct Switches {
    /// `-t`: no title.
    pub no_title: bool,
    /// `-d`: highlight the lines that changed.
    pub differences: bool,
    /// `-c`: keep ANSI color sequences.
    pub color: bool,
    /// `-b`: beep when the command fails.
    pub beep: bool,
    /// `-e`: stop when the command fails.
    pub errexit: bool,
    /// `-g`: stop when the output changes.
    pub chgexit: bool,
}

/// All switches off.
pub open spec fn no_switches() -> Switches {
    Switches { no_title: false, differences: false, color: false, beep: false, errexit: false, chgexit: false }
}

/// The switches and the command to run.
pub struct Config {
    pub switches: Switches,
    pub command: Vec<String>,
}

/// What a command line of `watch` asks for, apart from the interval.
pub enum Outcome {
    /// `-h` or `--help`: print the usage.
    Help,
    /// The option (`-n` or `--interval`) was the last argument.
    MissingArgument(String),
    /// No command was given.
    NoCommand,
    /// Run the command with these switches.
    Run(Config),
}

/// The meaning of an [`Outcome`], with strings taken as their text.
pub enum OutcomeView {
    Help,
    MissingArgument(Seq<char>),
    NoCommand,
    Run(Switches, Seq<Seq<char>>),
}

/// A command line of `watch`: the texts given as intervals, in order, before
/// the parsing ended, and how it ended. Each interval text must be read as a
/// positive number by the caller; the first one that is not is an error that
/// comes before the outcome.
pub struct Parsed {
    pub intervals: Vec<String>,
    pub outcome: Outcome,
}

impl View for Parsed {
    type V = (Seq<Seq<char>>, OutcomeView);

    open spec fn view(&self) -> (Seq<Seq<char>>, OutcomeView) {
        (
            views(self.intervals@),
            match &self.outcome {
                Outcome::Help => OutcomeView::Help,
                Outcome::MissingArgument(s) => OutcomeView::MissingArgument(s@),
                Outcome::NoCommand => OutcomeView::NoCommand,
                Outcome::Run(c) => OutcomeView::Run(c.switches, views(c.command@)),
            },
        )
    }
}

/// Whether `a` is one of the two spellings `short` and `long`.
pub open spec fn is_option(a: Seq<char>, short: &str, long: &str) -> bool {
    a == short@ || a == long@
}

/// Whether `a` starts with `p`.
pub open spec fn has_prefix(a: Seq<char>, p: Seq<char>) -> bool {
    a.len() >= p.len() && a.take(p.len() as int) == p
}

/// How the parsing ends once the arguments are used up or `--` is met.
pub open spec fn end_with(sw: Switches, cmd: Seq<Seq<char>>) -> OutcomeView {
    if cmd.len() == 0 {
        OutcomeView::NoCommand
    } else {
        OutcomeView::Run(sw, cmd)
    }
}

/// Reading the command line from the `i`-th argument on, with the switches,
/// interval texts and command words gathered so far.
pub open spec fn parse_from(
    args: Seq<Seq<char>>,
    i: int,
    sw: Switches,
    intervals: Seq<Seq<char>>,
    cmd: Seq<Seq<char>>,
) -> (Seq<Seq<char>>, OutcomeView)
    decreases args.len() - i,
{
    if i < 0 || i >= args.len() {
        (intervals, end_with(sw, cmd))
    } else {
        let a = args[i];
        if is_option(a, "-n", "--interval") {
            if i + 1 >= args.len() {
                (intervals, OutcomeView::MissingArgument(a))
            } else {
                parse_from(args, i + 2, sw, intervals.push(args[i + 1]), cmd)
            }
        } else if is_option(a, "-d", "--differences") {
            parse_from(args, i + 1, Switches { differences: true, ..sw }, intervals, cmd)
        } else if is_option(a, "-c", "--color") {
            parse_from(args, i + 1, Switches { color: true, ..sw }, intervals, cmd)
        } else if is_option(a, "-t", "--no-title") {
            parse_from(args, i + 1, Switches { no_title: true, ..sw }, intervals, cmd)
        } else if is_option(a, "-b", "--beep") {
            parse_from(args, i + 1, Switches { beep: true, ..sw }, intervals, cmd)
        } else if is_option(a, "-e", "--errexit") {
            parse_from(args, i + 1, Switches { errexit: true, ..sw }, intervals, cmd)
        } else if is_option(a, "-g", "--chgexit") {
            parse_from(args, i + 1, Switches { chgexit: true, ..sw }, intervals, cmd)
        } else if is_option(a, "-h", "--help") {
            (intervals, OutcomeView::Help)
        } else if a == "--"@ {
            (intervals, end_with(sw, cmd + args.subrange(i + 1, args.len() as int)))
        } else if has_prefix(a, "--interval="@) {
            parse_from(args, i + 1, sw, intervals.push(a.skip("--interval="@.len() as int)), cmd)
        } else {
            parse_from(args, i + 1, sw, intervals, cmd.push(a))
        }
    }
}

/// What a command line of `watch` means.
pub open spec fn parsed_command(args: Seq<Seq<char>>) -> (Seq<Seq<char>>, OutcomeView) {
    parse_from(args, 0, no_switches(), seq![], seq![])
}

/// Whether `a` is the literal `lit`.
fn is_lit(a: &Vec<char>, lit: &str) -> (r: bool)
    ensures
        r == (a@ == lit@),
{
    same_chars(a, &chars_of(lit))
}

/// Reads the command line of `watch`.
pub fn parse_args(args: &[String]) -> (r: Parsed)
    ensures
        r@ == parsed_command(views(args@)),
{
    let ghost all = views(args@);
    let mut sw = Switches { no_title: false, differences: false, color: false, beep: false, errexit: false, chgexit: false };
    let mut intervals: Vec<String> = Vec::new();
    let mut cmd: Vec<String> = Vec::new();
    let mut i: usize = 0;
    assert(views(intervals@) =~= seq![]);
    assert(views(cmd@) =~= seq![]);
    let prefix = chars_of("--interval=");
    while i < args.len()
        invariant
            i <= args@.len(),
            all == views(args@),
            prefix@ == "--interval="@,
            parsed_command(all) == parse_from(all, i as int, sw, views(intervals@), views(cmd@)),
        decreases args@.len() - i,
    {
        let a = chars_of(args[i].as_str());
        assert(all[i as int] == a@);
        if is_lit(&a, "-n") || is_lit(&a, "--interval") {
            if i + 1 >= args.len() {
                return Parsed { intervals, outcome: Outcome::MissingArgument(args[i].clone()) };
            }
            let ghost before = views(intervals@);
            intervals.push(args[i + 1].clone());
            assert(views(intervals@) =~= before.push(all[i + 1]));
            i += 2;
        } else if is_lit(&a, "-d") || is_lit(&a, "--differences") {
            sw.differences = true;
            i += 1;
        } else if is_lit(&a, "-c") || is_lit(&a, "--color") {
            sw.color = true;
            i += 1;
        } else if is_lit(&a, "-t") || is_lit(&a, "--no-title") {
            sw.no_title = true;
            i += 1;
        } else if is_lit(&a, "-b") || is_lit(&a, "--beep") {
            sw.beep = true;
            i += 1;
        } else if is_lit(&a, "-e") || is_lit(&a, "--errexit") {
            sw.errexit = true;
            i += 1;
        } else if is_lit(&a, "-g") || is_lit(&a, "--chgexit") {
            sw.chgexit = true;
            i += 1;
        } else if is_lit(&a, "-h") || is_lit(&a, "--help") {
            return Parsed { intervals, outcome: Outcome::Help };
        } else if is_lit(&a, "--") {
            let ghost before = views(cmd@);
            let mut j = i + 1;
            while j < args.len()
                invariant
                    i < j <= args@.len(),
                    all == views(args@),
                    views(cmd@) == before + all.subrange(i + 1, j as int),
                decreases args@.len() - j,
            {
                let ghost prev = views(cmd@);
                cmd.push(args[j].clone());
                assert(views(cmd@) =~= prev.push(all[j as int]));
                assert(all.subrange(i + 1, j + 1) =~= all.subrange(i + 1, j as int).push(all[j as int]));
                j += 1;
            }
            return finish(sw, intervals, cmd);
        } else if starts_with(&a, &prefix) {
            let mut rest: Vec<char> = Vec::new();
            let mut k: usize = prefix.len();
            while k < a.len()
                invariant
                    prefix@.len() <= k <= a@.len(),
                    rest@ == a@.subrange(prefix@.len() as int, k as int),
                decreases a@.len() - k,
            {
                rest.push(a[k]);
                k += 1;
                assert(rest@ =~= a@.subrange(prefix@.len() as int, k as int));
            }
            assert(rest@ == a@.skip(prefix@.len() as int));
            let ghost before = views(intervals@);
            intervals.push(string_of(&rest));
            assert(views(intervals@) =~= before.push(a@.skip("--interval="@.len() as int)));
            i += 1;
        } else {
            let ghost before = views(cmd@);
            cmd.push(args[i].clone());
            assert(views(cmd@) =~= before.push(all[i as int]));
            i += 1;
        }
    }
    finish(sw, intervals, cmd)
}

/// The result once the command words are all gathered.
fn finish(sw: Switches, intervals: Vec<String>, cmd: Vec<String>) -> (r: Parsed)
    ensures
        r@ == (views(intervals@), end_with(sw, views(cmd@))),
{
    if cmd.len() == 0 {
        Parsed { intervals, outcome: Outcome::NoCommand }
    } else {
        Parsed { intervals, outcome: Outcome::Run(Config { switches: sw, command: cmd }) }
    }
}

/// Whether `a` starts with `p`.
fn starts_with(a: &Vec<char>, p: &Vec<char>) -> (r: bool)
    ensures
        r == has_prefix(a@, p@),
{
    if a.len() < p.len() {
        return false;
    }
    let mut i: usize = 0;
    while i < p.len()
        invariant
            p@.len() <= a@.len(),
            i <= p@.len(),
            forall|k: int| 0 <= k < i ==> a@[k] == p@[k],
        decreases p@.len() - i,
    {
        if a[i] != p[i] {
            assert(a@.take(p@.len() as int)[i as int] != p@[i as int]);
            return false;
        }
        i += 1;
    }
    assert(a@.take(p@.len() as int) =~= p@);
    true
}

/// Whether `c` is white space (the Unicode `White_Space` property, which
/// `char::is_whitespace` tests).
pub open spec fn is_space(c: char) -> bool {
    let x = c as u32;
    (0x09 <= x && x <= 0x0D) || x == 0x20 || x == 0x85 || x == 0xA0 || x == 0x1680
        || (0x2000 <= x && x <= 0x200A) || x == 0x2028 || x == 0x2029 || x == 0x202F
        || x == 0x205F || x == 0x3000
}

/// `a` with every single quote `'` replaced by `'\''`.
pub open spec fn escape_quotes(a: Seq<char>) -> Seq<char>
    decreases a.len(),
{
    if a.len() == 0 {
        seq![]
    } else {
        escape_quotes(a.drop_last()) + if a.last() == '\'' {
            seq!['\'', '\\', '\'', '\'']
        } else {
            seq![a.last()]
        }
    }
}

/// How one word is written in the command line: in single quotes, with its
/// quotes escaped, when it holds white space; as it is otherwise.
pub open spec fn quoted(a: Seq<char>) -> Seq<char> {
    if exists|k: int| 0 <= k < a.len() && is_space(#[trigger] a[k]) {
        seq!['\''] + escape_quotes(a) + seq!['\'']
    } else {
        a
    }
}

/// The words, each quoted, separated by single spaces.
pub open spec fn shell_joined(args: Seq<Seq<char>>) -> Seq<char>
    decreases args.len(),
{
    if args.len() == 0 {
        seq![]
    } else if args.len() == 1 {
        quoted(args[0])
    } else {
        shell_joined(args.drop_last()) + seq![' '] + quoted(args.last())
    }
}

/// Whether `c` is white space.
fn char_is_space(c: char) -> (r: bool)
    ensures
        r == is_space(c),
{
    let x = c as u32;
    (0x09 <= x && x <= 0x0D) || x == 0x20 || x == 0x85 || x == 0xA0 || x == 0x1680
        || (0x2000 <= x && x <= 0x200A) || x == 0x2028 || x == 0x2029 || x == 0x202F
        || x == 0x205F || x == 0x3000
}

/// Appends how the word `a` is written in the command line to `out`.
fn push_quoted(a: &Vec<char>, out: &mut Vec<char>)
    ensures
        final(out)@ == old(out)@ + quoted(a@),
{
    let mut has_space = false;
    let mut k: usize = 0;
    while k < a.len()
        invariant
            k <= a@.len(),
            has_space <==> exists|m: int| 0 <= m < k && is_space(#[trigger] a@[m]),
        decreases a@.len() - k,
    {
        if char_is_space(a[k]) {
            has_space = true;
        }
        k += 1;
    }
    let ghost start = out@;
    if has_space {
        out.push('\'');
        let mut i: usize = 0;
        while i < a.len()
            invariant
                i <= a@.len(),
                out@ == start + seq!['\''] + escape_quotes(a@.take(i as int)),
            decreases a@.len() - i,
        {
            if a[i] == '\'' {
                out.push('\'');
                out.push('\\');
                out.push('\'');
                out.push('\'');
            } else {
                out.push(a[i]);
            }
            i += 1;
            assert(a@.take(i as int).drop_last() == a@.take((i - 1) as int));
            assert(out@ =~= start + seq!['\''] + escape_quotes(a@.take(i as int)));
        }
        assert(a@.take(a@.len() as int) == a@);
        out.push('\'');
    } else {
        let mut i: usize = 0;
        while i < a.len()
            invariant
                i <= a@.len(),
                out@ == start + a@.take(i as int),
            decreases a@.len() - i,
        {
            out.push(a[i]);
            i += 1;
            assert(a@.take(i as int) == a@.take((i - 1) as int).push(a@[i - 1]));
        }
        assert(a@.take(a@.len() as int) == a@);
    }
}

/// The command line shown in the title: the words separated by single
/// spaces, each word that holds white space put in single quotes, with its
/// own quotes written `'\''`.
pub fn shell_join(args: &[String]) -> (r: String)
    ensures
        r@ == shell_joined(views(args@)),
{
    let ghost all = views(args@);
    let mut out: Vec<char> = Vec::new();
    let mut i: usize = 0;
    assert(all.take(0) =~= seq![]);
    while i < args.len()
        invariant
            i <= args@.len(),
            all == views(args@),
            out@ == shell_joined(all.take(i as int)),
        decreases args@.len() - i,
    {
        if i > 0 {
            out.push(' ');
        }
        let word = chars_of(args[i].as_str());
        push_quoted(&word, &mut out);
        i += 1;
        assert(all.take(i as int).drop_last() == all.take((i - 1) as int));
        assert(all.take(i as int).last() == word@);
    }
    assert(all.take(args@.len() as int) == all);
    string_of(&out)
}

/// The byte `ESC`.
pub open spec fn esc() -> u8 {
    0x1Bu8
}

/// The bytes from position `i` on, without the ANSI control sequences
/// (`ESC [`, parameter bytes, one final byte in `0x40..=0x7E`).
pub open spec fn stripped_from(b: Seq<u8>, i: int) -> Seq<u8>
    decreases b.len() - i, 1int,
{
    if i < 0 || i >= b.len() {
        seq![]
    } else if b[i] == esc() && i + 1 < b.len() && b[i + 1] == 0x5Bu8 {
        skipped_from(b, i + 2)
    } else {
        seq![b[i]] + stripped_from(b, i + 1)
    }
}

/// The bytes after a control sequence whose remaining bytes start at `j`:
/// everything up to and including the final byte is dropped.
pub open spec fn skipped_from(b: Seq<u8>, j: int) -> Seq<u8>
    decreases b.len() - j, 0int,
{
    if j < 0 || j >= b.len() {
        seq![]
    } else if 0x40 <= b[j] && b[j] <= 0x7E {
        stripped_from(b, j + 1)
    } else {
        skipped_from(b, j + 1)
    }
}

/// The bytes without the ANSI control sequences when `strip` holds, else as they are.
pub open spec fn stripped(b: Seq<u8>, strip: bool) -> Seq<u8> {
    if strip {
        stripped_from(b, 0)
    } else {
        b
    }
}

/// Removes the ANSI control sequences (`ESC [` ... final byte) from `bytes`
/// when `strip` holds; copies the bytes as they are otherwise.
pub fn strip_ansi(bytes: &[u8], strip: bool) -> (r: Vec<u8>)
    ensures
        r@ == stripped(bytes@, strip),
{
    let mut out: Vec<u8> = Vec::new();
    if !strip {
        let mut k: usize = 0;
        while k < bytes.len()
            invariant
                k <= bytes@.len(),
                out@ == bytes@.take(k as int),
            decreases bytes@.len() - k,
        {
            out.push(bytes[k]);
            k += 1;
            assert(bytes@.take(k as int) == bytes@.take((k - 1) as int).push(bytes@[k - 1]));
        }
        assert(bytes@.take(bytes@.len() as int) == bytes@);
        return out;
    }
    let ghost b = bytes@;
    let mut i: usize = 0;
    while i < bytes.len()
        invariant
            b == bytes@,
            i <= b.len(),
            out@ + stripped_from(b, i as int) == stripped_from(b, 0),
        decreases b.len() - i,
    {
        if bytes[i] == 0x1B && i + 1 < bytes.len() && bytes[i + 1] == 0x5B {
            let mut j = i + 2;
            while j < bytes.len() && !(0x40 <= bytes[j] && bytes[j] <= 0x7E)
                invariant
                    b == bytes@,
                    i + 2 <= j <= b.len(),
                    out@ + skipped_from(b, j as int) == stripped_from(b, 0),
                decreases b.len() - j,
            {
                j += 1;
            }
            if j < bytes.len() {
                i = j + 1;
            } else {
                i = j;
            }
        } else {
            out.push(bytes[i]);
            i += 1;
            assert(out@ + stripped_from(b, i as int) =~= stripped_from(b, 0));
        }
    }
    assert(stripped_from(b, i as int) == Seq::<u8>::empty());
    assert(out@ =~= stripped_from(b, 0));
    out
}

/// The lines of `b`: the pieces between newline bytes (one more piece than
/// there are newlines, so output that ends with a newline ends with an empty line).
pub open spec fn split_lines(b: Seq<u8>) -> Seq<Seq<u8>>
    decreases b.len(),
{
    if b.len() == 0 {
        seq![seq![]]
    } else {
        let s = split_lines(b.drop_last());
        if b.last() == 0x0Au8 {
            s.push(seq![])
        } else {
            s.update(s.len() - 1, s.last().push(b.last()))
        }
    }
}

/// There is always at least one line, and at most one more than there are bytes.
pub proof fn lemma_split_lines_len(b: Seq<u8>)
    ensures
        1 <= split_lines(b).len() <= b.len() + 1,
    decreases b.len(),
{
    if b.len() > 0 {
        lemma_split_lines_len(b.drop_last());
    }
}

/// The contents of a list of byte vectors.
pub open spec fn line_views(v: Seq<Vec<u8>>) -> Seq<Seq<u8>> {
    v.map_values(|l: Vec<u8>| l@)
}

/// Splits `bytes` at each newline byte.
pub fn split_at_newlines(bytes: &[u8]) -> (r: Vec<Vec<u8>>)
    ensures
        line_views(r@) == split_lines(bytes@),
{
    let ghost b = bytes@;
    let mut lines: Vec<Vec<u8>> = Vec::new();
    let mut cur: Vec<u8> = Vec::new();
    let mut i: usize = 0;
    assert(b.take(0) =~= seq![]);
    assert(line_views(lines@).push(cur@) =~= seq![seq![]]);
    while i < bytes.len()
        invariant
            b == bytes@,
            i <= b.len(),
            split_lines(b.take(i as int)) == line_views(lines@).push(cur@),
        decreases b.len() - i,
    {
        let c = bytes[i];
        assert(b.take(i + 1).drop_last() == b.take(i as int));
        assert(b.take(i + 1).last() == c);
        let ghost before = line_views(lines@);
        if c == 0x0A {
            let done = cur;
            lines.push(done);
            cur = Vec::new();
            assert(line_views(lines@) =~= before.push(done@));
            assert(line_views(lines@).push(cur@) =~= before.push(done@).push(seq![]));
        } else {
            let ghost old_cur = cur@;
            cur.push(c);
            assert(before.push(old_cur).update(before.len() as int, old_cur.push(c)) =~= before.push(cur@));
        }
        i += 1;
    }
    assert(b.take(b.len() as int) == b);
    let ghost before = line_views(lines@);
    lines.push(cur);
    assert(line_views(lines@) =~= before.push(cur@));
    lines
}

/// What one run of the command leaves: its standard output followed by its
/// standard error, with ANSI sequences removed unless colors are kept, and its
/// exit code (1 when it has none, as when it was killed by a signal).
pub fn command_output(stdout: Vec<u8>, stderr: &[u8], color: bool, code: Option<i32>) -> (r: (Vec<u8>, i32))
    ensures
        r.0@ == stripped(stdout@ + stderr@, !color),
        r.1 == match code {
            Some(c) => c,
            None => 1i32,
        },
{
    let mut combined = stdout;
    let ghost first = combined@;
    let mut k: usize = 0;
    while k < stderr.len()
        invariant
            k <= stderr@.len(),
            combined@ == first + stderr@.take(k as int),
        decreases stderr@.len() - k,
    {
        combined.push(stderr[k]);
        k += 1;
        assert(stderr@.take(k as int) == stderr@.take((k - 1) as int).push(stderr@[k - 1]));
    }
    assert(stderr@.take(stderr@.len() as int) == stderr@);
    let cleaned = strip_ansi(combined.as_slice(), !color);
    let status = match code {
        Some(c) => c,
        None => 1,
    };
    (cleaned, status)
}

/// `ESC [ 33 m`: yellow text.
pub open spec fn yellow() -> Seq<u8> {
    seq![0x1Bu8, 0x5Bu8, 0x33u8, 0x33u8, 0x6Du8]
}

/// `ESC [ 0 m`: normal text.
pub open spec fn plain() -> Seq<u8> {
    seq![0x1Bu8, 0x5Bu8, 0x30u8, 0x6Du8]
}

/// `ESC [ K`: erase to the end of the line.
pub open spec fn erase_line() -> Seq<u8> {
    seq![0x1Bu8, 0x5Bu8, 0x4Bu8]
}

/// `ESC [ 2 J ESC [ H`: clear the screen and move to its top left corner.
pub open spec fn clear_screen() -> Seq<u8> {
    seq![0x1Bu8, 0x5Bu8, 0x32u8, 0x4Au8, 0x1Bu8, 0x5Bu8, 0x48u8]
}

/// `ESC [ H`: move to the top left corner.
pub open spec fn home() -> Seq<u8> {
    seq![0x1Bu8, 0x5Bu8, 0x48u8]
}

/// The decimal text of `n` as ASCII bytes.
pub open spec fn decimal_bytes(n: nat) -> Seq<u8> {
    decimal(n).map_values(|c: char| c as u8)
}

/// `ESC [ row ; 1 H`: move to the start of the screen row `row` (counted from 1).
pub open spec fn goto_row(row: nat) -> Seq<u8> {
    seq![0x1Bu8, 0x5Bu8] + decimal_bytes(row) + seq![0x3Bu8, 0x31u8, 0x48u8]
}

/// A line as drawn: in yellow when changes are highlighted.
pub open spec fn painted(line: Seq<u8>, highlight: bool) -> Seq<u8> {
    if highlight {
        yellow() + line + plain()
    } else {
        line
    }
}

/// All lines, each drawn and followed by a newline: the first screen.
pub open spec fn full_text(lines: Seq<Seq<u8>>, highlight: bool) -> Seq<u8>
    decreases lines.len(),
{
    if lines.len() == 0 {
        seq![]
    } else {
        full_text(lines.drop_last(), highlight) + painted(lines.last(), highlight) + seq![0x0Au8]
    }
}

/// The `i`-th line of the previous screen, or an empty line past its end.
pub open spec fn old_line(prev: Seq<Seq<u8>>, i: int) -> Seq<u8> {
    if 0 <= i < prev.len() {
        prev[i]
    } else {
        seq![]
    }
}

/// The redrawing of the first `k` lines: each line that differs from the one
/// shown before is erased and drawn again; the rows are offset by `off`.
pub open spec fn line_updates(cur: Seq<Seq<u8>>, prev: Seq<Seq<u8>>, k: int, off: nat, highlight: bool) -> Seq<u8>
    decreases k,
{
    if k <= 0 {
        seq![]
    } else {
        line_updates(cur, prev, k - 1, off, highlight) + if cur[k - 1] == old_line(prev, k - 1) {
            seq![]
        } else {
            goto_row((k + off) as nat) + erase_line() + painted(cur[k - 1], highlight)
        }
    }
}

/// The erasing of the lines `from..to`, left over from a longer previous screen.
pub open spec fn row_clears(from: int, to: int, off: nat) -> Seq<u8>
    decreases to - from,
{
    if to <= from {
        seq![]
    } else {
        row_clears(from, to - 1, off) + goto_row((to + off) as nat) + erase_line()
    }
}

/// What is drawn when the output changed: the changed lines, the erasing of
/// rows that are no longer used, and the cursor put below the last line.
pub open spec fn redraw(cur: Seq<Seq<u8>>, prev: Seq<Seq<u8>>, prev_height: nat, off: nat, highlight: bool) -> Seq<u8> {
    line_updates(cur, prev, cur.len() as int, off, highlight) + row_clears(cur.len() as int, prev_height as int, off)
        + goto_row(cur.len() + off + 1)
}

/// What `watch` remembers from one run to the next.
pub struct Screen {
    /// The lines shown after the last run.
    pub prev_lines: Option<Vec<Vec<u8>>>,
    /// The number of lines shown after the last run.
    pub prev_height: usize,
    /// Whether no run has been shown yet.
    pub first: bool,
    /// Whether the last run changed the output.
    pub changed: bool,
}

/// The meaning of a [`Screen`].
pub struct ScreenView {
    pub prev: Option<Seq<Seq<u8>>>,
    pub prev_height: nat,
    pub first: bool,
    pub changed: bool,
}

impl View for Screen {
    type V = ScreenView;

    open spec fn view(&self) -> ScreenView {
        ScreenView {
            prev: match &self.prev_lines {
                Some(p) => Some(line_views(p@)),
                None => None,
            },
            prev_height: self.prev_height as nat,
            first: self.first,
            changed: self.changed,
        }
    }
}

/// What to do after a run: write `lead` to the terminal, then the title when
/// `title` holds, then `body`; report a failing exit status (and beep) on the
/// error output; stop with the given code when `exit` is set.
pub struct Frame {
    pub lead: Vec<u8>,
    pub title: bool,
    pub body: Vec<u8>,
    pub report_status: bool,
    pub beep: bool,
    pub exit: Option<i32>,
}

/// The meaning of a [`Frame`].
pub struct FrameView {
    pub lead: Seq<u8>,
    pub title: bool,
    pub body: Seq<u8>,
    pub report_status: bool,
    pub beep: bool,
    pub exit: Option<i32>,
}

impl View for Frame {
    type V = FrameView;

    open spec fn view(&self) -> FrameView {
        FrameView {
            lead: self.lead@,
            title: self.title,
            body: self.body@,
            report_status: self.report_status,
            beep: self.beep,
            exit: self.exit,
        }
    }
}

/// The rows taken by the title: two, unless it is switched off.
pub open spec fn title_rows(sw: Switches) -> nat {
    if sw.no_title {
        0
    } else {
        2
    }
}

/// The screen after a run whose cleaned output is `cleaned`, and what is
/// shown for it: the whole output on the first run; afterwards, when the
/// output's lines differ from the previous ones, the changed rows; nothing
/// when they are the same.
pub open spec fn stepped(s: ScreenView, sw: Switches, cleaned: Seq<u8>, status: i32) -> (ScreenView, FrameView) {
    let cur = split_lines(cleaned);
    let prev = match s.prev {
        Some(p) => p,
        None => seq![],
    };
    let changed = if s.first { s.changed } else { cur != prev };
    let lead = if s.first { clear_screen() } else if changed { home() } else { seq![] };
    let title = (s.first || changed) && !sw.no_title;
    let body = if s.first {
        full_text(cur, sw.differences)
    } else if changed {
        redraw(cur, prev, s.prev_height, title_rows(sw), sw.differences)
    } else {
        seq![]
    };
    let exit = if status != 0 && sw.errexit {
        Some(status)
    } else if sw.chgexit && changed {
        Some(0i32)
    } else {
        None
    };
    (
        ScreenView { prev: Some(cur), prev_height: cur.len(), first: false, changed },
        FrameView { lead, title, body, report_status: status != 0, beep: status != 0 && sw.beep, exit },
    )
}

/// Appends `b` to `out`.
fn push_all(out: &mut Vec<u8>, b: &[u8])
    ensures
        final(out)@ == old(out)@ + b@,
{
    let ghost start = out@;
    let mut k: usize = 0;
    while k < b.len()
        invariant
            k <= b@.len(),
            out@ == start + b@.take(k as int),
        decreases b@.len() - k,
    {
        out.push(b[k]);
        k += 1;
        assert(b@.take(k as int) == b@.take((k - 1) as int).push(b@[k - 1]));
    }
    assert(b@.take(b@.len() as int) == b@);
}

/// Appends the sequence that moves to the start of screen row `row`.
fn push_goto(out: &mut Vec<u8>, row: usize)
    ensures
        final(out)@ == old(out)@ + goto_row(row as nat),
{
    let ghost start = out@;
    out.push(0x1B);
    out.push(0x5B);
    let digits = decimal_text(row as u64);
    let mut k: usize = 0;
    while k < digits.len()
        invariant
            k <= digits@.len(),
            digits@ == decimal(row as nat),
            out@ == start + seq![0x1Bu8, 0x5Bu8] + digits@.take(k as int).map_values(|c: char| c as u8),
        decreases digits@.len() - k,
    {
        out.push(digits[k] as u8);
        k += 1;
        assert(digits@.take(k as int).map_values(|c: char| c as u8) =~= digits@.take((k - 1) as int).map_values(
            |c: char| c as u8,
        ).push(digits@[k - 1] as u8));
    }
    assert(digits@.take(digits@.len() as int) == digits@);
    out.push(0x3B);
    out.push(0x31);
    out.push(0x48);
    assert(out@ =~= start + goto_row(row as nat));
}

/// Appends a line as drawn.
fn push_painted(out: &mut Vec<u8>, line: &[u8], highlight: bool)
    ensures
        final(out)@ == old(out)@ + painted(line@, highlight),
{
    let ghost start = out@;
    if highlight {
        out.push(0x1B);
        out.push(0x5B);
        out.push(0x33);
        out.push(0x33);
        out.push(0x6D);
        push_all(out, line);
        out.push(0x1B);
        out.push(0x5B);
        out.push(0x30);
        out.push(0x6D);
        assert(out@ =~= start + painted(line@, highlight));
    } else {
        push_all(out, line);
    }
}

/// Whether two lists of lines hold the same lines.
pub fn same_lines(a: &Vec<Vec<u8>>, b: &Vec<Vec<u8>>) -> (r: bool)
    ensures
        r == (line_views(a@) == line_views(b@)),
{
    if a.len() != b.len() {
        assert(line_views(a@).len() != line_views(b@).len());
        return false;
    }
    let mut i: usize = 0;
    while i < a.len()
        invariant
            a@.len() == b@.len(),
            i <= a@.len(),
            forall|k: int| 0 <= k < i ==> a@[k]@ == b@[k]@,
        decreases a@.len() - i,
    {
        if !bytes_equal(a[i].as_slice(), b[i].as_slice()) {
            assert(line_views(a@)[i as int] != line_views(b@)[i as int]);
            return false;
        }
        i += 1;
    }
    assert(line_views(a@) =~= line_views(b@));
    true
}

impl Screen {
    /// The screen before the first run.
    pub fn new() -> (s: Self)
        ensures
            s@ == (ScreenView { prev: None, prev_height: 0, first: true, changed: false }),
    {
        Screen { prev_lines: None, prev_height: 0, first: true, changed: false }
    }

    /// Whether the screen's row counts stay clear of the largest `usize`.
    pub open spec fn wf(&self) -> bool {
        self.prev_height + 3 <= usize::MAX
    }

    /// Takes the cleaned output and exit status of one run of the command:
    /// returns what to draw and report, and remembers the lines shown.
    pub fn step(&mut self, sw: &Switches, cleaned: &[u8], status: i32) -> (f: Frame)
        requires
            old(self).wf(),
            cleaned@.len() + 4 <= usize::MAX,
        ensures
            final(self).wf(),
            (final(self)@, f@) == stepped(old(self)@, *sw, cleaned@, status),
    {
        let ghost s0 = self@;
        let cur = split_at_newlines(cleaned);
        proof {
            lemma_split_lines_len(cleaned@);
        }
        let cur_height = cur.len();
        let off: usize = if sw.no_title { 0 } else { 2 };
        let mut lead: Vec<u8> = Vec::new();
        let mut body: Vec<u8> = Vec::new();
        let mut title = false;
        if self.first {
            lead.push(0x1B);
            lead.push(0x5B);
            lead.push(0x32);
            lead.push(0x4A);
            lead.push(0x1B);
            lead.push(0x5B);
            lead.push(0x48);
            title = !sw.no_title;
            let mut i: usize = 0;
            while i < cur.len()
                invariant
                    i <= cur@.len(),
                    line_views(cur@) == split_lines(cleaned@),
                    body@ == full_text(line_views(cur@).take(i as int), sw.differences),
                decreases cur@.len() - i,
            {
                push_painted(&mut body, cur[i].as_slice(), sw.differences);
                body.push(0x0A);
                i += 1;
                assert(line_views(cur@).take(i as int).drop_last() == line_views(cur@).take((i - 1) as int));
            }
            assert(line_views(cur@).take(cur@.len() as int) == line_views(cur@));
        } else {
            let no_lines: Vec<Vec<u8>> = Vec::new();
            let prev: &Vec<Vec<u8>> = match &self.prev_lines {
                Some(p) => p,
                None => &no_lines,
            };
            assert(line_views(no_lines@) =~= seq![]);
            let changed = !same_lines(&cur, prev);
            self.changed = changed;
            if changed {
                lead.push(0x1B);
                lead.push(0x5B);
                lead.push(0x48);
                title = !sw.no_title;
                let ghost cv = line_views(cur@);
                let ghost pv = line_views(prev@);
                let mut i: usize = 0;
                while i < cur_height
                    invariant
                        i <= cur_height,
                        cur_height == cur@.len(),
                        cur_height + 3 <= usize::MAX,
                        off <= 2,
                        cv == line_views(cur@),
                        pv == line_views(prev@),
                        body@ == line_updates(cv, pv, i as int, off as nat, sw.differences),
                    decreases cur_height - i,
                {
                    let same = if i < prev.len() {
                        bytes_equal(cur[i].as_slice(), prev[i].as_slice())
                    } else {
                        cur[i].len() == 0
                    };
                    assert(same == (cv[i as int] == old_line(pv, i as int))) by {
                        if i >= prev@.len() && cur@[i as int]@.len() == 0 {
                            assert(cv[i as int] =~= seq![]);
                        }
                    }
                    if !same {
                        push_goto(&mut body, i + 1 + off);
                        body.push(0x1B);
                        body.push(0x5B);
                        body.push(0x4B);
                        push_painted(&mut body, cur[i].as_slice(), sw.differences);
                    }
                    i += 1;
                    assert(body@ =~= line_updates(cv, pv, i as int, off as nat, sw.differences));
                }
                let mut j: usize = cur_height;
                let ghost head = body@;
                while j < self.prev_height
                    invariant
                        cur_height <= j,
                        j <= self.prev_height || self.prev_height < cur_height,
                        self.prev_height < cur_height ==> j == cur_height,
                        self.prev_height + 3 <= usize::MAX,
                        off <= 2,
                        body@ == head + row_clears(cur_height as int, j as int, off as nat),
                    decreases self.prev_height - j,
                {
                    push_goto(&mut body, j + 1 + off);
                    body.push(0x1B);
                    body.push(0x5B);
                    body.push(0x4B);
                    j += 1;
                    assert(body@ =~= head + row_clears(cur_height as int, j as int, off as nat));
                }
                assert(row_clears(cur_height as int, j as int, off as nat) == row_clears(cur_height as int, self.prev_height as int, off as nat)) by {
                    if self.prev_height < cur_height {
                        assert(j == cur_height);
                    }
                }
                push_goto(&mut body, cur_height + off + 1);
            }
        }
        let changed = self.changed;
        self.prev_lines = Some(cur);
        self.prev_height = cur_height;
        self.first = false;
        let exit = if status != 0 && sw.errexit {
            Some(status)
        } else if sw.chgexit && changed {
            Some(0)
        } else {
            None
        };
        let f = Frame { lead, title, body, report_status: status != 0, beep: status != 0 && sw.beep, exit };
        let ghost expected = stepped(s0, *sw, cleaned@, status);
        assert(self@.prev == expected.0.prev);
        assert(self@.changed == expected.0.changed);
        assert(f@.lead == expected.1.lead);
        assert(f@.title == expected.1.title);
        assert(f@.body == expected.1.body);
        assert(f@.exit == expected.1.exit);
        f
    }
}

/// From position `i` on, bytes without `ESC` are kept as they are.
proof fn lemma_stripped_from_plain(b: Seq<u8>, i: int)
    requires
        0 <= i <= b.len(),
        forall|k: int| 0 <= k < b.len() ==> b[k] != esc(),
    ensures
        stripped_from(b, i) == b.skip(i),
    decreases b.len() - i,
{
    if i < b.len() {
        lemma_stripped_from_plain(b, i + 1);
        assert(seq![b[i]] + b.skip(i + 1) =~= b.skip(i));
    } else {
        assert(b.skip(i) =~= seq![]);
    }
}

/// Output without any `ESC` byte is left as it is when sequences are removed.
pub proof fn lemma_strip_without_escape(b: Seq<u8>)
    requires
        forall|k: int| 0 <= k < b.len() ==> b[k] != esc(),
    ensures
        stripped(b, true) == b,
{
    lemma_stripped_from_plain(b, 0);
    assert(b.skip(0) == b);
}

/// Removing sequences from position `i` on never gives more bytes than there are.
pub proof fn lemma_stripped_from_len(b: Seq<u8>, i: int)
    requires
        0 <= i,
    ensures
        stripped_from(b, i).len() <= if i <= b.len() { b.len() - i } else { 0 },
        skipped_from(b, i).len() <= if i <= b.len() { b.len() - i } else { 0 },
    decreases b.len() - i,
{
    if i < b.len() {
        lemma_stripped_from_len(b, i + 1);
        if i + 2 <= b.len() {
            lemma_stripped_from_len(b, i + 2);
        }
    }
}

/// Removing the ANSI sequences never makes the output longer.
pub proof fn lemma_strip_never_longer(b: Seq<u8>, strip: bool)
    ensures
        stripped(b, strip).len() <= b.len(),
{
    lemma_stripped_from_len(b, 0);
}

/// The lines joined again with newlines between them.
pub open spec fn joined_lines(lines: Seq<Seq<u8>>) -> Seq<u8>
    decreases lines.len(),
{
    if lines.len() == 0 {
        seq![]
    } else if lines.len() == 1 {
        lines[0]
    } else {
        joined_lines(lines.drop_last()) + seq![0x0Au8] + lines.last()
    }
}

/// Splitting output into lines loses nothing: joining the lines with
/// newlines gives the output back.
pub proof fn lemma_split_then_join(b: Seq<u8>)
    ensures
        joined_lines(split_lines(b)) == b,
    decreases b.len(),
{
    if b.len() > 0 {
        let rest = b.drop_last();
        lemma_split_then_join(rest);
        lemma_split_lines_len(rest);
        let s = split_lines(rest);
        if b.last() == 0x0Au8 {
            assert(s.push(seq![]).drop_last() == s);
            assert(rest.push(0x0Au8) =~= b);
            assert(joined_lines(s.push(seq![])) =~= joined_lines(s) + seq![0x0Au8]);
        } else {
            let u = s.update(s.len() - 1, s.last().push(b.last()));
            if s.len() == 1 {
                assert(joined_lines(u) == u[0]);
                assert(u[0] =~= b);
            } else {
                assert(u.drop_last() =~= s.drop_last());
                assert(joined_lines(u) =~= joined_lines(s) + seq![b.last()]);
                assert(rest.push(b.last()) =~= b);
            }
        }
    }
}

/// When a later run prints the same lines as the run before, nothing is drawn,
/// no title is printed, and `-g` does not stop `watch`.
pub proof fn lemma_same_output_draws_nothing(s: ScreenView, sw: Switches, cleaned: Seq<u8>, status: i32)
    requires
        !s.first,
        s.prev == Some(split_lines(cleaned)),
    ensures
        ({
            let (s2, f) = stepped(s, sw, cleaned, status);
            &&& f.lead.len() == 0
            &&& f.body.len() == 0
            &&& !f.title
            &&& !s2.changed
            &&& f.exit == if status != 0 && sw.errexit { Some(status) } else { None }
        }),
{
}

/// After every run `watch` remembers exactly the lines of that run's output.
pub proof fn lemma_step_remembers_lines(s: ScreenView, sw: Switches, cleaned: Seq<u8>, status: i32)
    ensures
        stepped(s, sw, cleaned, status).0.prev == Some(split_lines(cleaned)),
        stepped(s, sw, cleaned, status).0.prev_height == split_lines(cleaned).len(),
        !stepped(s, sw, cleaned, status).0.first,
{
}

/// With `-g`, after the first run `watch` stops (with status 0) exactly when
/// the output's lines changed, unless `-e` stops it first on a failing run;
/// with `-e`, a failing run stops it with that run's status.
pub proof fn lemma_exit_rules(s: ScreenView, sw: Switches, cleaned: Seq<u8>, status: i32)
    ensures
        sw.errexit && status != 0 ==> stepped(s, sw, cleaned, status).1.exit == Some(status),
        sw.chgexit && !s.first && !(sw.errexit && status != 0) ==> (stepped(s, sw, cleaned, status).1.exit
            == Some(0i32) <==> Some(split_lines(cleaned)) != s.prev),
        !sw.chgexit && !(sw.errexit && status != 0) ==> stepped(s, sw, cleaned, status).1.exit is None,
{
    let prev = match s.prev {
        Some(p) => p,
        None => seq![],
    };
    if !s.first && s.prev is None && split_lines(cleaned) == prev {
        lemma_split_lines_len(cleaned);
    }
}

/// Removing sequences from a position inside the second of two joined byte
/// strings gives what it gives on the second alone.
proof fn lemma_stripped_shift(a: Seq<u8>, b: Seq<u8>, j: int)
    requires
        0 <= j,
    ensures
        stripped_from(a + b, a.len() + j) == stripped_from(b, j),
        skipped_from(a + b, a.len() + j) == skipped_from(b, j),
    decreases b.len() - j,
{
    let c = a + b;
    let i = a.len() + j;
    if j < b.len() {
        assert(c[i] == b[j]);
        lemma_stripped_shift(a, b, j + 1);
        if j + 1 < b.len() {
            assert(c[i + 1] == b[j + 1]);
            lemma_stripped_shift(a, b, j + 2);
        }
    }
}

/// From position `i` of the first part on, a first part without `ESC` is
/// kept as it is and the second part is cleaned on its own.
proof fn lemma_stripped_plain_prefix(a: Seq<u8>, b: Seq<u8>, i: int)
    requires
        0 <= i <= a.len(),
        forall|k: int| 0 <= k < a.len() ==> a[k] != esc(),
    ensures
        stripped_from(a + b, i) == a.skip(i) + stripped_from(b, 0),
    decreases a.len() - i,
{
    if i == a.len() {
        lemma_stripped_shift(a, b, 0);
        assert(a.skip(i) =~= seq![]);
    } else {
        lemma_stripped_plain_prefix(a, b, i + 1);
        assert((a + b)[i] == a[i]);
        assert(seq![a[i]] + a.skip(i + 1) =~= a.skip(i));
    }
}

/// Output whose first part holds no `ESC` is cleaned as that part followed
/// by the cleaned second part.
pub proof fn lemma_strip_after_plain_text(a: Seq<u8>, b: Seq<u8>)
    requires
        forall|k: int| 0 <= k < a.len() ==> a[k] != esc(),
    ensures
        stripped(a + b, true) == a + stripped(b, true),
{
    lemma_stripped_plain_prefix(a, b, 0);
    assert(a.skip(0) == a);
}

/// A blank, which separates words on a shell's command line.
pub open spec fn is_blank(c: char) -> bool {
    c == ' ' || c == '\t'
}

/// A character with a meaning of its own to a POSIX shell outside quotes.
pub open spec fn is_shell_special(c: char) -> bool {
    c == '\\' || c == '\'' || c == '"' || c == '$' || c == '`' || c == ';' || c == '&' || c == '|'
        || c == '<' || c == '>' || c == '(' || c == ')' || c == '*' || c == '?' || c == '['
        || c == '#' || c == '~' || c == '{' || c == '}'
}

/// A word being read by the shell: the characters so far, whether a single
/// quote is open, and whether the last character was an unquoted backslash.
pub type ShellWord = (Seq<char>, bool, bool);

/// The shell reading one more character of a word (quote removal included).
pub open spec fn word_step(w: ShellWord, c: char) -> ShellWord {
    if w.2 {
        (w.0.push(c), w.1, false)
    } else if w.1 {
        if c == '\'' {
            (w.0, false, false)
        } else {
            (w.0.push(c), true, false)
        }
    } else if c == '\\' {
        (w.0, false, true)
    } else if c == '\'' {
        (w.0, true, false)
    } else {
        (w.0.push(c), false, false)
    }
}

/// The shell reading a command line: the words finished so far, and the word
/// being read, if any.
pub type ShellLine = (Seq<Seq<char>>, Option<ShellWord>);

/// The shell reading one more character of a command line: an unquoted,
/// unescaped blank ends the word being read; other blanks between words are
/// skipped; any other character goes into a word.
pub open spec fn line_step(st: ShellLine, c: char) -> ShellLine {
    match st.1 {
        None => if is_blank(c) {
            st
        } else {
            (st.0, Some(word_step((seq![], false, false), c)))
        },
        Some(w) => if is_blank(c) && !w.1 && !w.2 {
            (st.0.push(w.0), None)
        } else {
            (st.0, Some(word_step(w, c)))
        },
    }
}

/// The shell reading the characters `s` from the state `st`.
pub open spec fn line_run(s: Seq<char>, st: ShellLine) -> ShellLine
    decreases s.len(),
{
    if s.len() == 0 {
        st
    } else {
        line_run(s.drop_first(), line_step(st, s[0]))
    }
}

/// The words that a POSIX shell reads from a command line made of plain
/// characters, blanks, backslash escapes and single quotes (word splitting
/// and quote removal, as `sh -c` does before running it).
pub open spec fn shell_words(s: Seq<char>) -> Seq<Seq<char>> {
    let st = line_run(s, (seq![], None));
    match st.1 {
        Some(w) => st.0.push(w.0),
        None => st.0,
    }
}

/// Reading two pieces of text one after the other is reading them joined.
pub proof fn lemma_line_run_concat(x: Seq<char>, y: Seq<char>, st: ShellLine)
    ensures
        line_run(x + y, st) == line_run(y, line_run(x, st)),
    decreases x.len(),
{
    if x.len() == 0 {
        assert(x + y =~= y);
    } else {
        assert((x + y)[0] == x[0]);
        assert((x + y).drop_first() =~= x.drop_first() + y);
        lemma_line_run_concat(x.drop_first(), y, line_step(st, x[0]));
    }
}

/// Reading one character is one step.
proof fn lemma_line_run_one(c: char, st: ShellLine)
    ensures
        line_run(seq![c], st) == line_step(st, c),
{
    reveal_with_fuel(line_run, 2);
    assert(seq![c].drop_first() =~= Seq::<char>::empty());
}

/// Inside single quotes, the escaped text of `w` gives back `w`.
proof fn lemma_read_escaped(ws: Seq<Seq<char>>, u: Seq<char>, w: Seq<char>)
    ensures
        line_run(escape_quotes(w), (ws, Some((u, true, false)))) == (ws, Some((u + w, true, false))),
    decreases w.len(),
{
    if w.len() == 0 {
        assert(u + w =~= u);
    } else {
        let w1 = w.drop_last();
        let c = w.last();
        lemma_read_escaped(ws, u, w1);
        let piece = if c == '\'' { seq!['\'', '\\', '\'', '\''] } else { seq![c] };
        lemma_line_run_concat(escape_quotes(w1), piece, (ws, Some((u, true, false))));
        reveal_with_fuel(line_run, 5);
        assert((u + w1).push(c) =~= u + w);
        if c == '\'' {
            assert(piece.drop_first() =~= seq!['\\', '\'', '\'']);
            assert(piece.drop_first().drop_first() =~= seq!['\'', '\'']);
            assert(piece.drop_first().drop_first().drop_first() =~= seq!['\'']);
            assert(piece.drop_first().drop_first().drop_first().drop_first() =~= Seq::<char>::empty());
        } else {
            assert(piece.drop_first() =~= Seq::<char>::empty());
        }
    }
}

/// A word that needs no quoting is read as it is.
proof fn lemma_read_plain(ws: Seq<Seq<char>>, w: Seq<char>)
    requires
        w.len() > 0,
        forall|k: int| 0 <= k < w.len() ==> !is_space(#[trigger] w[k]) && !is_shell_special(w[k]),
    ensures
        line_run(w, (ws, None)) == (ws, Some((w, false, false))),
    decreases w.len(),
{
    let c = w.last();
    let w1 = w.drop_last();
    assert(!is_space(w[w.len() - 1]) && !is_shell_special(w[w.len() - 1]));
    lemma_line_run_one(c, (ws, None));
    if w1.len() == 0 {
        assert(w =~= seq![c]);
        assert(seq![].push(c) =~= w);
    } else {
        lemma_read_plain(ws, w1);
        lemma_line_run_concat(w1, seq![c], (ws, None));
        assert(w1 + seq![c] =~= w);
        lemma_line_run_one(c, (ws, Some((w1, false, false))));
        assert(w1.push(c) =~= w);
    }
}

/// A word as `shell_join` writes it is read back as that word.
proof fn lemma_read_quoted(ws: Seq<Seq<char>>, w: Seq<char>)
    requires
        w.len() > 0,
        (exists|k: int| 0 <= k < w.len() && is_space(#[trigger] w[k])) || (forall|k: int|
            0 <= k < w.len() ==> !is_shell_special(#[trigger] w[k])),
    ensures
        line_run(quoted(w), (ws, None)) == (ws, Some((w, false, false))),
{
    if exists|k: int| 0 <= k < w.len() && is_space(#[trigger] w[k]) {
        let body = escape_quotes(w);
        let q = seq!['\''] + body + seq!['\''];
        lemma_line_run_concat(seq!['\''] + body, seq!['\''], (ws, None));
        lemma_line_run_concat(seq!['\''], body, (ws, None));
        lemma_line_run_one('\'', (ws, None));
        lemma_read_escaped(ws, seq![], w);
        assert(Seq::<char>::empty() + w =~= w);
        lemma_line_run_one('\'', (ws, Some((w, true, false))));
    } else {
        assert forall|k: int| 0 <= k < w.len() implies !is_space(#[trigger] w[k]) && !is_shell_special(w[k]) by {}
        lemma_read_plain(ws, w);
    }
}

/// Whether a word comes back unchanged from a shell: it is not empty, and it
/// either holds white space (so it is quoted) or holds no character that the
/// shell treats specially outside quotes.
pub open spec fn is_safe_word(a: Seq<char>) -> bool {
    &&& a.len() > 0
    &&& (exists|k: int| 0 <= k < a.len() && is_space(#[trigger] a[k])) || (forall|k: int|
        0 <= k < a.len() ==> !is_shell_special(#[trigger] a[k]))
}

/// Reading the joined command line leaves the last word being read.
proof fn lemma_read_joined(args: Seq<Seq<char>>)
    requires
        args.len() > 0,
        forall|i: int| 0 <= i < args.len() ==> is_safe_word(#[trigger] args[i]),
    ensures
        line_run(shell_joined(args), (seq![], None)) == (args.drop_last(), Some((args.last(), false, false))),
    decreases args.len(),
{
    assert(is_safe_word(args[args.len() - 1]));
    if args.len() == 1 {
        lemma_read_quoted(seq![], args[0]);
        assert(args.drop_last() =~= Seq::<Seq<char>>::empty());
    } else {
        let d = args.drop_last();
        assert forall|i: int| 0 <= i < d.len() implies is_safe_word(#[trigger] d[i]) by {
            assert(d[i] == args[i]);
        }
        lemma_read_joined(d);
        let j = shell_joined(d);
        lemma_line_run_concat(j + seq![' '], quoted(args.last()), (seq![], None));
        lemma_line_run_concat(j, seq![' '], (seq![], None));
        lemma_line_run_one(' ', (d.drop_last(), Some((d.last(), false, false))));
        assert(d.drop_last().push(d.last()) =~= d);
        lemma_read_quoted(d, args.last());
    }
}

/// A shell reads back exactly the words that `shell_join` wrote, when each
/// word is safe (not empty, and quoted or free of special characters).
pub proof fn lemma_shell_reads_back(args: Seq<Seq<char>>)
    requires
        forall|i: int| 0 <= i < args.len() ==> is_safe_word(#[trigger] args[i]),
    ensures
        shell_words(shell_joined(args)) == args,
{
    if args.len() > 0 {
        lemma_read_joined(args);
        assert(args.drop_last().push(args.last()) =~= args);
    }
}

/// The redrawing of the first `j` lines is the start of the redrawing of the
/// first `k` lines, for `j <= k`.
proof fn lemma_line_updates_prefix(cur: Seq<Seq<u8>>, prev: Seq<Seq<u8>>, j: int, k: int, off: nat, highlight: bool)
    requires
        0 <= j <= k,
    ensures
        line_updates(cur, prev, j, off, highlight).len() <= line_updates(cur, prev, k, off, highlight).len(),
        line_updates(cur, prev, k, off, highlight).take(line_updates(cur, prev, j, off, highlight).len() as int)
            == line_updates(cur, prev, j, off, highlight),
    decreases k - j,
{
    if j < k {
        lemma_line_updates_prefix(cur, prev, j, k - 1, off, highlight);
        let a = line_updates(cur, prev, k - 1, off, highlight);
        let b = line_updates(cur, prev, k, off, highlight);
        let n = line_updates(cur, prev, j, off, highlight).len() as int;
        assert(b.take(a.len() as int) =~= a);
        assert(b.take(n) =~= a.take(n));
    } else {
        let b = line_updates(cur, prev, k, off, highlight);
        assert(b.take(b.len() as int) =~= b);
    }
}

/// Whether `piece` occurs in `text` at some position.
pub open spec fn occurs_in(piece: Seq<u8>, text: Seq<u8>) -> bool {
    exists|p: int| 0 <= p && p + piece.len() <= text.len() && #[trigger] text.subrange(p, p + piece.len()) == piece
}

/// On a later run whose output changed, the redrawing of every row whose
/// line differs from the line shown before at that row occurs in what is drawn.
proof fn lemma_update_in_body(s: ScreenView, sw: Switches, cleaned: Seq<u8>, status: i32, i: int)
    requires
        !s.first,
        0 <= i < split_lines(cleaned).len(),
        split_lines(cleaned)[i] != old_line(match s.prev { Some(p) => p, None => seq![] }, i),
    ensures
        occurs_in(
            goto_row((i + 1 + title_rows(sw)) as nat) + erase_line() + painted(split_lines(cleaned)[i], sw.differences),
            stepped(s, sw, cleaned, status).1.body,
        ),
{
    let cur = split_lines(cleaned);
    let prev = match s.prev {
        Some(p) => p,
        None => seq![],
    };
    let off = title_rows(sw);
    let h = sw.differences;
    assert(cur != prev) by {
        if cur == prev {
            assert(old_line(prev, i) == prev[i]);
        }
    }
    let body = stepped(s, sw, cleaned, status).1.body;
    assert(body == redraw(cur, prev, s.prev_height, off, h));
    let piece = goto_row((i + 1 + off) as nat) + erase_line() + painted(cur[i], h);
    let before = line_updates(cur, prev, i, off, h);
    let upto = line_updates(cur, prev, i + 1, off, h);
    assert(upto =~= before + piece);
    lemma_line_updates_prefix(cur, prev, i + 1, cur.len() as int, off, h);
    let all = line_updates(cur, prev, cur.len() as int, off, h);
    let p = before.len() as int;
    assert(body.subrange(p, p + piece.len()) =~= piece) by {
        assert(all.take(upto.len() as int) == upto);
        assert forall|k: int| 0 <= k < piece.len() implies body.subrange(p, p + piece.len())[k] == piece[k] by {
            assert(body[p + k] == all[p + k]);
            assert(all.take(upto.len() as int)[p + k] == upto[p + k]);
            assert(upto[p + k] == piece[k]);
        }
    }
}

/// With `-d`, on a later run whose output changed, every row whose line
/// differs from the line shown before at that row is erased and written
/// again in yellow: `ESC[row;1H ESC[K ESC[33m` line `ESC[0m`, with the row
/// counted below the title.
pub proof fn lemma_changed_rows_highlighted(s: ScreenView, sw: Switches, cleaned: Seq<u8>, status: i32, i: int)
    requires
        !s.first,
        sw.differences,
        0 <= i < split_lines(cleaned).len(),
        split_lines(cleaned)[i] != old_line(match s.prev { Some(p) => p, None => seq![] }, i),
    ensures
        occurs_in(
            seq![0x1Bu8, 0x5Bu8] + decimal_bytes((i + 1 + if sw.no_title { 0int } else { 2int }) as nat) + seq![
                0x3Bu8,
                0x31u8,
                0x48u8,
                0x1Bu8,
                0x5Bu8,
                0x4Bu8,
            ] + seq![0x1Bu8, 0x5Bu8, 0x33u8, 0x33u8, 0x6Du8] + split_lines(cleaned)[i] + seq![
                0x1Bu8,
                0x5Bu8,
                0x30u8,
                0x6Du8,
            ],
            stepped(s, sw, cleaned, status).1.body,
        ),
{
    lemma_update_in_body(s, sw, cleaned, status, i);
    let line = split_lines(cleaned)[i];
    let g = goto_row((i + 1 + title_rows(sw)) as nat) + erase_line();
    assert(g =~= seq![0x1Bu8, 0x5Bu8] + decimal_bytes((i + 1 + if sw.no_title { 0int } else { 2int }) as nat) + seq![
                0x3Bu8,
                0x31u8,
                0x48u8,
                0x1Bu8,
                0x5Bu8,
                0x4Bu8,
            ]);
    assert(g + painted(line, true) =~= g + seq![0x1Bu8, 0x5Bu8, 0x33u8, 0x33u8, 0x6Du8] + line + seq![
        0x1Bu8,
        0x5Bu8,
        0x30u8,
        0x6Du8,
    ]);
}

/// Without `-d`, on a later run whose output changed, every row whose line
/// differs from the line shown before at that row is erased and written
/// again as it is: `ESC[row;1H ESC[K` followed by the line itself.
pub proof fn lemma_changed_rows_plain(s: ScreenView, sw: Switches, cleaned: Seq<u8>, status: i32, i: int)
    requires
        !s.first,
        !sw.differences,
        0 <= i < split_lines(cleaned).len(),
        split_lines(cleaned)[i] != old_line(match s.prev { Some(p) => p, None => seq![] }, i),
    ensures
        occurs_in(
            seq![0x1Bu8, 0x5Bu8] + decimal_bytes((i + 1 + if sw.no_title { 0int } else { 2int }) as nat) + seq![
                0x3Bu8,
                0x31u8,
                0x48u8,
                0x1Bu8,
                0x5Bu8,
                0x4Bu8,
            ] + split_lines(cleaned)[i],
            stepped(s, sw, cleaned, status).1.body,
        ),
{
    lemma_update_in_body(s, sw, cleaned, status, i);
    let g = goto_row((i + 1 + title_rows(sw)) as nat) + erase_line();
    assert(g =~= seq![0x1Bu8, 0x5Bu8] + decimal_bytes((i + 1 + if sw.no_title { 0int } else { 2int }) as nat) + seq![
                0x3Bu8,
                0x31u8,
                0x48u8,
                0x1Bu8,
                0x5Bu8,
                0x4Bu8,
            ]);
}

/// When the lines differ from the ones shown before only at row `i`, the
/// redrawing of the first `k` lines is that of row `i` alone once `k` passes it.
proof fn lemma_updates_one_row(cur: Seq<Seq<u8>>, prev: Seq<Seq<u8>>, i: int, k: int, off: nat, highlight: bool)
    requires
        prev.len() == cur.len(),
        0 <= i < cur.len(),
        0 <= k <= cur.len(),
        forall|j: int| 0 <= j < cur.len() && j != i ==> cur[j] == prev[j],
        cur[i] != prev[i],
    ensures
        line_updates(cur, prev, k, off, highlight) == if k <= i {
            Seq::<u8>::empty()
        } else {
            goto_row((i + 1 + off) as nat) + erase_line() + painted(cur[i], highlight)
        },
    decreases k,
{
    if k > 0 {
        lemma_updates_one_row(cur, prev, i, k - 1, off, highlight);
        assert(old_line(prev, k - 1) == prev[k - 1]);
        if k - 1 == i {
            assert(line_updates(cur, prev, k, off, highlight) =~= goto_row((i + 1 + off) as nat) + erase_line()
                + painted(cur[i], highlight));
        } else {
            assert(line_updates(cur, prev, k, off, highlight) =~= line_updates(cur, prev, k - 1, off, highlight));
        }
    }
}

/// When a later run changes only the line at row `i` (the number of lines
/// staying the same), exactly that row is redrawn: what is drawn is the move
/// to that row, the erasing of it, the new line (in yellow with `-d`), and
/// the move to the row below the last line; no other row is touched.
pub proof fn lemma_only_changed_row_redrawn(s: ScreenView, sw: Switches, cleaned: Seq<u8>, status: i32, i: int)
    requires
        !s.first,
        s.prev is Some,
        s.prev->0.len() == split_lines(cleaned).len(),
        s.prev_height == split_lines(cleaned).len(),
        0 <= i < split_lines(cleaned).len(),
        split_lines(cleaned)[i] != s.prev->0[i],
        forall|j: int| 0 <= j < split_lines(cleaned).len() && j != i ==> split_lines(cleaned)[j] == s.prev->0[j],
    ensures
        stepped(s, sw, cleaned, status).1.body == seq![0x1Bu8, 0x5Bu8] + decimal_bytes(
            (i + 1 + if sw.no_title { 0int } else { 2int }) as nat,
        ) + seq![0x3Bu8, 0x31u8, 0x48u8, 0x1Bu8, 0x5Bu8, 0x4Bu8] + (if sw.differences {
            seq![0x1Bu8, 0x5Bu8, 0x33u8, 0x33u8, 0x6Du8] + split_lines(cleaned)[i] + seq![0x1Bu8, 0x5Bu8, 0x30u8, 0x6Du8]
        } else {
            split_lines(cleaned)[i]
        }) + seq![0x1Bu8, 0x5Bu8] + decimal_bytes(
            (split_lines(cleaned).len() + if sw.no_title { 0int } else { 2int } + 1) as nat,
        ) + seq![0x3Bu8, 0x31u8, 0x48u8],
{
    let cur = split_lines(cleaned);
    let prev = s.prev->0;
    let off = title_rows(sw);
    let h = sw.differences;
    assert(cur != prev) by {
        if cur == prev {
            assert(cur[i] == prev[i]);
        }
    }
    lemma_updates_one_row(cur, prev, i, cur.len() as int, off, h);
    let n = cur.len() as int;
    assert(row_clears(n, s.prev_height as int, off) =~= Seq::<u8>::empty());
    let body = stepped(s, sw, cleaned, status).1.body;
    assert(body == redraw(cur, prev, s.prev_height, off, h));
    assert(body =~= seq![0x1Bu8, 0x5Bu8] + decimal_bytes((i + 1 + if sw.no_title { 0int } else { 2int }) as nat)
        + seq![0x3Bu8, 0x31u8, 0x48u8, 0x1Bu8, 0x5Bu8, 0x4Bu8] + (if sw.differences {
        seq![0x1Bu8, 0x5Bu8, 0x33u8, 0x33u8, 0x6Du8] + cur[i] + seq![0x1Bu8, 0x5Bu8, 0x30u8, 0x6Du8]
    } else {
        cur[i]
    }) + seq![0x1Bu8, 0x5Bu8] + decimal_bytes((cur.len() + if sw.no_title { 0int } else { 2int } + 1) as nat)
        + seq![0x3Bu8, 0x31u8, 0x48u8]);
}

/// The erasing of rows `from..j` is the start of the erasing of rows `from..k`, for `j <= k`.
proof fn lemma_row_clears_prefix(from: int, j: int, k: int, off: nat)
    requires
        j <= k,
    ensures
        row_clears(from, j, off).len() <= row_clears(from, k, off).len(),
        row_clears(from, k, off).take(row_clears(from, j, off).len() as int) == row_clears(from, j, off),
    decreases k - j,
{
    if j < k {
        lemma_row_clears_prefix(from, j, k - 1, off);
        let a = row_clears(from, k - 1, off);
        let b = row_clears(from, k, off);
        let n = row_clears(from, j, off).len() as int;
        if k <= from {
            assert(b =~= a);
        } else {
            assert(b.take(a.len() as int) =~= a);
        }
        assert(b.take(n) =~= a.take(n));
    } else {
        let b = row_clears(from, k, off);
        assert(b.take(b.len() as int) =~= b);
    }
}

/// On a later run whose output changed, the cursor goes home (`ESC[H`), the
/// title is shown unless `-t` is given, and what is drawn ends by putting the
/// cursor on the row below the last line of output.
pub proof fn lemma_changed_screen_frame(s: ScreenView, sw: Switches, cleaned: Seq<u8>, status: i32)
    requires
        !s.first,
        Some(split_lines(cleaned)) != s.prev,
    ensures
        ({
            let (s2, f) = stepped(s, sw, cleaned, status);
            let last = seq![0x1Bu8, 0x5Bu8] + decimal_bytes(
                (split_lines(cleaned).len() + if sw.no_title { 0int } else { 2int } + 1) as nat,
            ) + seq![0x3Bu8, 0x31u8, 0x48u8];
            &&& f.lead == seq![0x1Bu8, 0x5Bu8, 0x48u8]
            &&& f.title == !sw.no_title
            &&& s2.changed
            &&& last.len() <= f.body.len()
            &&& f.body.subrange(f.body.len() - last.len(), f.body.len() as int) == last
        }),
{
    let cur = split_lines(cleaned);
    let prev = match s.prev {
        Some(p) => p,
        None => seq![],
    };
    if s.prev is None {
        lemma_split_lines_len(cleaned);
        assert(cur != prev);
    }
    let body = stepped(s, sw, cleaned, status).1.body;
    let last = goto_row(cur.len() + title_rows(sw) + 1);
    assert(last =~= seq![0x1Bu8, 0x5Bu8] + decimal_bytes(
        (cur.len() + if sw.no_title { 0int } else { 2int } + 1) as nat,
    ) + seq![0x3Bu8, 0x31u8, 0x48u8]);
    let front = line_updates(cur, prev, cur.len() as int, title_rows(sw), sw.differences) + row_clears(
        cur.len() as int,
        s.prev_height as int,
        title_rows(sw),
    );
    assert(body == front + last);
    assert(body.subrange(front.len() as int, body.len() as int) =~= last);
}

/// On a later run whose output changed and has fewer lines than the screen
/// shown before, every row past the new last line that was in use is erased.
pub proof fn lemma_leftover_rows_erased(s: ScreenView, sw: Switches, cleaned: Seq<u8>, status: i32, r: int)
    requires
        !s.first,
        Some(split_lines(cleaned)) != s.prev,
        split_lines(cleaned).len() <= r < s.prev_height,
    ensures
        occurs_in(
            seq![0x1Bu8, 0x5Bu8] + decimal_bytes((r + 1 + if sw.no_title { 0int } else { 2int }) as nat) + seq![
                0x3Bu8,
                0x31u8,
                0x48u8,
                0x1Bu8,
                0x5Bu8,
                0x4Bu8,
            ],
            stepped(s, sw, cleaned, status).1.body,
        ),
{
    let cur = split_lines(cleaned);
    let prev = match s.prev {
        Some(p) => p,
        None => seq![],
    };
    let off = title_rows(sw);
    if s.prev is None {
        lemma_split_lines_len(cleaned);
        assert(cur != prev);
    }
    let n = cur.len() as int;
    let body = stepped(s, sw, cleaned, status).1.body;
    let ups = line_updates(cur, prev, n, off, sw.differences);
    let clears = row_clears(n, s.prev_height as int, off);
    assert(body == ups + clears + goto_row(cur.len() + off + 1));
    let piece = goto_row((r + 1 + off) as nat) + erase_line();
    assert(piece =~= seq![0x1Bu8, 0x5Bu8] + decimal_bytes((r + 1 + if sw.no_title { 0int } else { 2int }) as nat)
        + seq![0x3Bu8, 0x31u8, 0x48u8, 0x1Bu8, 0x5Bu8, 0x4Bu8]);
    let before = row_clears(n, r, off);
    let upto = row_clears(n, r + 1, off);
    assert(upto =~= before + piece);
    lemma_row_clears_prefix(n, r + 1, s.prev_height as int, off);
    let p = (ups.len() + before.len()) as int;
    assert(body.subrange(p, p + piece.len()) =~= piece) by {
        assert forall|k: int| 0 <= k < piece.len() implies body.subrange(p, p + piece.len())[k] == piece[k] by {
            assert(body[p + k] == clears[before.len() + k]);
            assert(clears.take(upto.len() as int)[before.len() + k] == upto[before.len() + k]);
            assert(upto[before.len() + k] == piece[k]);
        }
    }
}

/// Without `-d`, all lines, each followed by a newline, are the given text
/// followed by a newline.
proof fn lemma_full_text_plain(lines: Seq<Seq<u8>>)
    requires
        lines.len() >= 1,
    ensures
        full_text(lines, false) == joined_lines(lines) + seq![0x0Au8],
    decreases lines.len(),
{
    if lines.len() == 1 {
        assert(lines.drop_last().len() == 0);
        assert(full_text(lines.drop_last(), false) == Seq::<u8>::empty());
        assert(painted(lines.last(), false) == lines[0]);
        assert(full_text(lines, false) =~= lines[0] + seq![0x0Au8]);
    } else {
        lemma_full_text_plain(lines.drop_last());
        assert(full_text(lines, false) =~= joined_lines(lines) + seq![0x0Au8]);
    }
}

/// On the first run the screen is cleared (`ESC[2J ESC[H`), the title is
/// shown unless `-t` is given, and without `-d` the output is shown as it
/// is, followed by a newline.
pub proof fn lemma_first_screen_shows_output(s: ScreenView, sw: Switches, cleaned: Seq<u8>, status: i32)
    requires
        s.first,
        !sw.differences,
    ensures
        ({
            let f = stepped(s, sw, cleaned, status).1;
            &&& f.lead == seq![0x1Bu8, 0x5Bu8, 0x32u8, 0x4Au8, 0x1Bu8, 0x5Bu8, 0x48u8]
            &&& f.title == !sw.no_title
            &&& f.body == cleaned + seq![0x0Au8]
        }),
{
    lemma_split_lines_len(cleaned);
    lemma_full_text_plain(split_lines(cleaned));
    lemma_split_then_join(cleaned);
}

/// All of the first `j` lines as drawn are the start of all of the lines as drawn.
proof fn lemma_full_text_prefix(lines: Seq<Seq<u8>>, j: int, highlight: bool)
    requires
        0 <= j <= lines.len(),
    ensures
        full_text(lines.take(j), highlight).len() <= full_text(lines, highlight).len(),
        full_text(lines, highlight).take(full_text(lines.take(j), highlight).len() as int) == full_text(
            lines.take(j),
            highlight,
        ),
    decreases lines.len() - j,
{
    if j < lines.len() {
        lemma_full_text_prefix(lines.drop_last(), j, highlight);
        assert(lines.drop_last().take(j) =~= lines.take(j));
        let a = full_text(lines.drop_last(), highlight);
        let b = full_text(lines, highlight);
        let n = full_text(lines.take(j), highlight).len() as int;
        assert(b.take(a.len() as int) =~= a);
        assert(b.take(n) =~= a.take(n));
    } else {
        assert(lines.take(j) =~= lines);
        let b = full_text(lines, highlight);
        assert(b.take(b.len() as int) =~= b);
    }
}

/// With `-d`, on the first run every line is shown in yellow
/// (`ESC[33m` line `ESC[0m`) and followed by a newline.
pub proof fn lemma_first_screen_highlighted(s: ScreenView, sw: Switches, cleaned: Seq<u8>, status: i32, i: int)
    requires
        s.first,
        sw.differences,
        0 <= i < split_lines(cleaned).len(),
    ensures
        occurs_in(
            seq![0x1Bu8, 0x5Bu8, 0x33u8, 0x33u8, 0x6Du8] + split_lines(cleaned)[i] + seq![0x1Bu8, 0x5Bu8, 0x30u8, 0x6Du8, 0x0Au8],
            stepped(s, sw, cleaned, status).1.body,
        ),
{
    let cur = split_lines(cleaned);
    let body = stepped(s, sw, cleaned, status).1.body;
    assert(body == full_text(cur, true));
    let piece = seq![0x1Bu8, 0x5Bu8, 0x33u8, 0x33u8, 0x6Du8] + cur[i] + seq![0x1Bu8, 0x5Bu8, 0x30u8, 0x6Du8, 0x0Au8];
    let before = full_text(cur.take(i), true);
    let upto = full_text(cur.take(i + 1), true);
    assert(cur.take(i + 1).drop_last() =~= cur.take(i));
    assert(upto =~= before + piece);
    lemma_full_text_prefix(cur, i + 1, true);
    let p = before.len() as int;
    assert(body.subrange(p, p + piece.len()) =~= piece) by {
        assert forall|k: int| 0 <= k < piece.len() implies body.subrange(p, p + piece.len())[k] == piece[k] by {
            assert(body.take(upto.len() as int)[p + k] == upto[p + k]);
            assert(upto[p + k] == piece[k]);
        }
    }
}

/// Reading from the `j`-th argument on depends only on the arguments from there on.
proof fn lemma_parse_depends_on_rest(
    a: Seq<Seq<char>>,
    b: Seq<Seq<char>>,
    j: int,
    sw: Switches,
    intervals: Seq<Seq<char>>,
    cmd: Seq<Seq<char>>,
)
    requires
        a.len() == b.len(),
        0 <= j,
        forall|k: int| j <= k < a.len() ==> a[k] == b[k],
    ensures
        parse_from(a, j, sw, intervals, cmd) == parse_from(b, j, sw, intervals, cmd),
    decreases a.len() - j,
{
    if j < a.len() {
        assert(a[j] == b[j]);
        if j + 1 < a.len() {
            assert(a[j + 1] == b[j + 1]);
        }
        assert(a.subrange(j + 1, a.len() as int) =~= b.subrange(j + 1, b.len() as int));
        let a0 = a[j];
        let s1 = Switches { differences: true, ..sw };
        let s2 = Switches { color: true, ..sw };
        let s3 = Switches { no_title: true, ..sw };
        let s4 = Switches { beep: true, ..sw };
        let s5 = Switches { errexit: true, ..sw };
        let s6 = Switches { chgexit: true, ..sw };
        lemma_parse_depends_on_rest(a, b, j + 1, sw, intervals, cmd.push(a0));
        lemma_parse_depends_on_rest(a, b, j + 1, s1, intervals, cmd);
        lemma_parse_depends_on_rest(a, b, j + 1, s2, intervals, cmd);
        lemma_parse_depends_on_rest(a, b, j + 1, s3, intervals, cmd);
        lemma_parse_depends_on_rest(a, b, j + 1, s4, intervals, cmd);
        lemma_parse_depends_on_rest(a, b, j + 1, s5, intervals, cmd);
        lemma_parse_depends_on_rest(a, b, j + 1, s6, intervals, cmd);
        lemma_parse_depends_on_rest(a, b, j + 1, sw, intervals.push(a0.skip("--interval="@.len() as int)), cmd);
        if j + 2 <= a.len() {
            lemma_parse_depends_on_rest(a, b, j + 2, sw, intervals.push(a[j + 1]), cmd);
        }
    }
}

/// What the option words of `watch` are made of: their lengths and first characters.
proof fn lemma_option_texts()
    ensures
        "-n"@.len() == 2,
        "-n"@[0] == '-',
        "-n"@[1] == 'n',
        "--interval"@.len() == 10,
        "--interval"@[0] == '-',
        "--interval"@[1] == '-',
        "--interval"@[2] == 'i',
        "--interval"@[3] == 'n',
        "-d"@.len() == 2,
        "-d"@[0] == '-',
        "-d"@[1] == 'd',
        "--differences"@.len() == 13,
        "--differences"@[0] == '-',
        "--differences"@[1] == '-',
        "--differences"@[2] == 'd',
        "--differences"@[3] == 'i',
        "-c"@.len() == 2,
        "-c"@[0] == '-',
        "-c"@[1] == 'c',
        "--color"@.len() == 7,
        "--color"@[0] == '-',
        "--color"@[1] == '-',
        "--color"@[2] == 'c',
        "--color"@[3] == 'o',
        "-t"@.len() == 2,
        "-t"@[0] == '-',
        "-t"@[1] == 't',
        "--no-title"@.len() == 10,
        "--no-title"@[0] == '-',
        "--no-title"@[1] == '-',
        "--no-title"@[2] == 'n',
        "--no-title"@[3] == 'o',
        "-b"@.len() == 2,
        "-b"@[0] == '-',
        "-b"@[1] == 'b',
        "--beep"@.len() == 6,
        "--beep"@[0] == '-',
        "--beep"@[1] == '-',
        "--beep"@[2] == 'b',
        "--beep"@[3] == 'e',
        "-e"@.len() == 2,
        "-e"@[0] == '-',
        "-e"@[1] == 'e',
        "--errexit"@.len() == 9,
        "--errexit"@[0] == '-',
        "--errexit"@[1] == '-',
        "--errexit"@[2] == 'e',
        "--errexit"@[3] == 'r',
        "-g"@.len() == 2,
        "-g"@[0] == '-',
        "-g"@[1] == 'g',
        "--chgexit"@.len() == 9,
        "--chgexit"@[0] == '-',
        "--chgexit"@[1] == '-',
        "--chgexit"@[2] == 'c',
        "--chgexit"@[3] == 'h',
        "-h"@.len() == 2,
        "-h"@[0] == '-',
        "-h"@[1] == 'h',
        "--help"@.len() == 6,
        "--help"@[0] == '-',
        "--help"@[1] == '-',
        "--help"@[2] == 'h',
        "--help"@[3] == 'e',
        "--"@.len() == 2,
        "--"@[0] == '-',
        "--"@[1] == '-',
        "--interval="@.len() == 11,
        "--interval="@[0] == '-',
        "--interval="@[1] == '-',
        "--interval="@[2] == 'i',
        "--interval="@[3] == 'n',
{
    reveal_strlit("-n");
    reveal_strlit("--interval");
    reveal_strlit("-d");
    reveal_strlit("--differences");
    reveal_strlit("-c");
    reveal_strlit("--color");
    reveal_strlit("-t");
    reveal_strlit("--no-title");
    reveal_strlit("-b");
    reveal_strlit("--beep");
    reveal_strlit("-e");
    reveal_strlit("--errexit");
    reveal_strlit("-g");
    reveal_strlit("--chgexit");
    reveal_strlit("-h");
    reveal_strlit("--help");
    reveal_strlit("--");
    reveal_strlit("--interval=");
}

/// The long spelling of each switch means the same as its short one: where
/// the reading of the command line reaches an argument, `--differences`,
/// `--color`, `--no-title`, `--beep`, `--errexit`, `--chgexit` and `--help`
/// there give the same result as `-d`, `-c`, `-t`, `-b`, `-e`, `-g` and `-h`.
pub proof fn lemma_long_switches_mean_short(
    args: Seq<Seq<char>>,
    i: int,
    sw: Switches,
    intervals: Seq<Seq<char>>,
    cmd: Seq<Seq<char>>,
)
    requires
        0 <= i < args.len(),
    ensures
        parse_from(args.update(i, "--differences"@), i, sw, intervals, cmd) == parse_from(args.update(i, "-d"@), i, sw, intervals, cmd),
        parse_from(args.update(i, "--color"@), i, sw, intervals, cmd) == parse_from(args.update(i, "-c"@), i, sw, intervals, cmd),
        parse_from(args.update(i, "--no-title"@), i, sw, intervals, cmd) == parse_from(args.update(i, "-t"@), i, sw, intervals, cmd),
        parse_from(args.update(i, "--beep"@), i, sw, intervals, cmd) == parse_from(args.update(i, "-b"@), i, sw, intervals, cmd),
        parse_from(args.update(i, "--errexit"@), i, sw, intervals, cmd) == parse_from(args.update(i, "-e"@), i, sw, intervals, cmd),
        parse_from(args.update(i, "--chgexit"@), i, sw, intervals, cmd) == parse_from(args.update(i, "-g"@), i, sw, intervals, cmd),
        parse_from(args.update(i, "--help"@), i, sw, intervals, cmd) == parse_from(args.update(i, "-h"@), i, sw, intervals, cmd),
{
    lemma_option_texts();
    {
        let a = args.update(i, "--differences"@);
        let b = args.update(i, "-d"@);
        assert(a[i] == "--differences"@ && b[i] == "-d"@);
        let s1 = Switches { differences: true, ..sw };
        lemma_parse_depends_on_rest(a, b, i + 1, s1, intervals, cmd);
        assert(!has_prefix("--differences"@, "--interval="@)) by {
            if has_prefix("--differences"@, "--interval="@) {
                assert("--differences"@.take(11)[2] == "--differences"@[2]);
                assert("--differences"@.take(11)[3] == "--differences"@[3]);
            }
        }
    }
    {
        let a = args.update(i, "--color"@);
        let b = args.update(i, "-c"@);
        assert(a[i] == "--color"@ && b[i] == "-c"@);
        let s1 = Switches { color: true, ..sw };
        lemma_parse_depends_on_rest(a, b, i + 1, s1, intervals, cmd);
        assert(!has_prefix("--color"@, "--interval="@)) by {
            if has_prefix("--color"@, "--interval="@) {
                assert("--color"@.take(11)[2] == "--color"@[2]);
                assert("--color"@.take(11)[3] == "--color"@[3]);
            }
        }
    }
    {
        let a = args.update(i, "--no-title"@);
        let b = args.update(i, "-t"@);
        assert(a[i] == "--no-title"@ && b[i] == "-t"@);
        let s1 = Switches { no_title: true, ..sw };
        lemma_parse_depends_on_rest(a, b, i + 1, s1, intervals, cmd);
        assert(!has_prefix("--no-title"@, "--interval="@)) by {
            if has_prefix("--no-title"@, "--interval="@) {
                assert("--no-title"@.take(11)[2] == "--no-title"@[2]);
                assert("--no-title"@.take(11)[3] == "--no-title"@[3]);
            }
        }
    }
    {
        let a = args.update(i, "--beep"@);
        let b = args.update(i, "-b"@);
        assert(a[i] == "--beep"@ && b[i] == "-b"@);
        let s1 = Switches { beep: true, ..sw };
        lemma_parse_depends_on_rest(a, b, i + 1, s1, intervals, cmd);
        assert(!has_prefix("--beep"@, "--interval="@)) by {
            if has_prefix("--beep"@, "--interval="@) {
                assert("--beep"@.take(11)[2] == "--beep"@[2]);
                assert("--beep"@.take(11)[3] == "--beep"@[3]);
            }
        }
    }
    {
        let a = args.update(i, "--errexit"@);
        let b = args.update(i, "-e"@);
        assert(a[i] == "--errexit"@ && b[i] == "-e"@);
        let s1 = Switches { errexit: true, ..sw };
        lemma_parse_depends_on_rest(a, b, i + 1, s1, intervals, cmd);
        assert(!has_prefix("--errexit"@, "--interval="@)) by {
            if has_prefix("--errexit"@, "--interval="@) {
                assert("--errexit"@.take(11)[2] == "--errexit"@[2]);
                assert("--errexit"@.take(11)[3] == "--errexit"@[3]);
            }
        }
    }
    {
        let a = args.update(i, "--chgexit"@);
        let b = args.update(i, "-g"@);
        assert(a[i] == "--chgexit"@ && b[i] == "-g"@);
        let s1 = Switches { chgexit: true, ..sw };
        lemma_parse_depends_on_rest(a, b, i + 1, s1, intervals, cmd);
        assert(!has_prefix("--chgexit"@, "--interval="@)) by {
            if has_prefix("--chgexit"@, "--interval="@) {
                assert("--chgexit"@.take(11)[2] == "--chgexit"@[2]);
                assert("--chgexit"@.take(11)[3] == "--chgexit"@[3]);
            }
        }
    }
    {
        let a = args.update(i, "--help"@);
        let b = args.update(i, "-h"@);
        assert(a[i] == "--help"@ && b[i] == "-h"@);
        assert(!has_prefix("--help"@, "--interval="@)) by {
            if has_prefix("--help"@, "--interval="@) {
                assert("--help"@.take(11)[2] == "--help"@[2]);
                assert("--help"@.take(11)[3] == "--help"@[3]);
            }
        }
    }
}

/// In particular, a command line that starts with `--differences` means the
/// same as one that starts with `-d`.
pub proof fn lemma_long_differences_first(rest: Seq<Seq<char>>)
    ensures
        parsed_command(seq!["--differences"@] + rest) == parsed_command(seq!["-d"@] + rest),
{
    let a = seq!["--differences"@] + rest;
    let b = seq!["-d"@] + rest;
    assert(a == b.update(0, "--differences"@));
    assert(b == b.update(0, "-d"@));
    lemma_long_switches_mean_short(b, 0, no_switches(), seq![], seq![]);
}

/// Words that do not start with `-` are command words: from such words on,
/// the reading gathers them all into the command.
proof fn lemma_plain_words(
    args: Seq<Seq<char>>,
    i: int,
    sw: Switches,
    intervals: Seq<Seq<char>>,
    cmd: Seq<Seq<char>>,
)
    requires
        0 <= i <= args.len(),
        forall|k: int| i <= k < args.len() ==> (#[trigger] args[k]).len() == 0 || args[k][0] != '-',
    ensures
        parse_from(args, i, sw, intervals, cmd) == (intervals, end_with(sw, cmd + args.subrange(i, args.len() as int))),
    decreases args.len() - i,
{
    lemma_option_texts();
    if i < args.len() {
        let a = args[i];
        assert(a.len() == 0 || a[0] != '-');
        assert(!has_prefix(a, "--interval="@)) by {
            if has_prefix(a, "--interval="@) {
                assert(a.take(11)[0] == a[0]);
            }
        }
        assert(a != "--"@);
        lemma_plain_words(args, i + 1, sw, intervals, cmd.push(a));
        assert(cmd.push(a) + args.subrange(i + 1, args.len() as int) =~= cmd + args.subrange(i, args.len() as int));
    } else {
        assert(cmd + args.subrange(i, args.len() as int) =~= cmd);
    }
}

/// After `k` leading arguments, command words that do not start with `-` are
/// all gathered into the command.
proof fn lemma_after_lead(lead: Seq<Seq<char>>, c: Seq<Seq<char>>, sw: Switches, intervals: Seq<Seq<char>>)
    requires
        forall|k: int| 0 <= k < c.len() ==> (#[trigger] c[k]).len() == 0 || c[k][0] != '-',
    ensures
        parse_from(lead + c, lead.len() as int, sw, intervals, seq![]) == (intervals, end_with(sw, c)),
{
    let args = lead + c;
    assert forall|k: int| lead.len() <= k < args.len() implies (#[trigger] args[k]).len() == 0 || args[k][0] != '-' by {
        assert(args[k] == c[k - lead.len()]);
    }
    lemma_plain_words(args, lead.len() as int, sw, intervals, seq![]);
    assert(Seq::<Seq<char>>::empty() + args.subrange(lead.len() as int, args.len() as int) =~= c);
}

/// What each switch does: in front of command words that do not start with
/// `-`, `-d`, `-c`, `-t`, `-b`, `-e` and `-g` each turn on their own switch
/// and no other, `-n` gives its argument as the interval, `-h` asks for the
/// usage; with no switch all are off; with no words there is no command, and
/// `-n` as the last argument lacks its value.
pub proof fn lemma_switch_meanings(c: Seq<Seq<char>>, x: Seq<char>)
    requires
        c.len() > 0,
        forall|k: int| 0 <= k < c.len() ==> (#[trigger] c[k]).len() == 0 || c[k][0] != '-',
    ensures
        parsed_command(c) == (Seq::<Seq<char>>::empty(), OutcomeView::Run(
            Switches { no_title: false, differences: false, color: false, beep: false, errexit: false, chgexit: false },
            c,
        )),
        parsed_command(seq!["-d"@] + c) == (Seq::<Seq<char>>::empty(), OutcomeView::Run(
            Switches { no_title: false, differences: true, color: false, beep: false, errexit: false, chgexit: false },
            c,
        )),
        parsed_command(seq!["-c"@] + c) == (Seq::<Seq<char>>::empty(), OutcomeView::Run(
            Switches { no_title: false, differences: false, color: true, beep: false, errexit: false, chgexit: false },
            c,
        )),
        parsed_command(seq!["-t"@] + c) == (Seq::<Seq<char>>::empty(), OutcomeView::Run(
            Switches { no_title: true, differences: false, color: false, beep: false, errexit: false, chgexit: false },
            c,
        )),
        parsed_command(seq!["-b"@] + c) == (Seq::<Seq<char>>::empty(), OutcomeView::Run(
            Switches { no_title: false, differences: false, color: false, beep: true, errexit: false, chgexit: false },
            c,
        )),
        parsed_command(seq!["-e"@] + c) == (Seq::<Seq<char>>::empty(), OutcomeView::Run(
            Switches { no_title: false, differences: false, color: false, beep: false, errexit: true, chgexit: false },
            c,
        )),
        parsed_command(seq!["-g"@] + c) == (Seq::<Seq<char>>::empty(), OutcomeView::Run(
            Switches { no_title: false, differences: false, color: false, beep: false, errexit: false, chgexit: true },
            c,
        )),
        parsed_command(seq!["-n"@, x] + c) == (seq![x], OutcomeView::Run(
            Switches { no_title: false, differences: false, color: false, beep: false, errexit: false, chgexit: false },
            c,
        )),
        parsed_command(seq!["-h"@] + c) == (Seq::<Seq<char>>::empty(), OutcomeView::Help),
        parsed_command(Seq::<Seq<char>>::empty()) == (Seq::<Seq<char>>::empty(), OutcomeView::NoCommand),
        parsed_command(seq!["-n"@]) == (Seq::<Seq<char>>::empty(), OutcomeView::MissingArgument("-n"@)),
{
    lemma_option_texts();
    let none = no_switches();
    let e: Seq<Seq<char>> = seq![];
    lemma_after_lead(e, c, none, e);
    assert(e + c =~= c);
    assert(c[0].len() == 0 || c[0][0] != '-');
    lemma_after_lead(seq!["-d"@], c, Switches { differences: true, ..none }, e);
    lemma_after_lead(seq!["-c"@], c, Switches { color: true, ..none }, e);
    lemma_after_lead(seq!["-t"@], c, Switches { no_title: true, ..none }, e);
    lemma_after_lead(seq!["-b"@], c, Switches { beep: true, ..none }, e);
    lemma_after_lead(seq!["-e"@], c, Switches { errexit: true, ..none }, e);
    lemma_after_lead(seq!["-g"@], c, Switches { chgexit: true, ..none }, e);
    lemma_after_lead(seq!["-n"@, x], c, none, seq![x]);
    assert((seq!["-d"@] + c)[0] == "-d"@);
    assert((seq!["-c"@] + c)[0] == "-c"@);
    assert((seq!["-t"@] + c)[0] == "-t"@);
    assert((seq!["-b"@] + c)[0] == "-b"@);
    assert((seq!["-e"@] + c)[0] == "-e"@);
    assert((seq!["-g"@] + c)[0] == "-g"@);
    assert((seq!["-h"@] + c)[0] == "-h"@);
    assert((seq!["-n"@, x] + c)[0] == "-n"@);
    assert((seq!["-n"@, x] + c)[1] == x);
    assert(Seq::<Seq<char>>::empty().push(x) == seq![x]);
    assert(seq!["-n"@][0] == "-n"@);
}

} // verus!
