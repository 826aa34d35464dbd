//! `cat`: option parsing and the rendering of each input line.
//!
//! Reading the files and writing to standard output are left to the caller,
//! which feeds the lines one by one to [`render_line`] together with a
//! [`State`] that carries line numbers and blank-line squeezing from one line
//! (and one file) to the next.

use crate::decimal::{decimal, right_align, right_aligned_decimal};
use crate::text::{char_from, chars_of, opt_text, string_of, views};
use vstd::prelude::*;

verus! {

/// The options of `cat`.
#[derive(Clone, Copy, Debug, PartialEq, Eq)]
pub struct Options {
    /// `-n`: number every output line.
    pub number_all: bool,
    /// `-b`: number the non-blank output lines (wins over `-n`).
    pub number_nonblank: bool,
    /// `-s`: print only one of several blank lines in a row.
    pub squeeze_blank: bool,
    /// `-E`: end each line with `$`.
    pub show_ends: bool,
    /// `-T`: show tabs as `^I`.
    pub show_tabs: bool,
    /// `-v`: show control characters and bytes above 127 in caret and `M-` notation.
    pub show_nonprinting: bool,
}

/// All options off.
pub open spec fn no_options() -> Options {
    Options {
        number_all: false,
        number_nonblank: false,
        squeeze_blank: false,
        show_ends: false,
        show_tabs: false,
        show_nonprinting: false,
    }
}

impl Options {
    /// All options off.
    pub fn new() -> (o: Self)
        ensures
            o == no_options(),
    {
        Options {
            number_all: false,
            number_nonblank: false,
            squeeze_blank: false,
            show_ends: false,
            show_tabs: false,
            show_nonprinting: false,
        }
    }
}

/// The options after the single-letter flag `c`, or `None` when `c` is not a flag of `cat`.
pub open spec fn apply_flag(o: Options, c: char) -> Option<Options> {
    if c == 'n' {
        Some(Options { number_all: true, ..o })
    } else if c == 'b' {
        Some(Options { number_nonblank: true, ..o })
    } else if c == 's' {
        Some(Options { squeeze_blank: true, ..o })
    } else if c == 'E' {
        Some(Options { show_ends: true, ..o })
    } else if c == 'T' {
        Some(Options { show_tabs: true, ..o })
    } else if c == 'A' {
        Some(Options { show_nonprinting: true, show_ends: true, show_tabs: true, ..o })
    } else if c == 'e' {
        Some(Options { show_nonprinting: true, show_ends: true, ..o })
    } else if c == 't' {
        Some(Options { show_nonprinting: true, show_tabs: true, ..o })
    } else if c == 'v' {
        Some(Options { show_nonprinting: true, ..o })
    } else if c == 'u' {
        Some(o)
    } else {
        None
    }
}

/// The options after a group of flags, applied left to right; the error is the
/// first character that is not a flag.
pub open spec fn apply_flags(o: Options, flags: Seq<char>) -> Result<Options, char>
    decreases flags.len(),
{
    if flags.len() == 0 {
        Ok(o)
    } else {
        match apply_flag(o, flags[0]) {
            Some(o2) => apply_flags(o2, flags.drop_first()),
            None => Err(flags[0]),
        }
    }
}

/// Whether an argument is a group of flags: `-` followed by at least one character.
pub open spec fn is_flag_group(a: Seq<char>) -> bool {
    a.len() >= 2 && a[0] == '-'
}

/// The argument `--`, after which every argument is a file name.
pub open spec fn is_end_of_options(a: Seq<char>) -> bool {
    a == seq!['-', '-']
}

/// Parsing from the `i`-th argument on, with the options and files gathered so far.
pub open spec fn parse_from(
    args: Seq<Seq<char>>,
    i: int,
    o: Options,
    files: Seq<Seq<char>>,
) -> Result<(Options, Seq<Seq<char>>), char>
    decreases args.len() - i,
{
    if i < 0 || i >= args.len() {
        Ok((o, files))
    } else if is_end_of_options(args[i]) {
        Ok((o, files + args.subrange(i + 1, args.len() as int)))
    } else if !is_flag_group(args[i]) {
        parse_from(args, i + 1, o, files.push(args[i]))
    } else {
        match apply_flags(o, args[i].drop_first()) {
            Ok(o2) => parse_from(args, i + 1, o2, files),
            Err(c) => Err(c),
        }
    }
}

/// What the command line of `cat` means: the options and the files to print
/// (standard input, `-`, when none is named), or the first character that is
/// not a flag.
pub open spec fn parsed_args(args: Seq<Seq<char>>) -> Result<(Options, Seq<Seq<char>>), char> {
    match parse_from(args, 0, no_options(), seq![]) {
        Ok((o, files)) => Ok(
            (o, if files.len() == 0 { seq![seq!['-']] } else { files }),
        ),
        Err(c) => Err(c),
    }
}

/// The options and the files named on a command line.
pub struct Config {
    pub options: Options,
    pub files: Vec<String>,
}

impl View for Config {
    type V = (Options, Seq<Seq<char>>);

    open spec fn view(&self) -> (Options, Seq<Seq<char>>) {
        (self.options, views(self.files@))
    }
}

/// The meaning of a parsing result, with each file name taken as its text.
pub open spec fn result_view(r: Result<Config, char>) -> Result<(Options, Seq<Seq<char>>), char> {
    match r {
        Ok(c) => Ok(c@),
        Err(ch) => Err(ch),
    }
}

/// Applies the flags `arg[from..]` to `o`.
fn apply_flags_from(o: Options, arg: &Vec<char>, from: usize) -> (r: Result<Options, char>)
    requires
        from <= arg@.len(),
    ensures
        r == apply_flags(o, arg@.skip(from as int)),
{
    let mut cur = o;
    let mut k = from;
    while k < arg.len()
        invariant
            from <= k <= arg@.len(),
            apply_flags(o, arg@.skip(from as int)) == apply_flags(cur, arg@.skip(k as int)),
        decreases arg@.len() - k,
    {
        let c = arg[k];
        assert(arg@.skip(k as int).drop_first() == arg@.skip(k + 1));
        assert(arg@.skip(k as int)[0] == c);
        if c == 'n' {
            cur.number_all = true;
        } else if c == 'b' {
            cur.number_nonblank = true;
        } else if c == 's' {
            cur.squeeze_blank = true;
        } else if c == 'E' {
            cur.show_ends = true;
        } else if c == 'T' {
            cur.show_tabs = true;
        } else if c == 'A' {
            cur.show_nonprinting = true;
            cur.show_ends = true;
            cur.show_tabs = true;
        } else if c == 'e' {
            cur.show_nonprinting = true;
            cur.show_ends = true;
        } else if c == 't' {
            cur.show_nonprinting = true;
            cur.show_tabs = true;
        } else if c == 'v' {
            cur.show_nonprinting = true;
        } else if c == 'u' {
        } else {
            return Err(c);
        }
        k += 1;
    }
    assert(arg@.skip(k as int).len() == 0);
    Ok(cur)
}

/// Reads the command line of `cat`: which options are on and which files to
/// print, or the first character of a flag group that is not a flag of `cat`
/// (which the caller reports as an invalid option).
pub fn parse_args(args: &[String]) -> (r: Result<Config, char>)
    ensures
        parsed_args(views(args@)) == result_view(r),
{
    let ghost all = views(args@);
    let mut opts = Options::new();
    let mut files: Vec<String> = Vec::new();
    let mut i: usize = 0;
    let mut done = false;
    assert(views(files@) =~= seq![]);
    while i < args.len() && !done
        invariant
            i <= args@.len(),
            all == views(args@),
            done ==> parse_from(all, 0, no_options(), seq![]) == Ok::<(Options, Seq<Seq<char>>), char>((opts, views(files@))),
            !done ==> parse_from(all, 0, no_options(), seq![]) == parse_from(all, i as int, opts, views(files@)),
        decreases 2 * (args@.len() - i) + if done { 0int } else { 1int },
    {
        let arg = chars_of(args[i].as_str());
        assert(all[i as int] == arg@);
        if arg.len() == 2 && arg[0] == '-' && arg[1] == '-' {
            assert(arg@ == seq!['-', '-']);
            let ghost before = views(files@);
            let mut j = i + 1;
            while j < args.len()
                invariant
                    i < j <= args@.len(),
                    all == views(args@),
                    views(files@) == before + all.subrange(i + 1, j as int),
                decreases args@.len() - j,
            {
                let ghost prev = views(files@);
                files.push(args[j].clone());
                assert(views(files@) =~= prev.push(all[j as int]));
                assert(all.subrange(i + 1, j + 1) =~= all.subrange(i + 1, j as int).push(all[j as int]));
                j += 1;
            }
            done = true;
        } else if !(arg.len() >= 2 && arg[0] == '-') {
            let ghost before = views(files@);
            files.push(args[i].clone());
            assert(views(files@) =~= before.push(all[i as int]));
            i += 1;
        } else {
            match apply_flags_from(opts, &arg, 1) {
                Ok(o) => {
                    assert(arg@.skip(1) == arg@.drop_first());
                    opts = o;
                },
                Err(c) => {
                    assert(arg@.skip(1) == arg@.drop_first());
                    return Err(c);
                },
            }
            i += 1;
        }
    }
    if files.len() == 0 {
        let mut dash = String::new();
        dash.push('-');
        files.push(dash);
        assert(views(files@) == seq![seq!['-']]);
    }
    Ok(Config { options: opts, files })
}

/// Line numbering and blank-line squeezing, carried from one line to the next
/// and from one file to the next.
#[derive(Clone, Copy, Debug, PartialEq, Eq)]
pub struct State {
    /// The number that the next numbered line gets.
    pub line_number: u64,
    /// Whether the last line seen was blank and squeezing is on.
    pub prev_blank: bool,
}

impl State {
    /// The state before the first line: numbering starts at 1.
    pub fn new() -> (s: Self)
        ensures
            s.line_number == 1,
            !s.prev_blank,
    {
        State { line_number: 1, prev_blank: false }
    }
}

/// Whether `c` is a control character (Unicode general category `Cc`).
pub open spec fn is_control(c: char) -> bool {
    (c as u32) <= 0x1F || (0x7F <= (c as u32) && (c as u32) <= 0x9F)
}

/// The character, or `?` when there is none.
pub open spec fn or_question(r: Option<char>) -> char {
    match r {
        Some(c) => c,
        None => '?',
    }
}

/// How one character of a line is shown.
pub open spec fn shown_char(o: Options, c: char) -> Seq<char> {
    if o.show_nonprinting {
        if c == '\t' {
            if o.show_tabs {
                seq!['^', 'I']
            } else {
                seq!['\t']
            }
        } else if is_control(c) && c != '\n' && c != '\r' {
            seq!['^', or_question(char_from((c as u32) ^ 0x40u32))]
        } else if (c as u32) >= 0x80 {
            if (c as u32) < 0xA0 {
                seq!['M', '-', '^', or_question(char_from(((c as u32) - 0x80u32) as u32 ^ 0x40u32))]
            } else {
                seq!['M', '-', or_question(char_from(((c as u32) - 0x80u32) as u32))]
            }
        } else {
            seq![c]
        }
    } else if c == '\t' && o.show_tabs {
        seq!['^', 'I']
    } else {
        seq![c]
    }
}

/// How the characters of a line are shown, one after the other.
pub open spec fn shown_text(o: Options, s: Seq<char>) -> Seq<char>
    decreases s.len(),
{
    if s.len() == 0 {
        seq![]
    } else {
        shown_text(o, s.drop_last()) + shown_char(o, s.last())
    }
}

/// Whether the line is dropped: a blank line right after a blank line, with `-s`.
pub open spec fn is_squeezed(o: Options, st: State, line: Seq<char>) -> bool {
    o.squeeze_blank && line.len() == 0 && st.prev_blank
}

/// Whether the line gets a number: with `-b` when it is not blank, else with `-n`.
pub open spec fn is_numbered(o: Options, line: Seq<char>) -> bool {
    if o.number_nonblank {
        line.len() != 0
    } else {
        o.number_all
    }
}

/// The state after a line.
pub open spec fn next_state(o: Options, st: State, line: Seq<char>) -> State {
    if is_squeezed(o, st, line) {
        st
    } else {
        State {
            line_number: if is_numbered(o, line) {
                (st.line_number + 1) as u64
            } else {
                st.line_number
            },
            prev_blank: o.squeeze_blank && line.len() == 0,
        }
    }
}

/// The number in front of a numbered line: right-aligned in six columns, then a tab.
pub open spec fn number_prefix(n: u64) -> Seq<char> {
    right_align(decimal(n as nat), 6).push('\t')
}

/// What `cat` prints for a line (given without its line terminator), or `None`
/// when the line is squeezed away.
pub open spec fn rendered(o: Options, st: State, line: Seq<char>) -> Option<Seq<char>> {
    if is_squeezed(o, st, line) {
        None
    } else {
        Some(
            (if is_numbered(o, line) { number_prefix(st.line_number) } else { seq![] })
                + shown_text(o, line)
                + (if o.show_ends { seq!['$'] } else { seq![] })
                + seq!['\n'],
        )
    }
}

/// Appends how `c` is shown to `out`.
fn push_shown(o: &Options, c: char, out: &mut Vec<char>)
    ensures
        final(out)@ == old(out)@ + shown_char(*o, c),
{
    let code = c as u32;
    if o.show_nonprinting {
        if c == '\t' {
            if o.show_tabs {
                out.push('^');
                out.push('I');
            } else {
                out.push('\t');
            }
        } else if (code <= 0x1F || (0x7F <= code && code <= 0x9F)) && c != '\n' && c != '\r' {
            out.push('^');
            let shown = match char::from_u32(code ^ 0x40) {
                Some(x) => x,
                None => '?',
            };
            out.push(shown);
        } else if code >= 0x80 {
            if code < 0xA0 {
                out.push('M');
                out.push('-');
                out.push('^');
                let shown = match char::from_u32((code - 0x80) ^ 0x40) {
                    Some(x) => x,
                    None => '?',
                };
                out.push(shown);
            } else {
                out.push('M');
                out.push('-');
                let shown = match char::from_u32(code - 0x80) {
                    Some(x) => x,
                    None => '?',
                };
                out.push(shown);
            }
        } else {
            out.push(c);
        }
    } else if c == '\t' && o.show_tabs {
        out.push('^');
        out.push('I');
    } else {
        out.push(c);
    }
}

/// Whether the line is printed with a number (so that rendering it uses up a
/// line number).
pub fn takes_number(opts: &Options, state: &State, line: &str) -> (r: bool)
    ensures
        r == (is_numbered(*opts, line@) && !is_squeezed(*opts, *state, line@)),
{
    let blank = line.is_empty();
    let numbered = if opts.number_nonblank {
        !blank
    } else {
        opts.number_all
    };
    numbered && !(opts.squeeze_blank && blank && state.prev_blank)
}

/// Renders one input line (without its terminator) the way `cat` prints it,
/// and advances the numbering and squeezing state. `None` means that the line
/// is squeezed away and nothing is printed.
pub fn render_line(opts: &Options, state: &mut State, line: &str) -> (out: Option<String>)
    requires
        is_numbered(*opts, line@) && !is_squeezed(*opts, *old(state), line@)
            ==> old(state).line_number < u64::MAX,
    ensures
        opt_text(out) == rendered(*opts, *old(state), line@),
        *final(state) == next_state(*opts, *old(state), line@),
{
    let chars = chars_of(line);
    let is_blank = chars.len() == 0;
    if opts.squeeze_blank && is_blank {
        if state.prev_blank {
            return None;
        }
        state.prev_blank = true;
    } else {
        state.prev_blank = false;
    }
    let show_number = if opts.number_nonblank {
        !is_blank
    } else {
        opts.number_all
    };
    let mut buf: Vec<char> = Vec::new();
    if show_number {
        let digits = right_aligned_decimal(state.line_number, 6);
        let mut k: usize = 0;
        while k < digits.len()
            invariant
                k <= digits@.len(),
                buf@ == digits@.take(k as int),
            decreases digits@.len() - k,
        {
            buf.push(digits[k]);
            k += 1;
            assert(digits@.take(k as int) == digits@.take((k - 1) as int).push(digits@[k - 1]));
        }
        assert(digits@.take(digits@.len() as int) == digits@);
        buf.push('\t');
        state.line_number = state.line_number + 1;
    }
    let ghost head = buf@;
    let mut i: usize = 0;
    while i < chars.len()
        invariant
            i <= chars@.len(),
            buf@ == head + shown_text(*opts, chars@.take(i as int)),
        decreases chars@.len() - i,
    {
        let ghost before = buf@;
        push_shown(opts, chars[i], &mut buf);
        i += 1;
        assert(chars@.take(i as int).drop_last() == chars@.take((i - 1) as int));
        assert(buf@ == head + shown_text(*opts, chars@.take(i as int)));
    }
    assert(chars@.take(chars@.len() as int) == chars@);
    if opts.show_ends {
        buf.push('$');
    }
    buf.push('\n');
    Some(string_of(&buf))
}

/// With no option, every character is shown as it is.
pub proof fn lemma_plain_text_unchanged(line: Seq<char>)
    ensures
        shown_text(no_options(), line) == line,
    decreases line.len(),
{
    if line.len() > 0 {
        lemma_plain_text_unchanged(line.drop_last());
        assert(line.drop_last().push(line.last()) == line);
    }
}

/// Without options `cat` copies: each line is printed as it is, followed by a
/// newline, and no line number is used up.
pub proof fn lemma_plain_cat_copies(st: State, line: Seq<char>)
    ensures
        rendered(no_options(), st, line) == Some(line.push('\n')),
        next_state(no_options(), st, line).line_number == st.line_number,
{
    lemma_plain_text_unchanged(line);
    assert(seq![] + line + seq![] + seq!['\n'] =~= line.push('\n'));
}

/// With `-s`, of two blank lines in a row the second is never printed.
pub proof fn lemma_squeeze_drops_second_blank(o: Options, st: State)
    requires
        o.squeeze_blank,
    ensures
        rendered(o, next_state(o, st, seq![]), seq![]) is None,
{
}

/// With `-b`, a blank line gets no number and does not use one up, whatever `-n` says.
pub proof fn lemma_nonblank_numbering_skips_blank(o: Options, st: State)
    requires
        o.number_nonblank,
    ensures
        !is_numbered(o, seq![]),
        next_state(o, st, seq![]).line_number == st.line_number,
{
}

/// A printed line uses up exactly one line number when it is numbered, none otherwise.
pub proof fn lemma_numbers_count_numbered_lines(o: Options, st: State, line: Seq<char>)
    requires
        !is_squeezed(o, st, line),
        st.line_number < u64::MAX,
    ensures
        next_state(o, st, line).line_number as int == st.line_number as int + if is_numbered(o, line) {
            1int
        } else {
            0int
        },
{
}

/// `-A` means the same as `-vET`.
pub proof fn lemma_show_all_is_v_e_t(o: Options)
    ensures
        apply_flags(o, seq!['A']) == apply_flags(o, seq!['v', 'E', 'T']),
{
    reveal_with_fuel(apply_flags, 4);
    assert(seq!['A'].drop_first() =~= Seq::<char>::empty());
    assert(seq!['v', 'E', 'T'].drop_first() =~= seq!['E', 'T']);
    assert(seq!['E', 'T'].drop_first() =~= seq!['T']);
    assert(seq!['T'].drop_first() =~= Seq::<char>::empty());
}

/// The state after the lines `lines`, fed one by one from `st`.
pub open spec fn state_after(o: Options, st: State, lines: Seq<Seq<char>>) -> State
    decreases lines.len(),
{
    if lines.len() == 0 {
        st
    } else {
        next_state(o, state_after(o, st, lines.drop_last()), lines.last())
    }
}

/// The text printed for a line, empty when it is squeezed away.
pub open spec fn printed(r: Option<Seq<char>>) -> Seq<char> {
    match r {
        Some(t) => t,
        None => seq![],
    }
}

/// Everything printed for the lines `lines`, fed one by one from `st`.
pub open spec fn output_of(o: Options, st: State, lines: Seq<Seq<char>>) -> Seq<char>
    decreases lines.len(),
{
    if lines.len() == 0 {
        seq![]
    } else {
        output_of(o, st, lines.drop_last()) + printed(
            rendered(o, state_after(o, st, lines.drop_last()), lines.last()),
        )
    }
}

/// The lines that are printed (not squeezed away), in order.
pub open spec fn kept_lines(o: Options, st: State, lines: Seq<Seq<char>>) -> Seq<Seq<char>>
    decreases lines.len(),
{
    if lines.len() == 0 {
        seq![]
    } else {
        let k = kept_lines(o, st, lines.drop_last());
        if is_squeezed(o, state_after(o, st, lines.drop_last()), lines.last()) {
            k
        } else {
            k.push(lines.last())
        }
    }
}

/// Feeding the lines of two inputs one after the other, with the state
/// carried over, prints the same and ends in the same state as feeding the
/// lines of both at once: splitting the input between two reads changes nothing.
pub proof fn lemma_split_input_changes_nothing(o: Options, st: State, a: Seq<Seq<char>>, b: Seq<Seq<char>>)
    ensures
        state_after(o, st, a + b) == state_after(o, state_after(o, st, a), b),
        output_of(o, st, a + b) == output_of(o, st, a) + output_of(o, state_after(o, st, a), b),
    decreases b.len(),
{
    if b.len() == 0 {
        assert(a + b =~= a);
    } else {
        lemma_split_input_changes_nothing(o, st, a, b.drop_last());
        assert((a + b).drop_last() =~= a + b.drop_last());
        assert((a + b).last() == b.last());
    }
}

/// With `-s` over a whole input: the state remembers whether the last line
/// was blank, no two printed lines in a row are blank, and no printed line
/// is blank right after a blank line that came before the input.
pub proof fn lemma_squeeze_over_lines(o: Options, st: State, lines: Seq<Seq<char>>)
    requires
        o.squeeze_blank,
    ensures
        state_after(o, st, lines).prev_blank == if lines.len() == 0 {
            st.prev_blank
        } else {
            lines.last().len() == 0
        },
        forall|i: int|
            0 <= i < kept_lines(o, st, lines).len() - 1 ==> !(#[trigger] kept_lines(o, st, lines)[i].len() == 0
                && kept_lines(o, st, lines)[i + 1].len() == 0),
        st.prev_blank && kept_lines(o, st, lines).len() > 0 ==> kept_lines(o, st, lines)[0].len() != 0,
        (kept_lines(o, st, lines).len() > 0 && kept_lines(o, st, lines).last().len() == 0) || (
        kept_lines(o, st, lines).len() == 0 && st.prev_blank) ==> state_after(o, st, lines).prev_blank,
    decreases lines.len(),
{
    if lines.len() > 0 {
        let rest = lines.drop_last();
        lemma_squeeze_over_lines(o, st, rest);
        let k = kept_lines(o, st, rest);
        let s1 = state_after(o, st, rest);
        let l = lines.last();
        if !is_squeezed(o, s1, l) {
            let k2 = k.push(l);
            assert forall|i: int| 0 <= i < k2.len() - 1 implies !(#[trigger] k2[i].len() == 0 && k2[i + 1].len() == 0) by {
                if i < k.len() - 1 {
                    assert(k2[i] == k[i] && k2[i + 1] == k[i + 1]);
                } else {
                    assert(k2[i] == k.last());
                }
            }
            if k.len() > 0 {
                assert(k2[0] == k[0]);
            }
        }
    }
}

/// With `-s`, a line of an input is dropped exactly when it is blank and the
/// line before it (or, for the first line, the last line before the input)
/// was blank.
pub proof fn lemma_squeezed_lines(o: Options, st: State, lines: Seq<Seq<char>>, i: int)
    requires
        o.squeeze_blank,
        0 <= i < lines.len(),
    ensures
        is_squeezed(o, state_after(o, st, lines.take(i)), lines[i]) <==> lines[i].len() == 0 && if i == 0 {
            st.prev_blank
        } else {
            lines[i - 1].len() == 0
        },
{
    lemma_squeeze_over_lines(o, st, lines.take(i));
    if i > 0 {
        assert(lines.take(i).last() == lines[i - 1]);
    }
}

/// With `-T` (also through `-A` and `-t`) a tab is shown as `^I`, whatever
/// else is on, and no tab is left in the shown text of any line.
pub proof fn lemma_tabs_shown_as_caret_i(o: Options, line: Seq<char>)
    requires
        o.show_tabs,
    ensures
        shown_char(o, '\t') == seq!['^', 'I'],
        forall|k: int| 0 <= k < shown_text(o, line).len() ==> shown_text(o, line)[k] != '\t',
    decreases line.len(),
{
    if line.len() > 0 {
        lemma_tabs_shown_as_caret_i(o, line.drop_last());
        let c = line.last();
        let x = c as u32;
        if o.show_nonprinting && c != '\t' && is_control(c) && c != '\n' && c != '\r' {
            assert(x <= 0x1F || (0x7F <= x && x <= 0x9F));
            assert(x <= 0x1F ==> x ^ 0x40u32 >= 0x40) by (bit_vector);
            assert((0x7F <= x && x <= 0x9F) ==> (x ^ 0x40u32 == 0x3F || x ^ 0x40u32 >= 0xC0)) by (bit_vector);
        } else if o.show_nonprinting && c != '\t' && x >= 0x80 {
            if x < 0xA0 {
                assert((0x80 <= x && x < 0xA0) ==> ((x - 0x80u32) as u32 ^ 0x40u32) >= 0x40) by (bit_vector);
            } else {
                assert(((x - 0x80u32) as u32) >= 0x20);
            }
        }
        let t = shown_text(o, line);
        let a = shown_text(o, line.drop_last());
        let b = shown_char(o, c);
        assert(t == a + b);
        assert forall|k: int| 0 <= k < t.len() implies t[k] != '\t' by {
            if k >= a.len() {
                assert(t[k] == b[k - a.len()]);
            }
        }
    }
}


/// With `-E` every printed line ends with `$` and a newline; every printed
/// line ends with a newline.
pub proof fn lemma_printed_line_ends(o: Options, st: State, line: Seq<char>)
    requires
        !is_squeezed(o, st, line),
    ensures
        rendered(o, st, line) is Some,
        ({
            let t = rendered(o, st, line)->0;
            &&& t.len() >= 1
            &&& t[t.len() - 1] == '\n'
            &&& o.show_ends ==> t.len() >= 2 && t[t.len() - 2] == '$'
        }),
{
    let t = rendered(o, st, line)->0;
    let front = (if is_numbered(o, line) { number_prefix(st.line_number) } else { seq![] }) + shown_text(o, line);
    if o.show_ends {
        assert(t =~= front + seq!['$', '\n']);
    } else {
        assert(t =~= front + seq!['\n']);
    }
}

/// Below `10^k` a number has at most `k` digits.
proof fn lemma_decimal_len_bound(n: nat, k: nat, p: nat)
    requires
        k >= 1,
        p == pow10(k),
        n < p,
    ensures
        decimal(n).len() <= k,
    decreases k,
{
    if n >= 10 {
        if k == 1 {
            assert(pow10(1) == 10 * pow10(0));
        }
        assert(p == 10 * pow10((k - 1) as nat));
        let q = pow10((k - 1) as nat);
        assert(n / 10 < q) by (nonlinear_arith)
            requires
                n < 10 * q,
        ;
        lemma_decimal_len_bound(n / 10, (k - 1) as nat, q);
    }
}

/// `10` to the power `k`.
pub open spec fn pow10(k: nat) -> nat
    decreases k,
{
    if k == 0 {
        1
    } else {
        10 * pow10((k - 1) as nat)
    }
}

/// A numbered line starts with its number right-aligned in six columns
/// (spaces, then the decimal digits) and a tab, for numbers below a million.
pub proof fn lemma_numbered_line_layout(o: Options, st: State, line: Seq<char>)
    requires
        !is_squeezed(o, st, line),
        is_numbered(o, line),
        st.line_number < 1000000,
    ensures
        rendered(o, st, line) is Some,
        ({
            let t = rendered(o, st, line)->0;
            let d = decimal(st.line_number as nat);
            &&& d.len() <= 6
            &&& t.len() >= 7
            &&& t[6] == '\t'
            &&& t.take(6) == Seq::new((6 - d.len()) as nat, |i: int| ' ') + d
        }),
{
    reveal_with_fuel(pow10, 7);
    lemma_decimal_len_bound(st.line_number as nat, 6, pow10(6));
    let d = decimal(st.line_number as nat);
    let pre = number_prefix(st.line_number);
    assert(pre =~= Seq::new((6 - d.len()) as nat, |i: int| ' ') + d + seq!['\t']);
    let t = rendered(o, st, line)->0;
    let rest = shown_text(o, line) + (if o.show_ends { seq!['$'] } else { seq![] }) + seq!['\n'];
    assert(t =~= pre + rest);
    assert(t.take(6) =~= Seq::new((6 - d.len()) as nat, |i: int| ' ') + d);
}

/// How characters are shown: with `-v`, a control character other than tab,
/// newline and carriage return, below space or in `0x80..0xA0`, as `^` and
/// the character `0x40` above it, DEL as `^?`, the rest of Latin-1 as `M-`
/// and the character `0x80` below, printable ASCII as itself; without `-v`
/// every character but a tab is shown as itself, and a tab as itself unless
/// `-T` is given.
pub proof fn lemma_nonprinting_notation(o: Options, c: char)
    ensures
        o.show_nonprinting && (c as u32) < 0x20 && c != '\t' && c != '\n' && c != '\r' ==> shown_char(o, c)
            == seq!['^', (((c as u32) + 0x40) as u32) as char],
        o.show_nonprinting && (c as u32) == 0x7F ==> shown_char(o, c) == seq!['^', '?'],
        o.show_nonprinting && 0x80 <= (c as u32) < 0xA0 ==> shown_char(o, c) == seq![
            '^',
            (((c as u32) + 0x40) as u32) as char,
        ],
        o.show_nonprinting && 0xA0 <= (c as u32) < 0x100 ==> shown_char(o, c) == seq![
            'M',
            '-',
            (((c as u32) - 0x80) as u32) as char,
        ],
        o.show_nonprinting && 0x20 <= (c as u32) < 0x7F ==> shown_char(o, c) == seq![c],
        !o.show_nonprinting && c != '\t' ==> shown_char(o, c) == seq![c],
        !o.show_tabs ==> shown_char(o, '\t') == seq!['\t'],
{
    let x = c as u32;
    if x < 0x20 {
        assert(x < 0x20 ==> x ^ 0x40u32 == x + 0x40) by (bit_vector);
    }
    if x == 0x7F {
        assert(x == 0x7F ==> x ^ 0x40u32 == 0x3F) by (bit_vector);
        assert((0x3Fu32) as char == '?');
    }
    if 0x80 <= x < 0xA0 {
        assert((0x80 <= x && x < 0xA0) ==> x ^ 0x40u32 == x + 0x40) by (bit_vector);
    }
}


/// The characters of a line are shown one by one: the shown text of two
/// pieces is the shown text of the first followed by that of the second,
/// and a single character is shown as `shown_char` says.
pub proof fn lemma_shown_text_concat(o: Options, a: Seq<char>, b: Seq<char>)
    ensures
        shown_text(o, a + b) == shown_text(o, a) + shown_text(o, b),
        forall|c: char| #[trigger] shown_text(o, seq![c]) == shown_char(o, c),
    decreases b.len(),
{
    assert forall|c: char| #[trigger] shown_text(o, seq![c]) == shown_char(o, c) by {
        assert(seq![c].drop_last() =~= Seq::<char>::empty());
        assert(shown_text(o, Seq::<char>::empty()) == Seq::<char>::empty());
        assert(shown_text(o, seq![c]) =~= shown_char(o, c));
    }
    if b.len() == 0 {
        assert(a + b =~= a);
        assert(shown_text(o, a) + shown_text(o, b) =~= shown_text(o, a));
    } else {
        lemma_shown_text_concat(o, a, b.drop_last());
        assert((a + b).drop_last() =~= a + b.drop_last());
        assert((a + b).last() == b.last());
        assert(shown_text(o, a + b) =~= shown_text(o, a) + shown_text(o, b));
    }
}

/// A printed line without a number is its shown text, then `$` with `-E`,
/// then a newline.
pub proof fn lemma_unnumbered_line(o: Options, st: State, line: Seq<char>)
    requires
        !is_squeezed(o, st, line),
        !is_numbered(o, line),
    ensures
        rendered(o, st, line) == Some(shown_text(o, line) + (if o.show_ends { seq!['$', '\n'] } else { seq!['\n'] })),
{
    let t = rendered(o, st, line)->0;
    if o.show_ends {
        assert(t =~= shown_text(o, line) + seq!['$', '\n']);
    } else {
        assert(t =~= shown_text(o, line) + seq!['\n']);
    }
}

} // verus!
