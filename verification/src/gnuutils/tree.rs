//! `tree`: option parsing, the order in which directory entries are listed,
//! and the text drawn in front of each entry.
//!
//! Reading directories is left to the caller: for each directory it hands
//! the entries (raw names and whether each is a directory) to [`listing`],
//! prints the lines it gets back and descends into the entries that have a
//! child prefix, as long as [`within_depth`] allows.

use crate::bytes::{bytes_less, bytes_lt, lemma_bytes_lt_first_difference, lemma_bytes_lt_irreflexive, lemma_bytes_lt_total, lemma_bytes_lt_transitive, bytes_equal};
use crate::decimal::{parse_usize, parsed_usize};
use crate::text::{chars_of, opt_text, same_chars, string_of, views};
use vstd::prelude::*;

verus! {

/// The options of `tree`.
#[derive(Clone, Copy, Debug, PartialEq, Eq)]
pub struct Options {
    /// `-a`: list hidden entries too.
    pub all: bool,
    /// `-d`: list directories only.
    pub dirs_only: bool,
    /// `-L`: how many levels are listed at most (the entries of a directory
    /// named on the command line are the first level).
    pub max_depth: Option<usize>,
}

/// No option given.
pub open spec fn default_options() -> Options {
    Options { all: false, dirs_only: false, max_depth: None }
}

/// What a command line of `tree` asks for.
pub enum Command {
    /// `-h` or `--help`: print the usage.
    Help,
    /// `-L` was the last argument.
    MissingLevel,
    /// The level given to `-L` is not a number.
    InvalidLevel(String),
    /// List these directories with these options.
    Run(Options, Vec<String>),
}

/// The meaning of a [`Command`], with strings taken as their text.
pub enum CommandView {
    Help,
    MissingLevel,
    InvalidLevel(Seq<char>),
    Run(Options, Seq<Seq<char>>),
}

impl View for Command {
    type V = CommandView;

    open spec fn view(&self) -> CommandView {
        match self {
            Command::Help => CommandView::Help,
            Command::MissingLevel => CommandView::MissingLevel,
            Command::InvalidLevel(s) => CommandView::InvalidLevel(s@),
            Command::Run(o, dirs) => CommandView::Run(*o, views(dirs@)),
        }
    }
}

/// Whether `a` is `-` followed by the letter `l`.
pub open spec fn is_short(a: Seq<char>, l: char) -> bool {
    a == seq!['-', l]
}

/// Whether `a` is `--help`.
pub open spec fn is_long_help(a: Seq<char>) -> bool {
    a == seq!['-', '-', 'h', 'e', 'l', 'p']
}

/// Reading the command line from the `i`-th argument on, with the options
/// and directories gathered so far.
pub open spec fn parse_from(args: Seq<Seq<char>>, i: int, o: Options, dirs: Seq<Seq<char>>) -> CommandView
    decreases args.len() - i,
{
    if i < 0 || i >= args.len() {
        CommandView::Run(o, dirs)
    } else {
        let a = args[i];
        if is_short(a, 'a') {
            parse_from(args, i + 1, Options { all: true, ..o }, dirs)
        } else if is_short(a, 'd') {
            parse_from(args, i + 1, Options { dirs_only: true, ..o }, dirs)
        } else if is_short(a, 'L') {
            if i + 1 >= args.len() {
                CommandView::MissingLevel
            } else {
                match parsed_usize(args[i + 1]) {
                    Some(v) => parse_from(args, i + 2, Options { max_depth: Some(v), ..o }, dirs),
                    None => CommandView::InvalidLevel(args[i + 1]),
                }
            }
        } else if is_short(a, 'h') || is_long_help(a) {
            CommandView::Help
        } else if a == seq!['-', '-'] {
            CommandView::Run(o, dirs + args.subrange(i + 1, args.len() as int))
        } else if a.len() >= 2 && a[0] == '-' && a[1] == 'L' {
            match parsed_usize(a.skip(2)) {
                Some(v) => parse_from(args, i + 1, Options { max_depth: Some(v), ..o }, dirs),
                None => CommandView::InvalidLevel(a.skip(2)),
            }
        } else if a.len() > 0 && a[0] == '-' {
            parse_from(args, i + 1, o, dirs)
        } else {
            parse_from(args, i + 1, o, dirs.push(a))
        }
    }
}

/// What a command line of `tree` means: unknown options are ignored, and the
/// current directory `.` is listed when no directory is named.
pub open spec fn parsed_command(args: Seq<Seq<char>>) -> CommandView {
    match parse_from(args, 0, default_options(), seq![]) {
        CommandView::Run(o, dirs) => CommandView::Run(
            o,
            if dirs.len() == 0 { seq![seq!['.']] } else { dirs },
        ),
        other => other,
    }
}

/// Reads the command line of `tree`.
pub fn parse_args(args: &[String]) -> (r: Command)
    ensures
        r@ == parsed_command(views(args@)),
{
    let ghost all = views(args@);
    let mut o = Options { all: false, dirs_only: false, max_depth: None };
    let mut dirs: Vec<String> = Vec::new();
    let mut i: usize = 0;
    assert(views(dirs@) =~= seq![]);
    let dash_a = vec!['-', 'a'];
    let dash_d = vec!['-', 'd'];
    let dash_l = vec!['-', 'L'];
    let dash_h = vec!['-', 'h'];
    let long_help = vec!['-', '-', 'h', 'e', 'l', 'p'];
    let dash_dash = vec!['-', '-'];
    while i < args.len()
        invariant
            i <= args@.len(),
            all == views(args@),
            dash_a@ == seq!['-', 'a'],
            dash_d@ == seq!['-', 'd'],
            dash_l@ == seq!['-', 'L'],
            dash_h@ == seq!['-', 'h'],
            long_help@ == seq!['-', '-', 'h', 'e', 'l', 'p'],
            dash_dash@ == seq!['-', '-'],
            parse_from(all, 0, default_options(), seq![]) == parse_from(all, i as int, o, views(dirs@)),
        decreases args@.len() - i,
    {
        let a = chars_of(args[i].as_str());
        assert(all[i as int] == a@);
        if same_chars(&a, &dash_a) {
            o.all = true;
            i += 1;
        } else if same_chars(&a, &dash_d) {
            o.dirs_only = true;
            i += 1;
        } else if same_chars(&a, &dash_l) {
            if i + 1 >= args.len() {
                return Command::MissingLevel;
            }
            let level = chars_of(args[i + 1].as_str());
            assert(all[i + 1] == level@);
            match parse_usize(&level) {
                Some(v) => {
                    o.max_depth = Some(v);
                    i += 2;
                },
                None => {
                    return Command::InvalidLevel(args[i + 1].clone());
                },
            }
        } else if same_chars(&a, &dash_h) || same_chars(&a, &long_help) {
            return Command::Help;
        } else if same_chars(&a, &dash_dash) {
            let ghost before = views(dirs@);
            let mut j = i + 1;
            while j < args.len()
                invariant
                    i < j <= args@.len(),
                    all == views(args@),
                    views(dirs@) == before + all.subrange(i + 1, j as int),
                decreases args@.len() - j,
            {
                let ghost prev = views(dirs@);
                dirs.push(args[j].clone());
                assert(views(dirs@) =~= prev.push(all[j as int]));
                assert(all.subrange(i + 1, j + 1) =~= all.subrange(i + 1, j as int).push(all[j as int]));
                j += 1;
            }
            return finish(o, dirs);
        } else if a.len() >= 2 && a[0] == '-' && a[1] == 'L' {
            let mut rest: Vec<char> = Vec::new();
            let mut k: usize = 2;
            while k < a.len()
                invariant
                    2 <= k <= a@.len(),
                    rest@ == a@.subrange(2, k as int),
                decreases a@.len() - k,
            {
                rest.push(a[k]);
                k += 1;
                assert(rest@ =~= a@.subrange(2, k as int));
            }
            assert(rest@ == a@.skip(2));
            match parse_usize(&rest) {
                Some(v) => {
                    o.max_depth = Some(v);
                },
                None => {
                    return Command::InvalidLevel(string_of(&rest));
                },
            }
            i += 1;
        } else if a.len() > 0 && a[0] == '-' {
            i += 1;
        } else {
            let ghost before = views(dirs@);
            dirs.push(args[i].clone());
            assert(views(dirs@) =~= before.push(all[i as int]));
            i += 1;
        }
    }
    finish(o, dirs)
}

/// The command to list `dirs`, or `.` when there is none.
fn finish(o: Options, dirs: Vec<String>) -> (r: Command)
    ensures
        r@ == CommandView::Run(o, if dirs@.len() == 0 { seq![seq!['.']] } else { views(dirs@) }),
{
    let mut dirs = dirs;
    if dirs.len() == 0 {
        let mut dot = String::new();
        dot.push('.');
        dirs.push(dot);
        assert(views(dirs@) =~= seq![seq!['.']]);
    }
    Command::Run(o, dirs)
}

/// What comes before the listing of the `index`-th of `count` directories
/// named on the command line: a blank line, for all but the first, and the
/// directory's name, when there are several.
pub fn heading(index: usize, count: usize) -> (r: (bool, bool))
    ensures
        r == (index > 0, count > 1),
{
    (index > 0, count > 1)
}

/// Whether the entries of a directory at `depth` (the top level is 0) are
/// listed: with `-L m`, only for depths below `m`, so that at most `m` levels
/// of entries are shown.
pub open spec fn is_within_depth(o: Options, depth: nat) -> bool {
    match o.max_depth {
        Some(m) => depth < m,
        None => true,
    }
}

/// Whether the entries of a directory at `depth` (a directory named on the
/// command line is at depth 0, its entries at level 1) are listed: only when
/// they are within the number of levels given by `-L`.
pub fn within_depth(o: &Options, depth: usize) -> (r: bool)
    ensures
        r == is_within_depth(*o, depth as nat),
{
    match o.max_depth {
        Some(m) => depth < m,
        None => true,
    }
}

/// A directory entry as `tree` sees it: its raw name and whether it is a directory.
pub struct Entry {
    pub name: Vec<u8>,
    pub is_dir: bool,
}

/// Whether a name is hidden: it starts with `.`.
pub open spec fn is_hidden(name: Seq<u8>) -> bool {
    name.len() > 0 && name[0] == 0x2Eu8
}

/// Whether the `i`-th entry is listed before the `j`-th: entries that are not
/// hidden come first, then names go in byte order, and entries with equal keys
/// keep their order (the sort is stable).
pub open spec fn listed_before(es: Seq<Entry>, i: int, j: int) -> bool {
    let a = es[i].name@;
    let b = es[j].name@;
    if is_hidden(a) != is_hidden(b) {
        !is_hidden(a)
    } else if a != b {
        bytes_lt(a, b)
    } else {
        i < j
    }
}

/// Whether `order` lists every entry of `es` exactly once, in the listing order.
pub open spec fn is_sorted_order(es: Seq<Entry>, order: Seq<usize>) -> bool {
    &&& order.len() == es.len()
    &&& forall|k: int| 0 <= k < order.len() ==> #[trigger] order[k] < es.len()
    &&& forall|x: int, y: int|
        0 <= x < y < order.len() ==> listed_before(es, #[trigger] order[x] as int, #[trigger] order[y] as int)
    &&& forall|m: usize| m < es.len() ==> #[trigger] order.contains(m)
}

/// No entry is listed before itself.
pub proof fn lemma_listed_before_irreflexive(es: Seq<Entry>, i: int)
    ensures
        !listed_before(es, i, i),
{
}

/// The listing order is transitive.
pub proof fn lemma_listed_before_transitive(es: Seq<Entry>, i: int, j: int, k: int)
    requires
        listed_before(es, i, j),
        listed_before(es, j, k),
    ensures
        listed_before(es, i, k),
{
    let (a, b, c) = (es[i].name@, es[j].name@, es[k].name@);
    if is_hidden(a) == is_hidden(b) && is_hidden(b) == is_hidden(c) {
        if a != b && b != c {
            lemma_bytes_lt_transitive(a, b, c);
            if a == c {
                lemma_bytes_lt_transitive(a, b, a);
                lemma_bytes_lt_irreflexive(a);
            }
        }
    }
}

/// Of two different entries, one is listed before the other.
pub proof fn lemma_listed_before_total(es: Seq<Entry>, i: int, j: int)
    requires
        i != j,
    ensures
        listed_before(es, i, j) || listed_before(es, j, i),
{
    let (a, b) = (es[i].name@, es[j].name@);
    if a != b {
        lemma_bytes_lt_total(a, b);
    }
}

/// No two entries are each listed before the other.
pub proof fn lemma_listed_before_asymmetric(es: Seq<Entry>, i: int, j: int)
    requires
        listed_before(es, i, j),
    ensures
        !listed_before(es, j, i),
{
    let (a, b) = (es[i].name@, es[j].name@);
    if is_hidden(a) == is_hidden(b) && a != b && bytes_lt(b, a) {
        lemma_bytes_lt_transitive(a, b, a);
        lemma_bytes_lt_irreflexive(a);
    }
}

/// Whether the `a`-th entry is listed before the `b`-th.
fn entry_before(es: &Vec<Entry>, a: usize, b: usize) -> (r: bool)
    requires
        a < es@.len(),
        b < es@.len(),
    ensures
        r == listed_before(es@, a as int, b as int),
{
    let na = &es[a].name;
    let nb = &es[b].name;
    let ha = na.len() > 0 && na[0] == 0x2Eu8;
    let hb = nb.len() > 0 && nb[0] == 0x2Eu8;
    if ha != hb {
        !ha
    } else if !bytes_equal(na.as_slice(), nb.as_slice()) {
        bytes_less(na.as_slice(), nb.as_slice())
    } else {
        a < b
    }
}

/// The positions of the entries in listing order: entries that are not hidden
/// first, then by name in byte order, keeping the given order among equal keys.
pub fn sorted_order(es: &Vec<Entry>) -> (order: Vec<usize>)
    ensures
        is_sorted_order(es@, order@),
{
    let n = es.len();
    let mut order: Vec<usize> = Vec::new();
    let mut i: usize = 0;
    while i < n
        invariant
            n == es@.len(),
            i <= n,
            order@.len() == i,
            forall|k: int| 0 <= k < order@.len() ==> #[trigger] order@[k] < i,
            forall|x: int, y: int|
                0 <= x < y < order@.len() ==> listed_before(es@, #[trigger] order@[x] as int, #[trigger] order@[y] as int),
            forall|m: usize| m < i ==> #[trigger] order@.contains(m),
        decreases n - i,
    {
        let mut p: usize = 0;
        while p < order.len() && entry_before(es, order[p], i)
            invariant
                n == es@.len(),
                i < n,
                p <= order@.len(),
                forall|k: int| 0 <= k < order@.len() ==> #[trigger] order@[k] < i,
                forall|q: int| 0 <= q < p ==> listed_before(es@, #[trigger] order@[q] as int, i as int),
            decreases order@.len() - p,
        {
            p += 1;
        }
        let ghost old_order = order@;
        order.insert(p, i);
        assert(order@ == old_order.insert(p as int, i));
        assert forall|k: int| 0 <= k < order@.len() implies #[trigger] order@[k] < i + 1 by {
            if k < p {
                assert(order@[k] == old_order[k]);
            } else if k > p {
                assert(order@[k] == old_order[k - 1]);
            }
        }
        assert forall|x: int, y: int| 0 <= x < y < order@.len() implies listed_before(
            es@,
            #[trigger] order@[x] as int,
            #[trigger] order@[y] as int,
        ) by {
            if p < old_order.len() {
                assert(!listed_before(es@, old_order[p as int] as int, i as int));
                lemma_listed_before_total(es@, old_order[p as int] as int, i as int);
            }
            if x < p && y < p {
                assert(order@[x] == old_order[x]);
                assert(order@[y] == old_order[y]);
            } else if x < p && y == p {
                assert(order@[x] == old_order[x]);
            } else if x < p && y > p {
                assert(order@[x] == old_order[x]);
                assert(order@[y] == old_order[y - 1]);
            } else if x == p {
                assert(order@[y] == old_order[y - 1]);
                if y - 1 > p {
                    lemma_listed_before_transitive(es@, i as int, old_order[p as int] as int, old_order[y - 1] as int);
                }
            } else {
                assert(order@[x] == old_order[x - 1]);
                assert(order@[y] == old_order[y - 1]);
            }
        }
        assert forall|m: usize| m < i + 1 implies #[trigger] order@.contains(m) by {
            if m == i {
                assert(order@[p as int] == i);
            } else {
                assert(old_order.contains(m));
                let w = choose|w: int| 0 <= w < old_order.len() && old_order[w] == m;
                if w < p {
                    assert(order@[w] == m);
                } else {
                    assert(order@[w + 1] == m);
                }
            }
        }
        i += 1;
    }
    order
}

/// Two sequences of entry positions, each in strict listing order and holding
/// the same positions, are the same sequence.
proof fn lemma_strictly_ordered_equal(es: Seq<Entry>, a: Seq<usize>, b: Seq<usize>)
    requires
        forall|x: int, y: int| 0 <= x < y < a.len() ==> listed_before(es, #[trigger] a[x] as int, #[trigger] a[y] as int),
        forall|x: int, y: int| 0 <= x < y < b.len() ==> listed_before(es, #[trigger] b[x] as int, #[trigger] b[y] as int),
        forall|m: usize| #![trigger a.contains(m)] #![trigger b.contains(m)] a.contains(m) <==> b.contains(m),
    ensures
        a == b,
    decreases a.len(),
{
    if a.len() == 0 {
        if b.len() > 0 {
            assert(b.contains(b[0]));
        }
        assert(b =~= a);
    } else {
        assert(a.contains(a[0]));
        assert(b.len() > 0);
        assert(b.contains(b[0]));
        assert(a.contains(b[0]));
        assert(b.contains(a[0]));
        let p = choose|p: int| 0 <= p < a.len() && a[p] == b[0];
        let q = choose|q: int| 0 <= q < b.len() && b[q] == a[0];
        if a[0] != b[0] {
            assert(listed_before(es, a[0] as int, a[p] as int));
            assert(listed_before(es, b[0] as int, b[q] as int));
            lemma_listed_before_asymmetric(es, a[0] as int, b[0] as int);
        }
        let a1 = a.drop_first();
        let b1 = b.drop_first();
        assert forall|m: usize| #![trigger a1.contains(m)] #![trigger b1.contains(m)] a1.contains(m) <==> b1.contains(m) by {
            if a1.contains(m) {
                let w = choose|w: int| 0 <= w < a1.len() && a1[w] == m;
                assert(a[w + 1] == m);
                assert(listed_before(es, a[0] as int, a[w + 1] as int));
                assert(m != a[0]);
                assert(a.contains(m));
                let v = choose|v: int| 0 <= v < b.len() && b[v] == m;
                assert(v != 0);
                assert(b1[v - 1] == m);
            }
            if b1.contains(m) {
                let w = choose|w: int| 0 <= w < b1.len() && b1[w] == m;
                assert(b[w + 1] == m);
                assert(listed_before(es, b[0] as int, b[w + 1] as int));
                assert(m != b[0]);
                assert(b.contains(m));
                let v = choose|v: int| 0 <= v < a.len() && a[v] == m;
                assert(v != 0);
                assert(a1[v - 1] == m);
            }
        }
        assert forall|x: int, y: int| 0 <= x < y < a1.len() implies listed_before(es, #[trigger] a1[x] as int, #[trigger] a1[y] as int) by {
            assert(a1[x] == a[x + 1] && a1[y] == a[y + 1]);
        }
        assert forall|x: int, y: int| 0 <= x < y < b1.len() implies listed_before(es, #[trigger] b1[x] as int, #[trigger] b1[y] as int) by {
            assert(b1[x] == b[x + 1] && b1[y] == b[y + 1]);
        }
        lemma_strictly_ordered_equal(es, a1, b1);
        assert(a =~= seq![a[0]] + a1);
        assert(b =~= seq![b[0]] + b1);
    }
}

/// The listing order of a list of entries is unique: two orders that each
/// list every entry once, in listing order, are the same.
pub proof fn lemma_sorted_order_unique(es: Seq<Entry>, a: Seq<usize>, b: Seq<usize>)
    requires
        is_sorted_order(es, a),
        is_sorted_order(es, b),
    ensures
        a == b,
{
    assert forall|m: usize| #![trigger a.contains(m)] #![trigger b.contains(m)] a.contains(m) <==> b.contains(m) by {
        if a.contains(m) {
            let w = choose|w: int| 0 <= w < a.len() && a[w] == m;
            assert(a[w] < es.len());
        }
        if b.contains(m) {
            let w = choose|w: int| 0 <= w < b.len() && b[w] == m;
            assert(b[w] < es.len());
        }
    }
    lemma_strictly_ordered_equal(es, a, b);
}

/// Whether an entry is listed with these options: hidden entries only with
/// `-a`, and only directories with `-d`.
pub open spec fn is_shown(o: Options, e: Entry) -> bool {
    (o.all || !is_hidden(e.name@)) && (!o.dirs_only || e.is_dir)
}

/// The positions in `order` of the entries that are listed, in that order.
pub open spec fn shown_in_order(es: Seq<Entry>, o: Options, order: Seq<usize>) -> Seq<usize>
    decreases order.len(),
{
    if order.len() == 0 {
        seq![]
    } else {
        let v = shown_in_order(es, o, order.drop_last());
        if is_shown(o, es[order.last() as int]) {
            v.push(order.last())
        } else {
            v
        }
    }
}

/// The branch drawn in front of an entry: `└── ` for the last one, else `├── `.
pub open spec fn connector(last: bool) -> Seq<char> {
    if last {
        seq!['\u{2514}', '\u{2500}', '\u{2500}', ' ']
    } else {
        seq!['\u{251C}', '\u{2500}', '\u{2500}', ' ']
    }
}

/// What the lines below an entry continue with: spaces below the last one,
/// else `│   `.
pub open spec fn extension(last: bool) -> Seq<char> {
    if last {
        seq![' ', ' ', ' ', ' ']
    } else {
        seq!['\u{2502}', ' ', ' ', ' ']
    }
}

/// One line of a listing: the entry it names, the text printed before the
/// name, and, for a directory, the prefix of the lines listed inside it.
pub struct Line {
    pub entry: usize,
    pub lead: String,
    pub child_prefix: Option<String>,
}

/// Whether `line` is the `k`-th line of a listing of the entries at positions `shown`.
pub open spec fn is_line(es: Seq<Entry>, prefix: Seq<char>, shown: Seq<usize>, k: int, line: Line) -> bool {
    let last = k == shown.len() - 1;
    &&& line.entry == shown[k]
    &&& line.lead@ == prefix + connector(last)
    &&& opt_text(line.child_prefix) == if es[shown[k] as int].is_dir {
        Some(prefix + extension(last))
    } else {
        None
    }
}

/// Whether `lines` is the listing of the entries `es` under `prefix`: one line
/// per listed entry, in listing order.
pub open spec fn is_listing(es: Seq<Entry>, o: Options, prefix: Seq<char>, lines: Seq<Line>) -> bool {
    exists|order: Seq<usize>|
        {
            &&& is_sorted_order(es, order)
            &&& lines.len() == shown_in_order(es, o, order).len()
            &&& forall|k: int|
                0 <= k < lines.len() ==> is_line(es, prefix, shown_in_order(es, o, order), k, #[trigger] lines[k])
        }
}

/// Appends the characters of `b` to `a`.
fn extend_chars(a: &mut Vec<char>, b: &Vec<char>)
    ensures
        final(a)@ == old(a)@ + b@,
{
    let mut i: usize = 0;
    let ghost start = a@;
    while i < b.len()
        invariant
            i <= b@.len(),
            a@ == start + b@.take(i as int),
        decreases b@.len() - i,
    {
        a.push(b[i]);
        i += 1;
        assert(b@.take(i as int) == b@.take((i - 1) as int).push(b@[i - 1]));
    }
    assert(b@.take(b@.len() as int) == b@);
}

/// The lines listing the entries of one directory under `prefix`: the entries
/// that are shown, in listing order, each with its branch, and directories
/// with the prefix of the lines inside them.
pub fn listing(es: &Vec<Entry>, prefix: &str, o: &Options) -> (lines: Vec<Line>)
    ensures
        is_listing(es@, *o, prefix@, lines@),
{
    let order = sorted_order(es);
    let mut shown: Vec<usize> = Vec::new();
    let mut k: usize = 0;
    while k < order.len()
        invariant
            is_sorted_order(es@, order@),
            k <= order@.len(),
            shown@ == shown_in_order(es@, *o, order@.take(k as int)),
            forall|m: int| 0 <= m < shown@.len() ==> #[trigger] shown@[m] < es@.len(),
        decreases order@.len() - k,
    {
        let idx = order[k];
        assert(order@.take(k + 1).drop_last() == order@.take(k as int));
        assert(order@.take(k + 1).last() == idx);
        let e = &es[idx];
        let hidden = e.name.len() > 0 && e.name[0] == 0x2Eu8;
        if (o.all || !hidden) && (!o.dirs_only || e.is_dir) {
            shown.push(idx);
        }
        k += 1;
    }
    assert(order@.take(order@.len() as int) == order@);
    let pre = chars_of(prefix);
    let mut lines: Vec<Line> = Vec::new();
    let mut j: usize = 0;
    while j < shown.len()
        invariant
            is_sorted_order(es@, order@),
            shown@ == shown_in_order(es@, *o, order@),
            pre@ == prefix@,
            j <= shown@.len(),
            lines@.len() == j,
            forall|m: int| 0 <= m < shown@.len() ==> #[trigger] shown@[m] < es@.len(),
            forall|m: int| 0 <= m < j ==> is_line(es@, prefix@, shown@, m, #[trigger] lines@[m]),
        decreases shown@.len() - j,
    {
        let last = j == shown.len() - 1;
        let mut lead = pre.clone();
        let branch = if last {
            vec!['\u{2514}', '\u{2500}', '\u{2500}', ' ']
        } else {
            vec!['\u{251C}', '\u{2500}', '\u{2500}', ' ']
        };
        extend_chars(&mut lead, &branch);
        let idx = shown[j];
        let child_prefix = if es[idx].is_dir {
            let mut c = pre.clone();
            let ext = if last {
                vec![' ', ' ', ' ', ' ']
            } else {
                vec!['\u{2502}', ' ', ' ', ' ']
            };
            extend_chars(&mut c, &ext);
            Some(string_of(&c))
        } else {
            None
        };
        lines.push(Line { entry: idx, lead: string_of(&lead), child_prefix });
        j += 1;
    }
    lines
}

/// In the listing order every entry that is not hidden comes before every
/// hidden entry.
pub proof fn lemma_hidden_entries_come_last(es: Seq<Entry>, order: Seq<usize>, x: int, y: int)
    requires
        is_sorted_order(es, order),
        0 <= x < order.len(),
        0 <= y < order.len(),
        !is_hidden(es[order[x] as int].name@),
        is_hidden(es[order[y] as int].name@),
    ensures
        x < y,
{
    if y < x {
        assert(listed_before(es, order[y] as int, order[x] as int));
    }
}

/// Every entry that is listed passes the options: no hidden entry without
/// `-a`, and only directories with `-d`; and it is one of the entries.
pub proof fn lemma_listed_entries_are_shown(es: Seq<Entry>, o: Options, order: Seq<usize>)
    ensures
        forall|k: int|
            0 <= k < shown_in_order(es, o, order).len() ==> is_shown(o, es[#[trigger] shown_in_order(es, o, order)[k] as int])
                && order.contains(shown_in_order(es, o, order)[k]),
    decreases order.len(),
{
    if order.len() > 0 {
        let rest = order.drop_last();
        lemma_listed_entries_are_shown(es, o, rest);
        let v = shown_in_order(es, o, rest);
        assert forall|k: int| 0 <= k < v.len() implies order.contains(#[trigger] v[k]) by {
            assert(rest.contains(v[k]));
            let w = choose|w: int| 0 <= w < rest.len() && rest[w] == v[k];
            assert(order[w] == v[k]);
        }
        assert(order[order.len() - 1] == order.last());
    }
}

/// A position is among the listed positions of `order` exactly when it is in
/// `order` and its entry is shown.
proof fn lemma_shown_in_order_contains(es: Seq<Entry>, o: Options, order: Seq<usize>, j: usize)
    ensures
        shown_in_order(es, o, order).contains(j) <==> order.contains(j) && is_shown(o, es[j as int]),
    decreases order.len(),
{
    if order.len() > 0 {
        let rest = order.drop_last();
        lemma_shown_in_order_contains(es, o, rest, j);
        let v = shown_in_order(es, o, rest);
        if order.contains(j) && j != order.last() {
            let w = choose|w: int| 0 <= w < order.len() && order[w] == j;
            assert(w < order.len() - 1);
            assert(rest[w] == j);
        }
        if rest.contains(j) {
            let w = choose|w: int| 0 <= w < rest.len() && rest[w] == j;
            assert(order[w] == j);
        }
        if is_shown(o, es[order.last() as int]) {
            let v2 = v.push(order.last());
            if v.contains(j) {
                let w = choose|w: int| 0 <= w < v.len() && v[w] == j;
                assert(v2[w] == j);
            }
            if v2.contains(j) && j != order.last() {
                let w = choose|w: int| 0 <= w < v2.len() && v2[w] == j;
                assert(w < v.len());
                assert(v[w] == j);
            }
            assert(v2[v.len() as int] == order.last());
            assert(order[order.len() - 1] == order.last());
        } else {
            assert(order[order.len() - 1] == order.last());
        }
    }
}

/// A listing names exactly the entries that pass the options: an entry is
/// listed if and only if it is not hidden (its name does not start with
/// `.`) or `-a` is given, and it is a directory or `-d` is not given. So
/// without `-a` no hidden entry is listed, whatever `-d` says.
pub proof fn lemma_listing_names_exactly(es: Seq<Entry>, o: Options, prefix: Seq<char>, lines: Seq<Line>, j: usize)
    requires
        is_listing(es, o, prefix, lines),
        j < es.len(),
    ensures
        (exists|k: int| 0 <= k < lines.len() && #[trigger] lines[k].entry == j) <==> ((o.all || !(
        es[j as int].name@.len() > 0 && es[j as int].name@[0] == 0x2Eu8)) && (!o.dirs_only || es[j as int].is_dir)),
{
    let order = choose|order: Seq<usize>|
        {
            &&& is_sorted_order(es, order)
            &&& lines.len() == shown_in_order(es, o, order).len()
            &&& forall|k: int|
                0 <= k < lines.len() ==> is_line(es, prefix, shown_in_order(es, o, order), k, #[trigger] lines[k])
        };
    let v = shown_in_order(es, o, order);
    lemma_shown_in_order_contains(es, o, order, j);
    assert(order.contains(j));
    if exists|k: int| 0 <= k < lines.len() && #[trigger] lines[k].entry == j {
        let k = choose|k: int| 0 <= k < lines.len() && #[trigger] lines[k].entry == j;
        assert(is_line(es, prefix, v, k, lines[k]));
        assert(v[k] == j);
        assert(v.contains(j));
    }
    if is_shown(o, es[j as int]) {
        assert(v.contains(j));
        let k = choose|k: int| 0 <= k < v.len() && v[k] == j;
        assert(is_line(es, prefix, v, k, lines[k]));
        assert(lines[k].entry == j);
    }
}


/// Listed entries keep the order in which `order` has them.
proof fn lemma_shown_keeps_order(es: Seq<Entry>, o: Options, order: Seq<usize>, k1: int, k2: int)
    requires
        forall|x: int, y: int|
            0 <= x < y < order.len() ==> listed_before(es, #[trigger] order[x] as int, #[trigger] order[y] as int),
        0 <= k1 < k2 < shown_in_order(es, o, order).len(),
    ensures
        listed_before(es, shown_in_order(es, o, order)[k1] as int, shown_in_order(es, o, order)[k2] as int),
    decreases order.len(),
{
    let rest = order.drop_last();
    let v = shown_in_order(es, o, rest);
    if is_shown(o, es[order.last() as int]) && k2 == v.len() {
        lemma_listed_entries_are_shown(es, o, rest);
        assert(rest.contains(v[k1]));
        let w = choose|w: int| 0 <= w < rest.len() && rest[w] == v[k1];
        assert(order[w] == v[k1]);
        assert(order[order.len() - 1] == order.last());
        assert(listed_before(es, order[w] as int, order[order.len() - 1] as int));
    } else {
        assert forall|x: int, y: int| 0 <= x < y < rest.len() implies listed_before(
            es,
            #[trigger] rest[x] as int,
            #[trigger] rest[y] as int,
        ) by {
            assert(rest[x] == order[x] && rest[y] == order[y]);
        }
        lemma_shown_keeps_order(es, o, rest, k1, k2);
    }
}

/// A listing goes in the order `tree` promises: an entry whose name does not
/// start with `.` never comes after one whose name does; of two names that
/// both start with `.` or both do not, the earlier one agrees with the later
/// one up to some position where it ends first or has the smaller byte; and
/// entries with equal names keep their order.
pub proof fn lemma_listing_order(es: Seq<Entry>, o: Options, prefix: Seq<char>, lines: Seq<Line>, k1: int, k2: int)
    requires
        is_listing(es, o, prefix, lines),
        0 <= k1 < k2 < lines.len(),
    ensures
        lines[k1].entry < es.len(),
        lines[k2].entry < es.len(),
        ({
            let a = es[lines[k1].entry as int].name@;
            let b = es[lines[k2].entry as int].name@;
            &&& (a.len() > 0 && a[0] == 0x2Eu8) ==> (b.len() > 0 && b[0] == 0x2Eu8)
            &&& ((a.len() > 0 && a[0] == 0x2Eu8) == (b.len() > 0 && b[0] == 0x2Eu8) && a != b) ==> exists|p: int|
                0 <= p <= a.len() && p <= b.len() && #[trigger] a.take(p) == b.take(p) && ((p == a.len() && p
                    < b.len()) || (p < a.len() && p < b.len() && a[p] < b[p]))
            &&& a == b ==> lines[k1].entry < lines[k2].entry
        }),
{
    let order = choose|order: Seq<usize>|
        {
            &&& is_sorted_order(es, order)
            &&& lines.len() == shown_in_order(es, o, order).len()
            &&& forall|k: int|
                0 <= k < lines.len() ==> is_line(es, prefix, shown_in_order(es, o, order), k, #[trigger] lines[k])
        };
    let v = shown_in_order(es, o, order);
    assert(is_line(es, prefix, v, k1, lines[k1]));
    assert(is_line(es, prefix, v, k2, lines[k2]));
    lemma_listed_entries_are_shown(es, o, order);
    assert(order.contains(v[k1]));
    assert(order.contains(v[k2]));
    let w1 = choose|w: int| 0 <= w < order.len() && order[w] == v[k1];
    let w2 = choose|w: int| 0 <= w < order.len() && order[w] == v[k2];
    assert(order[w1] < es.len() && order[w2] < es.len());
    lemma_shown_keeps_order(es, o, order, k1, k2);
    let a = es[v[k1] as int].name@;
    let b = es[v[k2] as int].name@;
    if is_hidden(a) == is_hidden(b) && a != b {
        lemma_bytes_lt_first_difference(a, b);
    }
}

/// Every line of a listing starts with the prefix and the branch `└── ` when
/// it is the last line, `├── ` otherwise; below a directory, its lines start
/// with the prefix and four spaces when it is the last line, `│` and three
/// spaces otherwise; a file has no such prefix.
pub proof fn lemma_listing_branches(es: Seq<Entry>, o: Options, prefix: Seq<char>, lines: Seq<Line>, k: int)
    requires
        is_listing(es, o, prefix, lines),
        0 <= k < lines.len(),
    ensures
        lines[k].entry < es.len(),
        lines[k].lead@ == prefix + if k == lines.len() - 1 {
            seq!['\u{2514}', '\u{2500}', '\u{2500}', ' ']
        } else {
            seq!['\u{251C}', '\u{2500}', '\u{2500}', ' ']
        },
        opt_text(lines[k].child_prefix) == if es[lines[k].entry as int].is_dir {
            Some(
                prefix + if k == lines.len() - 1 {
                    seq![' ', ' ', ' ', ' ']
                } else {
                    seq!['\u{2502}', ' ', ' ', ' ']
                },
            )
        } else {
            None
        },
{
    let order = choose|order: Seq<usize>|
        {
            &&& is_sorted_order(es, order)
            &&& lines.len() == shown_in_order(es, o, order).len()
            &&& forall|k: int|
                0 <= k < lines.len() ==> is_line(es, prefix, shown_in_order(es, o, order), k, #[trigger] lines[k])
        };
    let v = shown_in_order(es, o, order);
    assert(is_line(es, prefix, v, k, lines[k]));
    lemma_listed_entries_are_shown(es, o, order);
    assert(order.contains(v[k]));
    let w = choose|w: int| 0 <= w < order.len() && order[w] == v[k];
    assert(order[w] < es.len());
}

} // verus!
