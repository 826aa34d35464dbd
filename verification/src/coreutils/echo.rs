//! `echo`: flag parsing, backslash escapes and the text printed.

use crate::text::{chars_of, string_of, views};
use vstd::prelude::*;

verus! {

/// Whether an argument is a group of `echo` flags: `-` followed by one or more
/// of `n`, `e` and `E`.
pub open spec fn is_echo_flags(a: Seq<char>) -> bool {
    &&& a.len() >= 2
    &&& a[0] == '-'
    &&& forall|k: int| 1 <= k < a.len() ==> (#[trigger] a[k] == 'n' || a[k] == 'e' || a[k] == 'E')
}

/// The settings `(newline, escape)` after the flags `flags`, applied left to right.
pub open spec fn apply_echo_flags(newline: bool, escape: bool, flags: Seq<char>) -> (bool, bool)
    decreases flags.len(),
{
    if flags.len() == 0 {
        (newline, escape)
    } else {
        let c = flags.last();
        let (n, e) = apply_echo_flags(newline, escape, flags.drop_last());
        if c == 'n' {
            (false, e)
        } else if c == 'e' {
            (n, true)
        } else if c == 'E' {
            (n, false)
        } else {
            (n, e)
        }
    }
}

/// The number of leading arguments that are flag groups.
pub open spec fn flag_count(args: Seq<Seq<char>>) -> nat
    decreases args.len(),
{
    if args.len() > 0 && is_echo_flags(args[0]) {
        1 + flag_count(args.drop_first())
    } else {
        0
    }
}

/// The settings `(newline, escape)` after the leading flag groups of `args`;
/// at the start a newline is printed and escapes are not interpreted.
pub open spec fn echo_settings(args: Seq<Seq<char>>) -> (bool, bool)
    decreases args.len(),
{
    echo_settings_from(args, true, false)
}

/// The settings after the leading flag groups of `args`, starting from `(n, e)`.
pub open spec fn echo_settings_from(args: Seq<Seq<char>>, n: bool, e: bool) -> (bool, bool)
    decreases args.len(),
{
    if args.len() > 0 && is_echo_flags(args[0]) {
        let (n2, e2) = apply_echo_flags(n, e, args[0].drop_first());
        echo_settings_from(args.drop_first(), n2, e2)
    } else {
        (n, e)
    }
}

/// `s` with the escapes `\n`, `\t`, `\r` and `\\` replaced by the characters
/// they stand for; any other backslash is kept as it is.
pub open spec fn unescaped(s: Seq<char>) -> Seq<char>
    decreases s.len(),
{
    if s.len() == 0 {
        seq![]
    } else if s[0] != '\\' {
        seq![s[0]] + unescaped(s.drop_first())
    } else if s.len() == 1 {
        seq!['\\']
    } else {
        let c = s[1];
        let rest = unescaped(s.subrange(2, s.len() as int));
        if c == 'n' {
            seq!['\n'] + rest
        } else if c == 't' {
            seq!['\t'] + rest
        } else if c == 'r' {
            seq!['\r'] + rest
        } else if c == '\\' {
            seq!['\\'] + rest
        } else {
            seq!['\\', c] + rest
        }
    }
}

/// The words joined by single spaces, each unescaped when `escape` holds.
pub open spec fn joined_words(words: Seq<Seq<char>>, escape: bool) -> Seq<char>
    decreases words.len(),
{
    if words.len() == 0 {
        seq![]
    } else {
        let last = if escape { unescaped(words.last()) } else { words.last() };
        if words.len() == 1 {
            last
        } else {
            joined_words(words.drop_last(), escape) + seq![' '] + last
        }
    }
}

/// What `echo` prints for the arguments `args`.
pub open spec fn echo_text(args: Seq<Seq<char>>) -> Seq<char> {
    let (newline, escape) = echo_settings(args);
    let words = args.skip(flag_count(args) as int);
    joined_words(words, escape) + if newline { seq!['\n'] } else { seq![] }
}

/// Interprets the backslash escapes `\n`, `\t`, `\r` and `\\` in `s`.
pub fn unescape(s: &str) -> (r: String)
    ensures
        r@ == unescaped(s@),
{
    let chars = chars_of(s);
    let mut out: Vec<char> = Vec::new();
    let mut i: usize = 0;
    assert(chars@.skip(0) == chars@);
    while i < chars.len()
        invariant
            i <= chars@.len(),
            out@ + unescaped(chars@.skip(i as int)) == unescaped(chars@),
        decreases chars@.len() - i,
    {
        let ghost rest = chars@.skip(i as int);
        let ch = chars[i];
        assert(rest[0] == ch);
        if ch != '\\' {
            out.push(ch);
            assert(rest.drop_first() == chars@.skip(i + 1));
            i += 1;
        } else if i + 1 == chars.len() {
            out.push('\\');
            assert(chars@.skip(i + 1).len() == 0);
            i += 1;
        } else {
            let c = chars[i + 1];
            assert(rest[1] == c);
            assert(rest.subrange(2, rest.len() as int) == chars@.skip(i + 2));
            if c == 'n' {
                out.push('\n');
            } else if c == 't' {
                out.push('\t');
            } else if c == 'r' {
                out.push('\r');
            } else if c == '\\' {
                out.push('\\');
            } else {
                out.push('\\');
                out.push(c);
            }
            i += 2;
        }
    }
    string_of(&out)
}

/// Reads the leading flag groups of `args`: whether a newline ends the output,
/// whether escapes are interpreted, and the index of the first word to print.
pub fn parse_flags(args: &[String]) -> (r: (bool, bool, usize))
    ensures
        (r.0, r.1) == echo_settings(views(args@)),
        r.2 == flag_count(views(args@)),
        r.2 <= args@.len(),
{
    let ghost all = views(args@);
    let mut newline = true;
    let mut escape = false;
    let mut index: usize = 0;
    assert(all.skip(0) == all);
    while index < args.len()
        invariant
            index <= args@.len(),
            all == views(args@),
            flag_count(all) == index + flag_count(all.skip(index as int)),
            echo_settings(all) == echo_settings_from(all.skip(index as int), newline, escape),
        ensures
            index <= args@.len(),
            flag_count(all) == index,
            echo_settings(all) == (newline, escape),
        decreases args@.len() - index,
    {
        let arg = chars_of(args[index].as_str());
        let ghost rest = all.skip(index as int);
        assert(rest[0] == arg@);
        assert(rest.drop_first() == all.skip(index + 1));
        if !(arg.len() >= 2 && arg[0] == '-') {
            break;
        }
        let mut all_flags = true;
        let mut k: usize = 1;
        while k < arg.len()
            invariant
                1 <= k <= arg@.len(),
                all_flags <==> (forall|m: int| 1 <= m < k ==> (#[trigger] arg@[m] == 'n' || arg@[m] == 'e' || arg@[m] == 'E')),
            decreases arg@.len() - k,
        {
            let c = arg[k];
            if !(c == 'n' || c == 'e' || c == 'E') {
                all_flags = false;
            }
            k += 1;
        }
        if !all_flags {
            break;
        }
        let mut j: usize = 1;
        let ghost n0 = newline;
        let ghost e0 = escape;
        while j < arg.len()
            invariant
                1 <= j <= arg@.len(),
                (newline, escape) == apply_echo_flags(n0, e0, arg@.subrange(1, j as int)),
            decreases arg@.len() - j,
        {
            let c = arg[j];
            assert(arg@.subrange(1, j + 1).drop_last() == arg@.subrange(1, j as int));
            if c == 'n' {
                newline = false;
            } else if c == 'e' {
                escape = true;
            } else if c == 'E' {
                escape = false;
            }
            j += 1;
        }
        assert(arg@.subrange(1, arg@.len() as int) == arg@.drop_first());
        index += 1;
    }
    (newline, escape, index)
}

/// The text that `echo` prints for `args`: the words after the leading flag
/// groups, separated by single spaces, unescaped with `-e`, followed by a
/// newline unless `-n` is in force.
pub fn output(args: &[String]) -> (r: String)
    ensures
        r@ == echo_text(views(args@)),
{
    let ghost all = views(args@);
    let (newline, escape, index) = parse_flags(args);
    let mut out: Vec<char> = Vec::new();
    let mut i = index;
    assert(all.subrange(index as int, index as int) =~= seq![]);
    while i < args.len()
        invariant
            index <= i <= args@.len(),
            all == views(args@),
            index == flag_count(all),
            out@ == joined_words(all.subrange(index as int, i as int), escape),
        decreases args@.len() - i,
    {
        let word = if escape { chars_of(unescape(args[i].as_str()).as_str()) } else { chars_of(args[i].as_str()) };
        let ghost before = out@;
        if i > index {
            out.push(' ');
        }
        let mut k: usize = 0;
        let ghost mid = out@;
        while k < word.len()
            invariant
                k <= word@.len(),
                out@ == mid + word@.take(k as int),
            decreases word@.len() - k,
        {
            out.push(word[k]);
            k += 1;
            assert(word@.take(k as int) == word@.take((k - 1) as int).push(word@[k - 1]));
        }
        assert(word@.take(word@.len() as int) == word@);
        let ghost words = all.subrange(index as int, i + 1);
        assert(words.drop_last() == all.subrange(index as int, i as int));
        assert(words.last() == all[i as int]);
        i += 1;
    }
    assert(all.subrange(index as int, args@.len() as int) == all.skip(index as int));
    if newline {
        out.push('\n');
    }
    string_of(&out)
}

/// Text without backslashes is left as it is by unescaping.
pub proof fn lemma_unescape_without_backslash(s: Seq<char>)
    requires
        forall|k: int| 0 <= k < s.len() ==> s[k] != '\\',
    ensures
        unescaped(s) == s,
    decreases s.len(),
{
    if s.len() > 0 {
        lemma_unescape_without_backslash(s.drop_first());
        assert(seq![s[0]] + s.drop_first() =~= s);
    }
}

/// When the first argument is not a group of flags, `echo` prints all its
/// arguments as they are, separated by spaces, followed by a newline.
pub proof fn lemma_plain_echo(args: Seq<Seq<char>>)
    requires
        args.len() == 0 || !is_echo_flags(args[0]),
    ensures
        echo_text(args) == joined_words(args, false) + seq!['\n'],
{
    assert(args.skip(0) == args);
}

/// Joining with interpretation of escapes is joining the unescaped words:
/// with `-e` every word is unescaped, not only some of them.
pub proof fn lemma_escape_applies_to_every_word(words: Seq<Seq<char>>)
    ensures
        joined_words(words, true) == joined_words(words.map_values(|w: Seq<char>| unescaped(w)), false),
    decreases words.len(),
{
    let m = words.map_values(|w: Seq<char>| unescaped(w));
    if words.len() > 0 {
        lemma_escape_applies_to_every_word(words.drop_last());
        assert(m.drop_last() =~= words.drop_last().map_values(|w: Seq<char>| unescaped(w)));
        assert(m.last() == unescaped(words.last()));
    }
}

/// The words of two lists joined in one go are the two joins with one space
/// between them.
pub proof fn lemma_join_concat(a: Seq<Seq<char>>, b: Seq<Seq<char>>, escape: bool)
    requires
        a.len() > 0,
        b.len() > 0,
    ensures
        joined_words(a + b, escape) == joined_words(a, escape) + seq![' '] + joined_words(b, escape),
    decreases b.len(),
{
    if b.len() == 1 {
        assert((a + b).drop_last() =~= a);
        assert((a + b).last() == b[0]);
    } else {
        lemma_join_concat(a, b.drop_last(), escape);
        assert((a + b).drop_last() =~= a + b.drop_last());
        assert((a + b).last() == b.last());
    }
}

/// A single word is printed as itself (unescaped with `-e`).
pub proof fn lemma_join_one(w: Seq<char>, escape: bool)
    ensures
        joined_words(seq![w], escape) == if escape { unescaped(w) } else { w },
{
}

/// With `-e`, `echo` prints every word after the flags unescaped, each word
/// followed by a space except the last: for words `w` then the rest, the text
/// starts with `unescaped(w)` and a space and goes on with the rest.
pub proof fn lemma_echo_escapes_each_word(w: Seq<char>, rest: Seq<Seq<char>>)
    requires
        rest.len() > 0,
    ensures
        joined_words(seq![w] + rest, true) == unescaped(w) + seq![' '] + joined_words(rest, true),
{
    lemma_join_concat(seq![w], rest, true);
}


/// With one group of flags in front of words that do not start with another,
/// the settings are those of that group and the words are the rest.
proof fn lemma_one_group(g: Seq<char>, rest: Seq<Seq<char>>)
    requires
        is_echo_flags(g),
        rest.len() == 0 || !is_echo_flags(rest[0]),
    ensures
        echo_text(seq![g] + rest) == ({
            let (newline, escape) = apply_echo_flags(true, false, g.drop_first());
            joined_words(rest, escape) + if newline { seq!['\n'] } else { seq![] }
        }),
{
    let a = seq![g] + rest;
    assert(a[0] == g);
    assert(a.drop_first() =~= rest);
    let (n1, e1) = apply_echo_flags(true, false, g.drop_first());
    assert(echo_settings_from(rest, n1, e1) == (n1, e1));
    assert(echo_settings(a) == (n1, e1));
    assert(flag_count(rest) == 0);
    assert(flag_count(a) == 1);
    assert(a.skip(1) =~= rest);
}

/// With two groups of flags in front of words that do not start with
/// another, the settings are those of the two groups applied in turn.
proof fn lemma_two_groups(g: Seq<char>, h: Seq<char>, rest: Seq<Seq<char>>)
    requires
        is_echo_flags(g),
        is_echo_flags(h),
        rest.len() == 0 || !is_echo_flags(rest[0]),
    ensures
        echo_text(seq![g, h] + rest) == ({
            let (n1, e1) = apply_echo_flags(true, false, g.drop_first());
            let (newline, escape) = apply_echo_flags(n1, e1, h.drop_first());
            joined_words(rest, escape) + if newline { seq!['\n'] } else { seq![] }
        }),
{
    let b = seq![h] + rest;
    let a = seq![g, h] + rest;
    assert(a[0] == g);
    assert(b[0] == h);
    assert(a.drop_first() =~= b);
    assert(b.drop_first() =~= rest);
    let (n1, e1) = apply_echo_flags(true, false, g.drop_first());
    let (n2, e2) = apply_echo_flags(n1, e1, h.drop_first());
    assert(echo_settings_from(rest, n2, e2) == (n2, e2));
    assert(echo_settings_from(b, n1, e1) == (n2, e2));
    assert(echo_settings(a) == (n2, e2));
    assert(flag_count(rest) == 0);
    assert(flag_count(b) == 1);
    assert(flag_count(a) == 2);
    assert(a.skip(2) =~= rest);
}

/// The settings after one flag.
proof fn lemma_single_flag(n: bool, e: bool, c: char)
    ensures
        apply_echo_flags(n, e, seq![c]) == if c == 'n' {
            (false, e)
        } else if c == 'e' {
            (n, true)
        } else if c == 'E' {
            (n, false)
        } else {
            (n, e)
        },
{
    assert(seq![c].drop_last() =~= Seq::<char>::empty());
    assert(seq![c].last() == c);
    assert(apply_echo_flags(n, e, Seq::<char>::empty()) == (n, e));
}

/// What the flags do, for words that do not start with another flag group:
/// `-n` drops the final newline, `-e` unescapes every word, `-E` leaves the
/// words as they are, of `-e` and `-E` the later one wins, and `-ne` does both.
pub proof fn lemma_flag_effects(rest: Seq<Seq<char>>)
    requires
        rest.len() == 0 || !is_echo_flags(rest[0]),
    ensures
        echo_text(seq![seq!['-', 'n']] + rest) == joined_words(rest, false),
        echo_text(seq![seq!['-', 'e']] + rest) == joined_words(rest.map_values(|w: Seq<char>| unescaped(w)), false)
            + seq!['\n'],
        echo_text(seq![seq!['-', 'E']] + rest) == joined_words(rest, false) + seq!['\n'],
        echo_text(seq![seq!['-', 'e'], seq!['-', 'E']] + rest) == joined_words(rest, false) + seq!['\n'],
        echo_text(seq![seq!['-', 'E'], seq!['-', 'e']] + rest) == joined_words(
            rest.map_values(|w: Seq<char>| unescaped(w)),
            false,
        ) + seq!['\n'],
        echo_text(seq![seq!['-', 'n', 'e']] + rest) == joined_words(
            rest.map_values(|w: Seq<char>| unescaped(w)),
            false,
        ),
{
    lemma_escape_applies_to_every_word(rest);
    let n = seq!['-', 'n'];
    let e = seq!['-', 'e'];
    let big_e = seq!['-', 'E'];
    let ne = seq!['-', 'n', 'e'];
    assert(is_echo_flags(n));
    assert(is_echo_flags(e));
    assert(is_echo_flags(big_e));
    assert(is_echo_flags(ne));
    assert(n.drop_first() =~= seq!['n']);
    assert(e.drop_first() =~= seq!['e']);
    assert(big_e.drop_first() =~= seq!['E']);
    assert(ne.drop_first() =~= seq!['n', 'e']);
    lemma_single_flag(true, false, 'n');
    lemma_single_flag(true, false, 'e');
    lemma_single_flag(true, false, 'E');
    lemma_single_flag(true, true, 'E');
    lemma_single_flag(true, false, 'e');
    lemma_single_flag(false, false, 'e');
    assert(seq!['n', 'e'].drop_last() =~= seq!['n']);
    assert(seq!['n', 'e'].last() == 'e');
    assert(apply_echo_flags(true, false, seq!['n', 'e']) == (false, true));
    lemma_one_group(n, rest);
    lemma_one_group(e, rest);
    lemma_one_group(big_e, rest);
    lemma_one_group(ne, rest);
    lemma_two_groups(e, big_e, rest);
    lemma_two_groups(big_e, e, rest);
}

} // verus!
