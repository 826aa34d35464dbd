//! `pwd`: option parsing and the Unix-style rendering of a path.

use crate::text::{chars_of, same_chars, string_of, views};
use std::path::Path;
use vstd::prelude::*;
use vstd::utf8::{encode_scalar, encode_utf8};

verus! {

#[verifier::external_type_specification]
#[verifier::external_body]
pub struct ExPath(Path);

/// Whether the argument is `-P` or `--physical`.
pub open spec fn is_physical_flag(a: Seq<char>) -> bool {
    a == seq!['-', 'P'] || a == seq!['-', '-', 'p', 'h', 'y', 's', 'i', 'c', 'a', 'l']
}

/// Whether the argument is `-L` or `--logical`.
pub open spec fn is_logical_flag(a: Seq<char>) -> bool {
    a == seq!['-', 'L'] || a == seq!['-', '-', 'l', 'o', 'g', 'i', 'c', 'a', 'l']
}

/// Whether the path is resolved physically, after the arguments `args` read
/// from the start with the setting `physical`; the error is the first
/// argument that is not an option of `pwd`.
pub open spec fn physical_after(args: Seq<Seq<char>>, physical: bool) -> Result<bool, Seq<char>>
    decreases args.len(),
{
    if args.len() == 0 {
        Ok(physical)
    } else if is_physical_flag(args[0]) {
        physical_after(args.drop_first(), true)
    } else if is_logical_flag(args[0]) {
        physical_after(args.drop_first(), false)
    } else {
        Err(args[0])
    }
}

/// The meaning of a parsing result, with the offending argument taken as its text.
pub open spec fn physical_result(r: Result<bool, String>) -> Result<bool, Seq<char>> {
    match r {
        Ok(b) => Ok(b),
        Err(s) => Err(s@),
    }
}

/// Reads the command line of `pwd`: whether the last of `-P`/`--physical` and
/// `-L`/`--logical` asks for the physical path (logical when none is given),
/// or the first argument that is neither (an invalid option).
pub fn parse_args(args: &[String]) -> (r: Result<bool, String>)
    ensures
        physical_result(r) == physical_after(views(args@), false),
{
    let ghost all = views(args@);
    let mut physical = false;
    let mut i: usize = 0;
    assert(all.skip(0) == all);
    while i < args.len()
        invariant
            i <= args@.len(),
            all == views(args@),
            physical_after(all, false) == physical_after(all.skip(i as int), physical),
        decreases args@.len() - i,
    {
        let a = chars_of(args[i].as_str());
        let ghost rest = all.skip(i as int);
        assert(rest[0] == a@);
        assert(rest.drop_first() == all.skip(i + 1));
        let physical_flag = same_chars(&a, &vec!['-', 'P'])
            || same_chars(&a, &vec!['-', '-', 'p', 'h', 'y', 's', 'i', 'c', 'a', 'l']);
        let logical_flag = same_chars(&a, &vec!['-', 'L'])
            || same_chars(&a, &vec!['-', '-', 'l', 'o', 'g', 'i', 'c', 'a', 'l']);
        if physical_flag {
            physical = true;
        } else if logical_flag {
            physical = false;
        } else {
            return Err(args[i].clone());
        }
        i += 1;
    }
    Ok(physical)
}

/// `c` with an ASCII capital letter turned into the small letter.
pub open spec fn ascii_lower(c: char) -> char {
    if 'A' <= c <= 'Z' {
        ((c as u32) + 32) as char
    } else {
        c
    }
}

/// `s` with every backslash turned into a slash.
pub open spec fn slashed(s: Seq<char>) -> Seq<char> {
    s.map_values(|c: char| if c == '\\' { '/' } else { c })
}

/// Whether the text starts with a drive letter: its second byte is `:`
/// (so its first character is ASCII and its second is `:`).
pub open spec fn has_drive(t: Seq<char>) -> bool {
    t.len() >= 2 && (t[0] as u32) < 0x80 && t[1] == ':'
}

/// The Unix-style form of a path's text: backslashes become slashes, and a
/// leading drive `X:` becomes `/x`.
pub open spec fn unix_path(s: Seq<char>) -> Seq<char> {
    let t = slashed(s);
    if has_drive(t) {
        seq!['/', ascii_lower(t[0])] + t.skip(2)
    } else {
        t
    }
}

/// A character is `:` exactly when its code is `0x3A`.
proof fn char_code_58(c: char)
    ensures
        c == ':' <==> (c as u32) == 0x3A,
{
}

/// The drive test on characters is the same as a test on the UTF-8 bytes of
/// the text: at least two bytes, the second of which is `:`.
pub proof fn lemma_drive_is_second_byte_colon(t: Seq<char>)
    ensures
        has_drive(t) <==> (encode_utf8(t).len() >= 2 && encode_utf8(t)[1] == 0x3Au8),
{
    if t.len() > 0 {
        let x = t[0] as u32;
        let rest = t.drop_first();
        let e = encode_scalar(x);
        assert(encode_utf8(t) == e + encode_utf8(rest));
        if x <= 0x7F {
            assert((x & 0x7F) as u8 == x) by (bit_vector)
                requires
                    x <= 0x7F,
            ;
            assert(e == seq![x as u8]);
            if rest.len() == 0 {
                assert(encode_utf8(rest) == Seq::<u8>::empty());
                assert(encode_utf8(t).len() == 1);
                assert(!has_drive(t));
            } else {
                let y = rest[0] as u32;
                let f = encode_scalar(y);
                assert(encode_utf8(rest) == f + encode_utf8(rest.drop_first()));
                assert(f.len() >= 1);
                assert(encode_utf8(t)[1] == f[0]);
                assert(rest[0] == t[1]);
                if y <= 0x7F {
                    assert((y & 0x7F) as u8 == y) by (bit_vector)
                        requires
                            y <= 0x7F,
                    ;
                    assert(f[0] == y as u8);
                    assert(t[1] as u32 == y);
                    char_code_58(t[1]);
                    assert(has_drive(t) <==> f[0] == 0x3Au8);
                } else {
                    assert(0xC0u8 | ((y >> 6) & 0x1F) as u8 != 0x3A) by (bit_vector);
                    assert(0xE0u8 | ((y >> 12) & 0x0F) as u8 != 0x3A) by (bit_vector);
                    assert(0xF0u8 | ((y >> 18) & 0x7) as u8 != 0x3A) by (bit_vector);
                    assert(f[0] != 0x3Au8);
                    assert(t[1] as u32 == y);
                    char_code_58(t[1]);
                }
            }
        } else {
            assert(0x80u8 | (x & 0x3F) as u8 != 0x3A) by (bit_vector);
            assert(0x80u8 | ((x >> 6) & 0x3F) as u8 != 0x3A) by (bit_vector);
            assert(0x80u8 | ((x >> 12) & 0x3F) as u8 != 0x3A) by (bit_vector);
            assert(e.len() >= 2);
            assert(encode_utf8(t)[1] == e[1]);
            assert(e[1] != 0x3Au8);
            assert(!has_drive(t));
        }
    }
}

/// The text that `Path::to_string_lossy` gives for a path: its bytes read as
/// UTF-8, with every sequence that is not valid UTF-8 replaced by U+FFFD. It
/// depends on the path alone.
pub uninterp spec fn lossy_text(p: &Path) -> Seq<char>;

/// `Path::to_string_lossy`, made an owned string: the text is `lossy_text`
/// of the path (what that text is for given bytes is not stated here).
#[verifier::external_body]
fn path_text(path: &Path) -> (s: String)
    ensures
        s@ == lossy_text(path),
{
    path.to_string_lossy().into_owned()
}

/// The Unix-style form of the text of a path: backslashes become slashes and a
/// leading drive `X:` becomes `/x` (so `C:\Users` gives `/c/Users`).
pub fn unix_path_of_text(s: &str) -> (r: String)
    ensures
        r@ == unix_path(s@),
{
    let chars = chars_of(s);
    let mut t: Vec<char> = Vec::new();
    let mut i: usize = 0;
    while i < chars.len()
        invariant
            i <= chars@.len(),
            t@ == slashed(chars@.take(i as int)),
        decreases chars@.len() - i,
    {
        let c = chars[i];
        if c == '\\' {
            t.push('/');
        } else {
            t.push(c);
        }
        i += 1;
        assert(t@ =~= slashed(chars@.take(i as int)));
    }
    assert(chars@.take(chars@.len() as int) == chars@);
    if t.len() >= 2 && (t[0] as u32) < 0x80 && t[1] == ':' {
        let first = t[0];
        let lower = if 'A' <= first && first <= 'Z' {
            ((first as u8) + 32) as char
        } else {
            first
        };
        let mut out: Vec<char> = Vec::new();
        out.push('/');
        out.push(lower);
        let mut k: usize = 2;
        while k < t.len()
            invariant
                2 <= k <= t@.len(),
                out@ == seq!['/', lower] + t@.subrange(2, k as int),
            decreases t@.len() - k,
        {
            out.push(t[k]);
            k += 1;
            assert(out@ =~= seq!['/', lower] + t@.subrange(2, k as int));
        }
        assert(t@.subrange(2, t@.len() as int) == t@.skip(2));
        string_of(&out)
    } else {
        string_of(&t)
    }
}

/// The path as Unix-style text: its lossy UTF-8 text with backslashes turned
/// into slashes and a leading drive `X:` turned into `/x`.
pub fn to_unix_path(path: &Path) -> (r: String)
    ensures
        r@ == unix_path(lossy_text(path)),
{
    let text = path_text(path);
    unix_path_of_text(text.as_str())
}

/// The Unix-style form of a path holds no backslash.
pub proof fn lemma_unix_path_has_no_backslash(s: Seq<char>)
    ensures
        forall|k: int| 0 <= k < unix_path(s).len() ==> unix_path(s)[k] != '\\',
{
    let t = slashed(s);
    assert forall|k: int| 0 <= k < t.len() implies t[k] != '\\' by {}
    if has_drive(t) {
        let r = seq!['/', ascii_lower(t[0])] + t.skip(2);
        assert forall|k: int| 0 <= k < r.len() implies r[k] != '\\' by {
            if k >= 2 {
                assert(r[k] == t[k]);
            }
        }
    }
}

/// Rendering a path the Unix way a second time changes nothing, unless the
/// path starts with `::` (then `::x` gives `/:x` and then `//x`).
pub proof fn lemma_unix_path_idempotent(s: Seq<char>)
    requires
        !(s.len() >= 2 && s[0] == ':' && s[1] == ':'),
    ensures
        unix_path(unix_path(s)) == unix_path(s),
{
    let r = unix_path(s);
    lemma_unix_path_has_no_backslash(s);
    assert(slashed(r) =~= r);
    let t = slashed(s);
    if has_drive(t) {
        assert(t[1] == ':');
        assert(s[1] == ':' || s[1] == '\\');
        assert(t[0] != ':');
        assert(r[1] == ascii_lower(t[0]));
        assert(!has_drive(r));
    }
}

} // verus!
