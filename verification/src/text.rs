//! Text: what has to be UTF-8, seen as a sequence of characters.

pub mod laws;

use vstd::prelude::*;
use vstd::utf8::{decode_utf8, encode_utf8, is_ascii_chars, valid_utf8};

use crate::bytes::{
    bytes_eq, first_at, has_prefix, has_suffix, last_at, split_on, trimmed_end, trimmed_start,
};
use vstd::slice::{slice_subrange, slice_to_vec};

verus! {

/// What an optional string holds.
pub open spec fn opt_text(s: Option<&str>) -> Option<Seq<char>> {
    match s {
        Some(t) => Some(t@),
        None => None,
    }
}

/// `String::push` appends one character.
pub assume_specification[ String::push ](s: &mut String, c: char)
    ensures
        final(s)@ == old(s)@.push(c),
;

/// The text in lower case, as Unicode's mapping has it.
pub uninterp spec fn unicode_lower(s: Seq<char>) -> Seq<char>;

/// The text in lower case.
///
/// Calls `str::to_lowercase`, which maps every character by the Unicode
/// derived core property `Lowercase`, context included. The result is a
/// function of the text; where that is ASCII, its upper case letters become
/// the lower case ones and nothing else changes.
#[verifier::external_body]
pub(crate) fn lowercase_text(s: &str) -> (r: String)
    ensures
        r@ == unicode_lower(s@),
        is_ascii_chars(s@) ==> r@ == ascii_lower(s@),
{
    s.to_lowercase()
}

/// The text whose UTF-8 encoding the bytes are.
///
/// Calls `str::from_utf8`, which accepts exactly the well-formed UTF-8 byte
/// strings and reinterprets them.
#[verifier::external_body]
pub(crate) fn utf8_text(bytes: &[u8]) -> (r: Option<&str>)
    ensures
        match r {
            Some(s) => valid_utf8(bytes@) && s@ == decode_utf8(bytes@) && encode_utf8(s@)
                == bytes@,
            None => !valid_utf8(bytes@),
        },
{
    std::str::from_utf8(bytes).ok()
}

/// A text between double quotes, with what cannot be printed escaped.
pub uninterp spec fn quoted(s: Seq<char>) -> Seq<char>;

/// A text between double quotes, with what cannot be printed escaped.
///
/// Calls `format!` with the `{:?}` of a `str`, whose result is a function of
/// the text.
#[verifier::external_body]
pub(crate) fn debug_text(s: &str) -> (r: String)
    ensures
        r@ == quoted(s@),
{
    format!("{:?}", s)
}

/// A path as it is shown: its text, with a replacement character for what is
/// not UTF-8.
pub uninterp spec fn shown_path(path: Seq<u8>) -> Seq<char>;

/// A path as it is shown.
///
/// Calls `String::from_utf8_lossy`, which keeps well-formed UTF-8 as it is
/// and puts U+FFFD in place of every ill-formed part. The result is a
/// function of the bytes.
#[verifier::external_body]
pub(crate) fn lossy_text(path: &[u8]) -> (r: String)
    ensures
        r@ == shown_path(path@),
        valid_utf8(path@) ==> r@ == decode_utf8(path@),
{
    String::from_utf8_lossy(path).into_owned()
}

/// The text of a byte string, with a replacement character for what is not
/// UTF-8.
pub uninterp spec fn path_text(bytes: Seq<u8>) -> Seq<char>;

/// The text of a byte string.
///
/// Calls `bstr::ByteSlice::to_str_lossy`, which keeps well-formed UTF-8 as it
/// is and puts U+FFFD in place of every ill-formed part. The result is a
/// function of the bytes.
#[verifier::external_body]
pub(crate) fn path_str(bytes: &[u8]) -> (r: String)
    ensures
        r@ == path_text(bytes@),
        valid_utf8(bytes@) ==> r@ == decode_utf8(bytes@),
{
    bstr::ByteSlice::to_str_lossy(bytes).into_owned()
}

/// The characters of a text.
pub fn chars(s: &str) -> (r: Vec<char>)
    ensures
        r@ == s@,
{
    let mut out: Vec<char> = Vec::new();
    for c in it: s.chars()
        invariant
            out@ == it.seq().take(it.index() as int),
            it.seq() == s@,
    {
        out.push(c);
    }
    assert(s@.take(s@.len() as int) =~= s@);
    out
}

/// The text made of the given characters.
pub fn text(chars: &[char]) -> (r: String)
    ensures
        r@ == chars@,
{
    let mut out = String::new();
    let mut i: usize = 0;
    assert(chars@.take(0) =~= Seq::empty());
    while i < chars.len()
        invariant
            i <= chars@.len(),
            out@ == chars@.take(i as int),
        decreases chars@.len() - i,
    {
        out.push(chars[i]);
        i += 1;
        assert(chars@.take(i as int) =~= chars@.take(i - 1).push(chars@[i - 1]));
    }
    assert(chars@.take(i as int) =~= chars@);
    out
}

/// Whether two texts are equal.
pub fn text_eq(a: &str, b: &str) -> (r: bool)
    ensures
        r == (a@ == b@),
{
    let r = bytes_eq(a.as_bytes(), b.as_bytes());
    proof {
        broadcast use vstd::utf8::encode_utf8_decode_utf8;

        if r {
            assert(decode_utf8(encode_utf8(a@)) == decode_utf8(encode_utf8(b@)));
        }
    }
    r
}

/// Whether a text is empty.
pub fn is_empty(s: &str) -> (r: bool)
    ensures
        r == (s@.len() == 0),
{
    proof {
        reveal_strlit("");
        if s@.len() == 0 {
            assert(s@ =~= ""@);
        }
    }
    text_eq(s, "")
}

/// The texts of a list.
pub open spec fn texts(v: Seq<String>) -> Seq<Seq<char>> {
    Seq::new(v.len(), |i: int| v[i]@)
}

/// What a list of character lists holds.
pub open spec fn char_views(v: Seq<Vec<char>>) -> Seq<Seq<char>> {
    Seq::new(v.len(), |i: int| v[i]@)
}

/// Whether two lists of characters are equal.
pub fn chars_eq(a: &[char], b: &[char]) -> (r: bool)
    ensures
        r == (a@ == b@),
{
    if a.len() != b.len() {
        return false;
    }
    let mut i: usize = 0;
    while i < a.len()
        invariant
            i <= a@.len(),
            a@.len() == b@.len(),
            forall|j: int| 0 <= j < i ==> a@[j] == b@[j],
        decreases a@.len() - i,
    {
        if a[i] != b[i] {
            return false;
        }
        i += 1;
    }
    assert(a@ =~= b@);
    true
}

/// Whether characters begin with `prefix`.
pub fn chars_start_with(s: &[char], prefix: &[char]) -> (r: bool)
    ensures
        r == has_prefix(s@, prefix@),
{
    s.len() >= prefix.len() && chars_eq(slice_subrange(s, 0, prefix.len()), prefix)
}

/// Whether characters end with `suffix`.
pub fn chars_end_with(s: &[char], suffix: &[char]) -> (r: bool)
    ensures
        r == has_suffix(s@, suffix@),
{
    s.len() >= suffix.len() && chars_eq(
        slice_subrange(s, s.len() - suffix.len(), s.len()),
        suffix,
    )
}

/// The offset of the first `c`.
pub fn find_char(s: &[char], c: char) -> (r: Option<usize>)
    ensures
        match r {
            Some(i) => first_at(s@, c, i as int),
            None => !s@.contains(c),
        },
{
    let mut i: usize = 0;
    while i < s.len()
        invariant
            i <= s@.len(),
            forall|j: int| 0 <= j < i ==> s@[j] != c,
        decreases s@.len() - i,
    {
        if s[i] == c {
            return Some(i);
        }
        i += 1;
    }
    None
}

/// The offset of the last `c`.
pub fn rfind_char(s: &[char], c: char) -> (r: Option<usize>)
    ensures
        match r {
            Some(i) => last_at(s@, c, i as int),
            None => !s@.contains(c),
        },
{
    let mut i: usize = s.len();
    while i > 0
        invariant
            i <= s@.len(),
            forall|j: int| i <= j < s@.len() ==> s@[j] != c,
        decreases i,
    {
        i = i - 1;
        if s[i] == c {
            return Some(i);
        }
    }
    None
}

/// Without the leading and the trailing run of `c`.
pub open spec fn trimmed<T>(s: Seq<T>, c: T) -> Seq<T> {
    trimmed_end(trimmed_start(s, c), c)
}

/// Without the leading run of `c`.
pub fn trim_start(s: &[char], c: char) -> (r: &[char])
    ensures
        r@ == trimmed_start(s@, c),
{
    let mut i: usize = 0;
    assert(s@.skip(0) =~= s@);
    while i < s.len() && s[i] == c
        invariant
            i <= s@.len(),
            trimmed_start(s@, c) == trimmed_start(s@.skip(i as int), c),
        decreases s@.len() - i,
    {
        assert(s@.skip(i as int).drop_first() =~= s@.skip(i + 1));
        i += 1;
    }
    assert(s@.subrange(i as int, s@.len() as int) =~= s@.skip(i as int));
    slice_subrange(s, i, s.len())
}

/// Without the leading and the trailing run of `c`.
pub fn trim(s: &[char], c: char) -> (r: &[char])
    ensures
        r@ == trimmed(s@, c),
{
    let t = trim_start(s, c);
    let mut n: usize = t.len();
    assert(t@.take(n as int) =~= t@);
    while n > 0 && t[n - 1] == c
        invariant
            n <= t@.len(),
            trimmed_end(t@, c) == trimmed_end(t@.take(n as int), c),
        decreases n,
    {
        assert(t@.take(n as int).drop_last() =~= t@.take(n - 1));
        n = n - 1;
    }
    assert(t@.subrange(0, n as int) =~= t@.take(n as int));
    slice_subrange(t, 0, n)
}

/// The pieces between the occurrences of `sep`.
pub fn split_chars(s: &[char], sep: char) -> (r: Vec<Vec<char>>)
    ensures
        char_views(r@) == split_on(s@, sep),
{
    let mut parts: Vec<Vec<char>> = Vec::new();
    let mut start: usize = 0;
    let mut i: usize = 0;
    assert(s@.take(0) =~= Seq::empty());
    assert(s@.subrange(0, 0) =~= Seq::empty());
    assert(char_views(parts@).push(s@.subrange(0, 0)) =~= split_on(s@.take(0), sep));
    while i < s.len()
        invariant
            start <= i <= s@.len(),
            char_views(parts@).push(s@.subrange(start as int, i as int)) == split_on(
                s@.take(i as int),
                sep,
            ),
        decreases s@.len() - i,
    {
        let ghost before = split_on(s@.take(i as int), sep);
        let ghost next = s@.take(i + 1);
        assert(next.drop_last() =~= s@.take(i as int));
        assert(before.drop_last() =~= char_views(parts@));
        if s[i] == sep {
            let ghost old_parts = parts@;
            parts.push(slice_to_vec(slice_subrange(s, start, i)));
            assert(char_views(parts@) =~= char_views(old_parts).push(
                s@.subrange(start as int, i as int),
            ));
            start = i + 1;
            assert(s@.subrange(start as int, i + 1) =~= Seq::empty());
        } else {
            assert(s@.subrange(start as int, i + 1) =~= before.last().push(s@[i as int]));
        }
        i += 1;
    }
    assert(s@.take(s@.len() as int) =~= s@);
    let ghost old_parts = parts@;
    parts.push(slice_to_vec(slice_subrange(s, start, s.len())));
    assert(char_views(parts@) =~= char_views(old_parts).push(
        s@.subrange(start as int, s@.len() as int),
    ));
    parts
}

/// One ASCII letter in lower case; every other character as it is.
pub open spec fn lower_char(c: char) -> char {
    if 'A' <= c <= 'Z' {
        ((c as u32) + 32) as char
    } else {
        c
    }
}

/// A text with its ASCII letters in lower case.
pub open spec fn ascii_lower(s: Seq<char>) -> Seq<char> {
    Seq::new(s.len(), |i: int| lower_char(s[i]))
}

/// A text with its ASCII letters in lower case.
pub fn ascii_lowercase(s: &str) -> (r: String)
    ensures
        r@ == ascii_lower(s@),
{
    let cs = chars(s);
    let mut out = String::new();
    let mut i: usize = 0;
    assert(out@ =~= ascii_lower(s@).take(0));
    while i < cs.len()
        invariant
            i <= cs@.len(),
            cs@ == s@,
            out@ == ascii_lower(s@).take(i as int),
        decreases cs@.len() - i,
    {
        out.push(lowered(cs[i]));
        i += 1;
        assert(out@ =~= ascii_lower(s@).take(i as int));
    }
    assert(ascii_lower(s@).take(i as int) =~= ascii_lower(s@));
    out
}

/// One ASCII letter in lower case; every other character as it is.
pub fn lowered(c: char) -> (r: char)
    ensures
        r == lower_char(c),
{
    if 'A' <= c && c <= 'Z' {
        (c as u8 + 32) as char
    } else {
        c
    }
}

/// Whether a character is an ASCII lower case letter.
pub open spec fn is_lower(c: char) -> bool {
    'a' <= c <= 'z'
}

/// Whether a character is an ASCII digit.
pub open spec fn is_digit_char(c: char) -> bool {
    '0' <= c <= '9'
}

/// Whether a character is an ASCII letter or digit.
pub open spec fn is_alnum(c: char) -> bool {
    'a' <= c <= 'z' || 'A' <= c <= 'Z' || '0' <= c <= '9'
}

/// The decimal digits of a number.
pub open spec fn decimal(n: nat) -> Seq<char>
    decreases n,
{
    if n < 10 {
        seq![(0x30 + n) as char]
    } else {
        decimal(n / 10).push((0x30 + n % 10) as char)
    }
}

/// The decimal digits of a number.
pub fn decimal_text(n: u64) -> (r: String)
    ensures
        r@ == decimal(n as nat),
    decreases n,
{
    let digit = (0x30 + (n % 10) as u8) as char;
    if n < 10 {
        let mut out = String::new();
        out.push(digit);
        assert(out@ =~= decimal(n as nat));
        out
    } else {
        let mut out = decimal_text(n / 10);
        out.push(digit);
        out
    }
}

/// Whether Unicode counts a character as white space.
pub open spec fn is_space(c: char) -> bool {
    ||| 0x9 <= c as u32 <= 0xd
    ||| c as u32 == 0x20
    ||| c as u32 == 0x85
    ||| c as u32 == 0xa0
    ||| c as u32 == 0x1680
    ||| 0x2000 <= c as u32 <= 0x200a
    ||| c as u32 == 0x2028
    ||| c as u32 == 0x2029
    ||| c as u32 == 0x202f
    ||| c as u32 == 0x205f
    ||| c as u32 == 0x3000
}

/// Whether Unicode counts a character as white space.
pub fn space(c: char) -> (r: bool)
    ensures
        r == is_space(c),
{
    let n: u32 = c as u32;
    (0x9 <= n && n <= 0xd) || n == 0x20 || n == 0x85 || n == 0xa0 || n == 0x1680 || (0x2000 <= n
        && n <= 0x200a) || n == 0x2028 || n == 0x2029 || n == 0x202f || n == 0x205f || n == 0x3000
}

/// A text without the white space at its two ends.
pub open spec fn stripped(s: Seq<char>) -> Seq<char>
    decreases s.len(),
{
    if s.len() > 0 && is_space(s[0]) {
        stripped(s.drop_first())
    } else if s.len() > 0 && is_space(s.last()) {
        stripped(s.drop_last())
    } else {
        s
    }
}

/// A text without the white space at its two ends.
pub fn strip(s: &str) -> (r: String)
    ensures
        r@ == stripped(s@),
{
    let cs = chars(s);
    let mut i: usize = 0;
    let mut n: usize = cs.len();
    assert(s@.subrange(0, n as int) =~= s@);
    while i < n && space(cs[i])
        invariant
            i <= n == cs@.len(),
            cs@ == s@,
            stripped(s@) == stripped(s@.subrange(i as int, n as int)),
        decreases n - i,
    {
        assert(s@.subrange(i as int, n as int).drop_first() =~= s@.subrange(i + 1, n as int));
        i += 1;
    }
    while i < n && space(cs[n - 1])
        invariant
            i <= n <= cs@.len(),
            cs@ == s@,
            i < n ==> !is_space(s@[i as int]),
            stripped(s@) == stripped(s@.subrange(i as int, n as int)),
        decreases n,
    {
        assert(s@.subrange(i as int, n as int).drop_last() =~= s@.subrange(i as int, n - 1));
        n = n - 1;
    }
    text(slice_subrange(cs.as_slice(), i, n))
}

} // verus!
