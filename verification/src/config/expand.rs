//! The paths that values spell.

use vstd::prelude::*;
use vstd::slice::slice_to_vec;
use vstd::utf8::{encode_utf8, is_ascii_chars_encode_utf8};

use crate::bytes::{before_first, has_prefix, opt_view, views, SLASH};
use crate::paths::joined_path;

verus! {

/// A value without the mark of an optional path.
pub open spec fn required(value: Seq<u8>) -> Seq<u8> {
    if has_prefix(value, encode_utf8(":(optional)"@)) {
        value.skip(encode_utf8(":(optional)"@).len() as int)
    } else {
        value
    }
}

/// Whether a value begins in the home directory of a named user.
pub open spec fn names_user(value: Seq<u8>) -> bool {
    let p = required(value);
    has_prefix(p, encode_utf8("~"@)) && p.contains(SLASH) && !has_prefix(p, encode_utf8("~/"@))
}

/// What follows the user in such a value.
pub open spec fn behind_user(value: Seq<u8>) -> Seq<u8> {
    let p = required(value);
    p.skip(before_first(p, SLASH).len() as int + 1)
}

/// The path that a value spells, where that rests on no password database:
/// `~/` stands for the home directory, `%(prefix)/` for nothing that is known
/// here.
pub open spec fn expansion(value: Seq<u8>, home: Option<Seq<u8>>) -> Option<Seq<u8>> {
    let p = required(value);
    if p.len() == 0 || has_prefix(p, encode_utf8("%(prefix)/"@)) {
        None
    } else if has_prefix(p, encode_utf8("~/"@)) {
        match home {
            Some(h) => Some(joined_path(h, p.skip(encode_utf8("~/"@).len() as int))),
            None => None,
        }
    } else {
        Some(p)
    }
}

/// The path that a value spells.
///
/// Calls `gix_config::Path::interpolate` with the given home directory, with
/// no installation directory, and with `home_for_user` to find a named user's.
/// It takes off a leading `:(optional)`, fails on an empty path and on
/// `%(prefix)/`, resolves what follows `~/` against the home directory or
/// fails without one, and gives every other path back as it is. What follows
/// `~user/` it resolves against that user's home directory or fails without
/// one; which it is rests on the machine's password database and is left
/// open.
#[verifier::external_body]
fn interpolate(value: &[u8], home: Option<&[u8]>) -> (r: Option<Vec<u8>>)
    ensures
        !names_user(value@) ==> opt_view(r) == expansion(
            value@,
            match home {
                Some(h) => Some(h@),
                None => None,
            },
        ),
        names_user(value@) && r is Some ==> exists|h: Seq<u8>|
            (r->0)@ == #[trigger] joined_path(h, behind_user(value@)),
{
    let home_dir = home.and_then(|h| bstr::ByteSlice::to_path(h).ok());
    let home_for_user = Some(gix_config::path::interpolate::home_for_user as _);
    let context = gix_config::path::interpolate::Context {
        git_install_dir: None,
        home_dir,
        home_for_user,
    };
    let value = std::borrow::Cow::Borrowed(bstr::ByteSlice::as_bstr(value));
    let path = gix_config::Path::from(value).interpolate(context).ok()?;
    <Vec<u8> as bstr::ByteVec>::from_path_buf(path.into_owned()).ok()
}

/// Whether `path` is the path of a value: what the value spells, or the value
/// itself where it spells none.
pub open spec fn is_path_of(value: Seq<u8>, home: Option<Seq<u8>>, path: Seq<u8>) -> bool {
    if names_user(value) {
        path == value || exists|h: Seq<u8>| path == #[trigger] joined_path(h, behind_user(value))
    } else {
        path == match expansion(value, home) {
            Some(p) => p,
            None => value,
        }
    }
}

/// Whether paths are those of values, one for one.
pub open spec fn are_paths_of(
    values: Seq<Seq<u8>>,
    home: Option<Seq<u8>>,
    paths: Seq<Seq<u8>>,
) -> bool {
    &&& paths.len() == values.len()
    &&& forall|i: int|
        0 <= i < values.len() ==> is_path_of(values[i], home, #[trigger] paths[i])
}

/// The path of a value, given what the value spells: that, or the value's own
/// spelling, byte for byte, where it spells no path; none for an empty value.
pub fn path_or_spelling(value: &[u8], spelled: Option<Vec<u8>>) -> (r: Option<Vec<u8>>)
    ensures
        r is None == (value@.len() == 0),
        r matches Some(path) ==> path@ == (match spelled {
            Some(p) => p@,
            None => value@,
        }),
{
    if value.len() == 0 {
        return None;
    }
    match spelled {
        Some(path) => Some(path),
        None => Some(slice_to_vec(value)),
    }
}

/// The path of a value; none for an empty one. A value that spells no path
/// keeps its own spelling, byte for byte.
pub fn interpolate_value(value: &[u8], home: Option<&[u8]>) -> (r: Option<Vec<u8>>)
    ensures
        r is None == (value@.len() == 0),
        r matches Some(path) ==> is_path_of(
            value@,
            match home {
                Some(h) => Some(h@),
                None => None,
            },
            path@,
        ),
{
    path_or_spelling(value, interpolate(value, home))
}

/// The paths of values.
pub(crate) fn interpolate_all(values: &Vec<Vec<u8>>, home: Option<&[u8]>) -> (r: Vec<Vec<u8>>)
    requires
        forall|i: int| 0 <= i < values@.len() ==> (#[trigger] values@[i])@.len() > 0,
    ensures
        are_paths_of(
            views(values@),
            match home {
                Some(h) => Some(h@),
                None => None,
            },
            views(r@),
        ),
{
    let ghost dir: Option<Seq<u8>> = match home {
        Some(h) => Some(h@),
        None => None,
    };
    let mut out: Vec<Vec<u8>> = Vec::new();
    let mut i: usize = 0;
    while i < values.len()
        invariant
            i <= values@.len(),
            out@.len() == i,
            forall|j: int| 0 <= j < values@.len() ==> (#[trigger] values@[j])@.len() > 0,
            dir == (match home {
                Some(h) => Some(h@),
                None => None,
            }),
            forall|j: int| 0 <= j < i ==> is_path_of(values@[j]@, dir, (#[trigger] out@[j])@),
        decreases values@.len() - i,
    {
        assert(values@[i as int]@.len() > 0);
        if let Some(path) = interpolate_value(values[i].as_slice(), home) {
            out.push(path);
        }
        i += 1;
    }
    out
}

/// What a value's path is: below the home directory where it begins with
/// `~/` and there is one, and its own spelling where there is none or where
/// it begins like any other path.
pub proof fn law_home_is_expanded(rest: Seq<u8>, home: Seq<u8>, value: Seq<u8>, path: Seq<u8>)
    requires
        value.len() > 0,
        value[0] != 0x7e && value[0] != 0x25 && value[0] != 0x3a,
    ensures
        is_path_of(seq![0x7eu8, SLASH] + rest, Some(home), path) <==> path == joined_path(home, rest),
        is_path_of(seq![0x7eu8, SLASH] + rest, None, path) <==> path == seq![0x7eu8, SLASH] + rest,
        is_path_of(value, Some(home), path) <==> path == value,
        is_path_of(value, None, path) <==> path == value,
{
    reveal_strlit("~");
    reveal_strlit("~/");
    reveal_strlit(":(optional)");
    reveal_strlit("%(prefix)/");
    is_ascii_chars_encode_utf8("~"@);
    is_ascii_chars_encode_utf8("~/"@);
    is_ascii_chars_encode_utf8(":(optional)"@);
    is_ascii_chars_encode_utf8("%(prefix)/"@);
    let tilde = encode_utf8("~"@);
    let below = encode_utf8("~/"@);
    let mark = encode_utf8(":(optional)"@);
    let prefix = encode_utf8("%(prefix)/"@);
    assert(tilde[0] == 0x7e && below[0] == 0x7e && below[1] == SLASH);
    assert(mark[0] == 0x3a && prefix[0] == 0x25);
    let p = seq![0x7eu8, SLASH] + rest;
    assert(p.take(2) =~= below);
    assert(p.skip(2) =~= rest);
    assert(!has_prefix(p, mark)) by {
        if has_prefix(p, mark) {
            assert(p.take(mark.len() as int)[0] == mark[0]);
        }
    }
    assert(!has_prefix(p, prefix)) by {
        if has_prefix(p, prefix) {
            assert(p.take(prefix.len() as int)[0] == prefix[0]);
        }
    }
    assert(!has_prefix(value, mark)) by {
        if has_prefix(value, mark) {
            assert(value.take(mark.len() as int)[0] == mark[0]);
        }
    }
    assert(!has_prefix(value, prefix)) by {
        if has_prefix(value, prefix) {
            assert(value.take(prefix.len() as int)[0] == prefix[0]);
        }
    }
    assert(!has_prefix(value, tilde)) by {
        if has_prefix(value, tilde) {
            assert(value.take(tilde.len() as int)[0] == tilde[0]);
        }
    }
    assert(!has_prefix(value, below)) by {
        if has_prefix(value, below) {
            assert(value.take(below.len() as int)[0] == below[0]);
        }
    }
}

} // verus!
