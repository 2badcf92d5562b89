//! Which log filter applies.

use vstd::prelude::*;
use vstd::slice::slice_subrange;
use vstd::utf8::encode_utf8;

use crate::bytes::split_on;
use crate::text::{chars, is_space, opt_text, space, split_chars, text};
use crate::url::opt_string;

verus! {

/// Whether a text is a list of log filter directives.
pub uninterp spec fn is_filter(directives: Seq<char>) -> bool;

/// Whether a byte goes on a character that an earlier byte began.
pub open spec fn goes_on(bytes: Seq<u8>, at: int) -> bool {
    at < bytes.len() && 0x80 <= bytes[at] < 0xc0
}

/// Whether a byte is one at which a directive is cut: `=`, `[`, `]`, `{` or
/// `}`.
pub open spec fn is_mark(b: u8) -> bool {
    b == 0x3d || b == 0x5b || b == 0x5d || b == 0x7b || b == 0x7d
}

/// A text without the white space at its start.
pub open spec fn unspaced(s: Seq<char>) -> Seq<char>
    decreases s.len(),
{
    if s.len() > 0 && is_space(s[0]) {
        unspaced(s.drop_first())
    } else {
        s
    }
}

/// Whether a directive can be cut at its marks. Their positions are those in
/// the text without the white space at its start, and are used in the text
/// with it, where none may fall inside a character.
pub open spec fn is_cuttable(directive: Seq<char>) -> bool {
    let whole = encode_utf8(directive);
    let rest = encode_utf8(unspaced(directive));
    forall|i: int|
        0 <= i < rest.len() && is_mark(#[trigger] rest[i]) ==> !goes_on(whole, i) && !goes_on(
            whole,
            i + 1,
        )
}

/// Whether every directive of a list can be cut.
pub open spec fn is_readable(directives: Seq<char>) -> bool {
    forall|k: int|
        0 <= k < split_on(directives, ',').len() ==> is_cuttable(
            #[trigger] split_on(directives, ',')[k],
        )
}

/// Whether a text is a list of log filter directives.
///
/// Calls `tracing_subscriber::EnvFilter::try_new`, which succeeds where every
/// directive parses. The result is a function of the text. It takes a
/// directive apart by positions counted without the white space before it,
/// and panics where one of them falls inside a character: such texts are left
/// out.
#[verifier::external_body]
fn filter_parses(directives: &str) -> (r: bool)
    requires
        is_readable(directives@),
    ensures
        r == is_filter(directives@),
{
    tracing_subscriber::EnvFilter::try_new(directives).is_ok()
}

/// Whether a directive can be cut at its marks.
fn cuttable(directive: &[char]) -> (r: bool)
    ensures
        r == is_cuttable(directive@),
{
    let n: usize = directive.len();
    let mut from: usize = 0;
    assert(directive@.skip(0) =~= directive@);
    while from < n && space(directive[from])
        invariant
            from <= n == directive@.len(),
            unspaced(directive@) == unspaced(directive@.skip(from as int)),
        decreases n - from,
    {
        assert(directive@.skip(from as int).drop_first() =~= directive@.skip(from + 1));
        from += 1;
    }
    let kept = slice_subrange(directive, from, n);
    assert(kept@ =~= directive@.skip(from as int));
    let whole_text = text(directive);
    let rest_text = text(kept);
    let whole = whole_text.as_str().as_bytes();
    let rest = rest_text.as_str().as_bytes();
    let mut i: usize = 0;
    while i < rest.len()
        invariant
            i <= rest@.len(),
            rest@ == encode_utf8(unspaced(directive@)),
            whole@ == encode_utf8(directive@),
            forall|j: int|
                0 <= j < i && is_mark(#[trigger] rest@[j]) ==> !goes_on(whole@, j) && !goes_on(
                    whole@,
                    j + 1,
                ),
        decreases rest@.len() - i,
    {
        let b: u8 = rest[i];
        if b == 0x3d || b == 0x5b || b == 0x5d || b == 0x7b || b == 0x7d {
            assert(is_mark(rest@[i as int]));
            if i < whole.len() && 0x80 <= whole[i] && whole[i] < 0xc0 {
                return false;
            }
            let next: usize = i + 1;
            if next < whole.len() && 0x80 <= whole[next] && whole[next] < 0xc0 {
                return false;
            }
        }
        i += 1;
    }
    true
}

/// Whether every directive of a list can be cut.
pub fn readable(directives: &str) -> (r: bool)
    ensures
        r == is_readable(directives@),
{
    let all = chars(directives);
    let pieces = split_chars(all.as_slice(), ',');
    let ghost split = split_on(directives@, ',');
    let mut k: usize = 0;
    while k < pieces.len()
        invariant
            k <= pieces@.len(),
            crate::text::char_views(pieces@) == split,
            split == split_on(directives@, ','),
            forall|j: int| 0 <= j < k ==> is_cuttable(#[trigger] split[j]),
        decreases pieces@.len() - k,
    {
        assert(split[k as int] == pieces@[k as int]@);
        if !cuttable(pieces[k].as_slice()) {
            return false;
        }
        k += 1;
    }
    true
}

/// The directives that apply, and the first that were given and do not parse.
/// The second variable is looked at only where the first one gives none.
pub open spec fn picked(
    first: Option<Seq<char>>,
    first_parses: bool,
    second: Option<Seq<char>>,
    second_parses: bool,
) -> (Option<Seq<char>>, Option<Seq<char>>) {
    if first is Some && first_parses {
        (first, None)
    } else if second is Some && second_parses {
        (second, first)
    } else if first is Some {
        (None, first)
    } else {
        (None, second)
    }
}

/// The directives that apply, and the first that were given and do not parse,
/// given which parse.
pub fn pick(
    first: Option<&str>,
    first_parses: bool,
    second: Option<&str>,
    second_parses: bool,
) -> (r: (Option<String>, Option<String>))
    ensures
        (opt_string(r.0), opt_string(r.1)) == picked(
            opt_text(first),
            first_parses,
            opt_text(second),
            second_parses,
        ),
{
    let invalid = match first {
        Some(s) => {
            if first_parses {
                return (Some(String::from_str(s)), None);
            }
            Some(String::from_str(s))
        },
        None => None,
    };
    match second {
        Some(s) => {
            if second_parses {
                (Some(String::from_str(s)), invalid)
            } else if invalid.is_some() {
                (None, invalid)
            } else {
                (None, Some(String::from_str(s)))
            }
        },
        None => (None, invalid),
    }
}

/// Whether the values that are looked at can be read: the second one only
/// where the first is not set or does not parse.
pub open spec fn are_readable(first: Option<Seq<char>>, second: Option<Seq<char>>) -> bool {
    &&& first matches Some(s) ==> is_readable(s)
    &&& second is Some && !(first is Some && is_filter(first->0)) ==> is_readable(second->0)
}

/// The log filter directives that apply: those of the first variable where
/// they parse, else those of the second. The other result is the first value
/// that was given and does not parse, so that it can be reported.
pub fn resolve_log_env(scap_log: Option<&str>, rust_log: Option<&str>) -> (r: (
    Option<String>,
    Option<String>,
))
    requires
        are_readable(opt_text(scap_log), opt_text(rust_log)),
    ensures
        (opt_string(r.0), opt_string(r.1)) == picked(
            opt_text(scap_log),
            scap_log is Some && is_filter(scap_log->0@),
            opt_text(rust_log),
            rust_log is Some && is_filter(rust_log->0@),
        ),
{
    let first = match scap_log {
        Some(s) => filter_parses(s),
        None => false,
    };
    let second = match rust_log {
        Some(s) => !first && filter_parses(s),
        None => false,
    };
    pick(scap_log, first, rust_log, second)
}

/// The log filter directives that apply, as [`resolve_log_env`] gives them;
/// `None` where a value that is looked at cannot be read.
pub fn checked_log_env(scap_log: Option<&str>, rust_log: Option<&str>) -> (r: Option<
    (Option<String>, Option<String>),
>)
    ensures
        match r {
            Some(env) => are_readable(opt_text(scap_log), opt_text(rust_log)) && (
            opt_string(env.0),
            opt_string(env.1),
            ) == picked(
                opt_text(scap_log),
                scap_log is Some && is_filter(scap_log->0@),
                opt_text(rust_log),
                rust_log is Some && is_filter(rust_log->0@),
            ),
            None => !are_readable(opt_text(scap_log), opt_text(rust_log)),
        },
{
    let first = match scap_log {
        Some(s) => {
            if !readable(s) {
                return None;
            }
            filter_parses(s)
        },
        None => false,
    };
    if let Some(s) = rust_log {
        if !first && !readable(s) {
            return None;
        }
    }
    Some(resolve_log_env(scap_log, rust_log))
}

/// The directives that apply are ones that parse, the first variable's before
/// the second's, and there are some wherever either parses. What is reported
/// was given and does not parse, and is the first such value; nothing is
/// passed over in silence but what was not looked at.
pub proof fn law_first_filter_that_parses_applies(
    first: Option<Seq<char>>,
    first_parses: bool,
    second: Option<Seq<char>>,
    second_parses: bool,
)
    ensures
        ({
            let (applies, bad) = picked(first, first_parses, second, second_parses);
            &&& applies is Some <==> (first is Some && first_parses) || (second is Some
                && second_parses)
            &&& applies is Some ==> (applies == first && first_parses) || (applies == second
                && second_parses && !(first is Some && first_parses))
            &&& bad is Some ==> (bad == first && !first_parses) || (bad == second && first is None
                && !second_parses)
            &&& first is Some && !first_parses ==> bad == first
            &&& first is None && second is Some && !second_parses ==> bad == second
        }),
{
}

} // verus!
