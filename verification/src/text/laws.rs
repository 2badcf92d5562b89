//! What working on texts promises.

use vstd::prelude::*;

use super::{ascii_lower, is_space, lower_char, stripped};

verus! {

/// What is left of a text without the white space around it stands in it with
/// nothing but white space before and behind it, and itself neither begins
/// nor ends with any; nothing is left if and only if there is nothing else.
pub proof fn law_stripped(s: Seq<char>)
    ensures
        stripped(s).len() > 0 <==> exists|i: int| 0 <= i < s.len() && !is_space(#[trigger] s[i]),
        stripped(s).len() > 0 ==> !is_space(stripped(s)[0]) && !is_space(stripped(s).last()),
        exists|at: int| #[trigger] is_stripped_at(s, stripped(s), at),
{
    let t = stripped(s);
    let at = lemma_stripped(s);
    if t.len() > 0 {
        assert(s.subrange(at, at + t.len())[0] == s[at]);
    }
}

proof fn lemma_stripped(s: Seq<char>) -> (at: int)
    ensures
        is_stripped_at(s, stripped(s), at),
        stripped(s).len() > 0 ==> !is_space(stripped(s)[0]) && !is_space(stripped(s).last()),
    decreases s.len(),
{
    let t = stripped(s);
    if s.len() > 0 && is_space(s[0]) {
        let shorter = s.drop_first();
        let at = lemma_stripped(shorter);
        assert(s.subrange(at + 1, at + 1 + t.len()) =~= shorter.subrange(at, at + t.len()));
        assert forall|i: int| 0 <= i < at + 1 || at + 1 + t.len() <= i < s.len() implies is_space(
            #[trigger] s[i],
        ) by {
            if i > 0 {
                assert(shorter[i - 1] == s[i]);
            }
        }
        at + 1
    } else if s.len() > 0 && is_space(s.last()) {
        let shorter = s.drop_last();
        let at = lemma_stripped(shorter);
        assert(s.subrange(at, at + t.len()) =~= shorter.subrange(at, at + t.len()));
        assert forall|i: int| 0 <= i < at || at + t.len() <= i < s.len() implies is_space(
            #[trigger] s[i],
        ) by {
            if i < shorter.len() {
                assert(shorter[i] == s[i]);
            }
        }
        at
    } else {
        assert(s.subrange(0, s.len() as int) =~= s);
        0
    }
}

/// Whether a text stands at a place of another one with nothing but white
/// space around it.
pub open spec fn is_stripped_at(s: Seq<char>, t: Seq<char>, at: int) -> bool {
    &&& 0 <= at
    &&& at + t.len() <= s.len()
    &&& s.subrange(at, at + t.len()) == t
    &&& forall|i: int|
        0 <= i < at || at + t.len() <= i < s.len() ==> is_space(#[trigger] s[i])
}

/// Lower case changes capital letters and nothing else, each to a small one,
/// no two to the same; and what is in lower case stays.
pub proof fn law_lower_case(s: Seq<char>, a: char, b: char)
    ensures
        ascii_lower(s).len() == s.len(),
        forall|i: int|
            0 <= i < s.len() ==> !('A' <= #[trigger] ascii_lower(s)[i] <= 'Z') && (!('A' <= s[i]
                <= 'Z') ==> ascii_lower(s)[i] == s[i]),
        'A' <= a <= 'Z' ==> 'a' <= lower_char(a) <= 'z' && lower_char(a) as int - 'a' as int
            == a as int - 'A' as int,
        'A' <= a <= 'Z' && 'A' <= b <= 'Z' && lower_char(a) == lower_char(b) ==> a == b,
        ascii_lower(ascii_lower(s)) == ascii_lower(s),
{
    assert forall|i: int| 0 <= i < s.len() implies !('A' <= #[trigger] ascii_lower(s)[i] <= 'Z')
        && (!('A' <= s[i] <= 'Z') ==> ascii_lower(s)[i] == s[i]) by {}
    assert(ascii_lower(ascii_lower(s)) =~= ascii_lower(s));
}

} // verus!
