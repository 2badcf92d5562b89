//! Byte strings: the vocabulary that paths, configuration values and file
//! formats are stated in.

use vstd::prelude::*;
use vstd::slice::{slice_subrange, slice_to_vec};

verus! {

/// The byte `/`.
pub const SLASH: u8 = 0x2f;

/// The byte `.`.
pub const DOT: u8 = 0x2e;

/// The byte strings that a list of vectors holds.
pub open spec fn views(v: Seq<Vec<u8>>) -> Seq<Seq<u8>> {
    Seq::new(v.len(), |i: int| v[i]@)
}

/// What an optional byte string holds.
pub open spec fn opt_view(v: Option<Vec<u8>>) -> Option<Seq<u8>> {
    match v {
        Some(b) => Some(b@),
        None => None,
    }
}

/// Whether `s` begins with `prefix`.
pub open spec fn has_prefix<T>(s: Seq<T>, prefix: Seq<T>) -> bool {
    prefix.len() <= s.len() && s.take(prefix.len() as int) == prefix
}

/// Whether `s` ends with `suffix`.
pub open spec fn has_suffix<T>(s: Seq<T>, suffix: Seq<T>) -> bool {
    suffix.len() <= s.len() && s.skip(s.len() - suffix.len()) == suffix
}

/// Whether `sub` occurs in `s` at offset `at`.
pub open spec fn occurs_at<T>(s: Seq<T>, sub: Seq<T>, at: int) -> bool {
    0 <= at && at + sub.len() <= s.len() && s.subrange(at, at + sub.len() as int) == sub
}

/// Whether `sub` occurs anywhere in `s`.
pub open spec fn occurs_in<T>(s: Seq<T>, sub: Seq<T>) -> bool {
    exists|at: int| occurs_at(s, sub, at)
}

/// Whether `i` is the offset of the first `b` in `s`.
pub open spec fn first_at<T>(s: Seq<T>, b: T, i: int) -> bool {
    &&& 0 <= i < s.len()
    &&& s[i] == b
    &&& forall|j: int| 0 <= j < i ==> s[j] != b
}

/// Whether `i` is the offset of the last `b` in `s`.
pub open spec fn last_at<T>(s: Seq<T>, b: T, i: int) -> bool {
    &&& 0 <= i < s.len()
    &&& s[i] == b
    &&& forall|j: int| i < j < s.len() ==> s[j] != b
}

/// The part of `s` before its first `b`; all of `s` when it holds none.
pub open spec fn before_first<T>(s: Seq<T>, b: T) -> Seq<T>
    decreases s.len(),
{
    if s.len() == 0 || s[0] == b {
        Seq::empty()
    } else {
        seq![s[0]] + before_first(s.drop_first(), b)
    }
}

/// The pieces between the occurrences of `sep` in `s`: always one more than
/// there are occurrences.
pub open spec fn split_on<T>(s: Seq<T>, sep: T) -> Seq<Seq<T>>
    decreases s.len(),
{
    if s.len() == 0 {
        seq![Seq::empty()]
    } else {
        let head = split_on(s.drop_last(), sep);
        if s.last() == sep {
            head.push(Seq::empty())
        } else {
            head.drop_last().push(head.last().push(s.last()))
        }
    }
}

/// `parts` with `sep` between each two of them.
pub open spec fn joined<T>(parts: Seq<Seq<T>>, sep: T) -> Seq<T>
    decreases parts.len(),
{
    if parts.len() == 0 {
        Seq::empty()
    } else if parts.len() == 1 {
        parts[0]
    } else {
        joined(parts.drop_last(), sep).push(sep) + parts.last()
    }
}

/// `s` without its longest run of trailing `b`.
pub open spec fn trimmed_end<T>(s: Seq<T>, b: T) -> Seq<T>
    decreases s.len(),
{
    if s.len() > 0 && s.last() == b {
        trimmed_end(s.drop_last(), b)
    } else {
        s
    }
}

/// `s` without its longest run of leading `b`.
pub open spec fn trimmed_start<T>(s: Seq<T>, b: T) -> Seq<T>
    decreases s.len(),
{
    if s.len() > 0 && s[0] == b {
        trimmed_start(s.drop_first(), b)
    } else {
        s
    }
}

/// The part of `s` before its last `b`; nothing when it holds none.
pub open spec fn before_last<T>(s: Seq<T>, b: T) -> Seq<T>
    decreases s.len(),
{
    if s.len() == 0 {
        s
    } else if s.last() == b {
        s.drop_last()
    } else {
        before_last(s.drop_last(), b)
    }
}

/// The part of `s` behind its last `b`; all of `s` when it holds none.
pub open spec fn after_last<T>(s: Seq<T>, b: T) -> Seq<T>
    decreases s.len(),
{
    if s.len() == 0 || s.last() == b {
        Seq::empty()
    } else {
        after_last(s.drop_last(), b).push(s.last())
    }
}

/// What precedes and what follows the last `b`, by its offset; an offset of
/// -1 stands for no `b`.
pub proof fn lemma_around_last<T>(s: Seq<T>, b: T, at: int)
    requires
        -1 <= at < s.len(),
        at >= 0 ==> s[at] == b,
        forall|j: int| at < j < s.len() ==> s[j] != b,
    ensures
        before_last(s, b) == (if at >= 0 { s.take(at) } else { Seq::empty() }),
        after_last(s, b) == s.skip(at + 1),
    decreases s.len(),
{
    if s.len() == 0 {
        assert(s =~= Seq::empty());
        assert(after_last(s, b) =~= s.skip(at + 1));
    } else if at == s.len() - 1 {
        assert(s.drop_last() =~= s.take(at));
        assert(s.skip(at + 1) =~= Seq::empty());
    } else {
        let shorter = s.drop_last();
        assert forall|j: int| at < j < shorter.len() implies shorter[j] != b by {
            assert(s[j] != b);
        }
        lemma_around_last(shorter, b, at);
        if at >= 0 {
            assert(shorter.take(at) =~= s.take(at));
        }
        assert(shorter.skip(at + 1).push(s.last()) =~= s.skip(at + 1));
    }
}

/// What precedes the first `b`, by its offset.
pub proof fn lemma_before_first<T>(s: Seq<T>, b: T, i: int)
    requires
        first_at(s, b, i),
    ensures
        before_first(s, b) == s.take(i),
    decreases s.len(),
{
    if i > 0 {
        let rest = s.drop_first();
        assert(s[0] != b);
        assert forall|j: int| 0 <= j < i - 1 implies rest[j] != b by {
            assert(s[j + 1] != b);
        }
        assert(first_at(rest, b, i - 1));
        lemma_before_first(rest, b, i - 1);
        assert(before_first(s, b) =~= s.take(i));
    } else {
        assert(s.take(0) =~= Seq::empty());
    }
}

/// Where `b` does not occur, all of `s` precedes it.
pub proof fn lemma_before_none<T>(s: Seq<T>, b: T)
    requires
        !s.contains(b),
    ensures
        before_first(s, b) == s,
    decreases s.len(),
{
    if s.len() > 0 {
        assert(s[0] != b);
        let rest = s.drop_first();
        assert(!rest.contains(b)) by {
            if rest.contains(b) {
                let j = choose|j: int| 0 <= j < rest.len() && rest[j] == b;
                assert(s[j + 1] == b);
            }
        }
        lemma_before_none(rest, b);
        assert(before_first(s, b) =~= s);
    } else {
        assert(before_first(s, b) =~= s);
    }
}

/// The elements of `s` that satisfy `keep`, in order.
pub open spec fn kept<T>(s: Seq<T>, keep: spec_fn(T) -> bool) -> Seq<T>
    decreases s.len(),
{
    if s.len() == 0 {
        Seq::empty()
    } else if keep(s.last()) {
        kept(s.drop_last(), keep).push(s.last())
    } else {
        kept(s.drop_last(), keep)
    }
}

/// One ASCII byte in lower case; every other byte as it is.
pub open spec fn lower_byte(b: u8) -> u8 {
    if 0x41 <= b <= 0x5a {
        (b + 0x20) as u8
    } else {
        b
    }
}

/// A byte string with its ASCII letters in lower case.
pub open spec fn lower_bytes(s: Seq<u8>) -> Seq<u8> {
    Seq::new(s.len(), |i: int| lower_byte(s[i]))
}

/// Whether two byte strings are equal up to the case of ASCII letters.
pub open spec fn same_ignoring_case(a: Seq<u8>, b: Seq<u8>) -> bool {
    lower_bytes(a) == lower_bytes(b)
}

/// `split_on` never returns an empty list.
pub proof fn lemma_split_nonempty<T>(s: Seq<T>, sep: T)
    ensures
        split_on(s, sep).len() >= 1,
    decreases s.len(),
{
    if s.len() > 0 {
        lemma_split_nonempty(s.drop_last(), sep);
    }
}

/// Joining the pieces of a split with the separator gives back the string.
pub proof fn lemma_join_split<T>(s: Seq<T>, sep: T)
    ensures
        joined(split_on(s, sep), sep) == s,
    decreases s.len(),
{
    if s.len() > 0 {
        let head = split_on(s.drop_last(), sep);
        lemma_split_nonempty(s.drop_last(), sep);
        lemma_join_split(s.drop_last(), sep);
        if s.last() == sep {
            assert(head.push(Seq::empty()).drop_last() == head);
            assert(joined(head, sep).push(sep) + Seq::<T>::empty() == s);
        } else {
            let parts = head.drop_last().push(head.last().push(s.last()));
            assert(parts.drop_last() == head.drop_last());
            if head.len() == 1 {
                assert(parts[0] == s);
            } else {
                assert(joined(parts, sep) == joined(head.drop_last(), sep).push(sep)
                    + head.last().push(s.last()));
                assert(joined(head, sep) == joined(head.drop_last(), sep).push(sep) + head.last());
                assert(joined(parts, sep) =~= joined(head, sep).push(s.last()));
                assert(s.drop_last().push(s.last()) =~= s);
            }
        }
    }
}

/// No piece of a split holds the separator.
pub proof fn lemma_split_pieces<T>(s: Seq<T>, sep: T)
    ensures
        forall|i: int, j: int|
            0 <= i < split_on(s, sep).len() && 0 <= j < split_on(s, sep)[i].len()
                ==> #[trigger] split_on(s, sep)[i][j] != sep,
    decreases s.len(),
{
    if s.len() > 0 {
        let head = split_on(s.drop_last(), sep);
        lemma_split_nonempty(s.drop_last(), sep);
        lemma_split_pieces(s.drop_last(), sep);
        let parts = split_on(s, sep);
        assert forall|i: int, j: int| 0 <= i < parts.len() && 0 <= j < parts[i].len() implies
            #[trigger] parts[i][j] != sep by {
            if s.last() != sep && i == head.len() - 1 {
                if j < head.last().len() {
                    assert(head[i][j] != sep);
                }
            } else if i < head.len() {
                assert(head[i][j] != sep);
            }
        }
    }
}

/// What `kept` keeps comes from the list.
pub proof fn lemma_kept_from<T>(s: Seq<T>, keep: spec_fn(T) -> bool)
    ensures
        forall|i: int| 0 <= i < kept(s, keep).len() ==> s.contains(#[trigger] kept(s, keep)[i]) && keep(
            kept(s, keep)[i],
        ),
    decreases s.len(),
{
    if s.len() > 0 {
        let shorter = s.drop_last();
        lemma_kept_from(shorter, keep);
        assert forall|i: int| 0 <= i < kept(s, keep).len() implies s.contains(
            #[trigger] kept(s, keep)[i],
        ) && keep(kept(s, keep)[i]) by {
            let x = kept(s, keep)[i];
            if i < kept(shorter, keep).len() {
                assert(x == kept(shorter, keep)[i]);
                let k = choose|k: int| 0 <= k < shorter.len() && shorter[k] == x;
                assert(s[k] == x);
            } else {
                assert(s[s.len() - 1] == x);
            }
        }
    }
}

/// The places in a list of what `kept` keeps of it.
pub open spec fn kept_places<T>(s: Seq<T>, keep: spec_fn(T) -> bool) -> Seq<int>
    decreases s.len(),
{
    if s.len() == 0 {
        Seq::empty()
    } else if keep(s.last()) {
        kept_places(s.drop_last(), keep).push(s.len() - 1)
    } else {
        kept_places(s.drop_last(), keep)
    }
}

/// What `kept` keeps is what stands at the places where an element is to be
/// kept, in order.
pub proof fn lemma_kept_places<T>(s: Seq<T>, keep: spec_fn(T) -> bool)
    ensures
        kept(s, keep).len() == kept_places(s, keep).len(),
        forall|k: int|
            0 <= k < kept(s, keep).len() ==> 0 <= #[trigger] kept_places(s, keep)[k] < s.len()
                && keep(s[kept_places(s, keep)[k]]) && kept(s, keep)[k] == s[kept_places(s, keep)[k]],
        forall|k: int, l: int|
            0 <= k < l < kept(s, keep).len() ==> #[trigger] kept_places(s, keep)[k]
                < #[trigger] kept_places(s, keep)[l],
        forall|i: int|
            0 <= i < s.len() && keep(#[trigger] s[i]) ==> kept_places(s, keep).contains(i),
    decreases s.len(),
{
    if s.len() > 0 {
        let shorter = s.drop_last();
        lemma_kept_places(shorter, keep);
        let before = kept_places(shorter, keep);
        let after = kept_places(s, keep);
        assert forall|i: int| 0 <= i < s.len() && keep(#[trigger] s[i]) implies after.contains(i) by {
            if i < shorter.len() {
                assert(shorter[i] == s[i]);
                let k = choose|k: int| 0 <= k < before.len() && before[k] == i;
                assert(after[k] == i);
            } else {
                assert(after[before.len() as int] == i);
            }
        }
    }
}

/// Where everything is kept, nothing changes.
pub proof fn lemma_kept_all<T>(s: Seq<T>, keep: spec_fn(T) -> bool)
    requires
        forall|i: int| 0 <= i < s.len() ==> keep(#[trigger] s[i]),
    ensures
        kept(s, keep) == s,
    decreases s.len(),
{
    if s.len() > 0 {
        let shorter = s.drop_last();
        assert forall|i: int| 0 <= i < shorter.len() implies keep(#[trigger] shorter[i]) by {
            assert(shorter[i] == s[i]);
        }
        lemma_kept_all(shorter, keep);
        assert(keep(s[s.len() - 1]));
        assert(kept(s, keep) =~= s);
    } else {
        assert(kept(s, keep) =~= s);
    }
}

/// What is kept of two lists is kept of each.
pub proof fn lemma_kept_appended<T>(a: Seq<T>, b: Seq<T>, keep: spec_fn(T) -> bool)
    ensures
        kept(a + b, keep) == kept(a, keep) + kept(b, keep),
    decreases b.len(),
{
    if b.len() > 0 {
        let shorter = b.drop_last();
        lemma_kept_appended(a, shorter, keep);
        assert((a + b).drop_last() =~= a + shorter);
        assert((a + b).last() == b.last());
        assert(kept(a + b, keep) =~= kept(a, keep) + kept(b, keep));
    } else {
        assert(a + b =~= a);
        assert(kept(a, keep) + kept(b, keep) =~= kept(a, keep));
    }
}

/// A first element that is not kept changes nothing.
pub proof fn lemma_kept_behind<T>(first: T, s: Seq<T>, keep: spec_fn(T) -> bool)
    requires
        !keep(first),
    ensures
        kept(seq![first] + s, keep) == kept(s, keep),
    decreases s.len(),
{
    let whole = seq![first] + s;
    if s.len() > 0 {
        assert(whole.drop_last() =~= seq![first] + s.drop_last());
        assert(whole.last() == s.last());
        lemma_kept_behind(first, s.drop_last(), keep);
    } else {
        assert(whole.drop_last() =~= s);
        assert(whole.last() == first);
    }
}

/// What does not hold the separator is its own only piece.
pub proof fn lemma_split_whole<T>(s: Seq<T>, sep: T)
    requires
        !s.contains(sep),
    ensures
        split_on(s, sep) == seq![s],
    decreases s.len(),
{
    if s.len() > 0 {
        let shorter = s.drop_last();
        assert(!shorter.contains(sep)) by {
            if shorter.contains(sep) {
                let k = choose|k: int| 0 <= k < shorter.len() && shorter[k] == sep;
                assert(s[k] == sep);
            }
        }
        lemma_split_whole(shorter, sep);
        assert(s[s.len() - 1] != sep);
        assert(shorter.push(s.last()) =~= s);
        assert(split_on(s, sep) =~= seq![s]);
    } else {
        assert(s =~= Seq::empty());
        assert(split_on(s, sep) =~= seq![s]);
    }
}

/// A separator and a piece without one behind `a` add that piece.
pub proof fn lemma_split_appended<T>(a: Seq<T>, b: Seq<T>, sep: T)
    requires
        !b.contains(sep),
    ensures
        split_on(a.push(sep) + b, sep) == split_on(a, sep).push(b),
    decreases b.len(),
{
    let whole = a.push(sep) + b;
    lemma_split_nonempty(a, sep);
    if b.len() > 0 {
        let shorter = b.drop_last();
        assert(!shorter.contains(sep)) by {
            if shorter.contains(sep) {
                let k = choose|k: int| 0 <= k < shorter.len() && shorter[k] == sep;
                assert(b[k] == sep);
            }
        }
        lemma_split_appended(a, shorter, sep);
        assert(whole.drop_last() =~= a.push(sep) + shorter);
        assert(whole.last() == b.last());
        assert(b[b.len() - 1] != sep);
        let head = split_on(a, sep).push(shorter);
        assert(head.drop_last() =~= split_on(a, sep));
        assert(shorter.push(b.last()) =~= b);
    } else {
        assert(whole =~= a.push(sep));
        assert(whole.drop_last() =~= a);
        assert(b =~= Seq::empty());
    }
}

/// A separator between two texts parts the pieces of the one from those of
/// the other.
pub proof fn lemma_split_both<T>(a: Seq<T>, b: Seq<T>, sep: T)
    ensures
        split_on(a.push(sep) + b, sep) == split_on(a, sep) + split_on(b, sep),
    decreases b.len(),
{
    let whole = a.push(sep) + b;
    lemma_split_nonempty(a, sep);
    lemma_split_nonempty(b, sep);
    if b.len() > 0 {
        let shorter = b.drop_last();
        lemma_split_both(a, shorter, sep);
        lemma_split_nonempty(shorter, sep);
        assert(whole.drop_last() =~= a.push(sep) + shorter);
        assert(whole.last() == b.last());
        assert(split_on(whole, sep) =~= split_on(a, sep) + split_on(b, sep));
    } else {
        assert(whole =~= a.push(sep));
        assert(whole.drop_last() =~= a);
        assert(split_on(whole, sep) =~= split_on(a, sep) + split_on(b, sep));
    }
}

/// A leading separator adds an empty first piece.
pub proof fn lemma_split_behind<T>(s: Seq<T>, sep: T)
    ensures
        split_on(seq![sep] + s, sep) == seq![Seq::<T>::empty()] + split_on(s, sep),
    decreases s.len(),
{
    let none = Seq::<T>::empty();
    let whole = seq![sep] + s;
    lemma_split_nonempty(s, sep);
    if s.len() > 0 {
        let shorter = s.drop_last();
        lemma_split_behind(shorter, sep);
        lemma_split_nonempty(shorter, sep);
        assert(whole.drop_last() =~= seq![sep] + shorter);
        assert(whole.last() == s.last());
        assert(split_on(whole, sep) =~= seq![none] + split_on(s, sep));
    } else {
        assert(whole.drop_last() =~= none);
        assert(split_on(none, sep) =~= seq![none]);
        assert(split_on(whole, sep) =~= seq![none] + split_on(s, sep));
    }
}

/// Splitting takes back what joining did, where no part holds the separator.
pub proof fn lemma_split_joined<T>(parts: Seq<Seq<T>>, sep: T)
    requires
        parts.len() > 0,
        forall|i: int| 0 <= i < parts.len() ==> !(#[trigger] parts[i]).contains(sep),
    ensures
        split_on(joined(parts, sep), sep) == parts,
    decreases parts.len(),
{
    if parts.len() == 1 {
        lemma_split_whole(parts[0], sep);
        assert(parts =~= seq![parts[0]]);
    } else {
        let shorter = parts.drop_last();
        assert forall|i: int| 0 <= i < shorter.len() implies !(#[trigger] shorter[i]).contains(
            sep,
        ) by {
            assert(shorter[i] == parts[i]);
        }
        lemma_split_joined(shorter, sep);
        assert(!parts[parts.len() - 1].contains(sep));
        lemma_split_appended(joined(shorter, sep), parts.last(), sep);
        assert(shorter.push(parts.last()) =~= parts);
    }
}

/// Whether a text stands at a place of another one, between separators and
/// its ends.
pub open spec fn stands_at<T>(s: Seq<T>, sep: T, p: Seq<T>, i: int) -> bool {
    &&& occurs_at(s, p, i)
    &&& i == 0 || s[i - 1] == sep
    &&& i + p.len() == s.len() || s[i + p.len()] == sep
}

/// What is joined of parts without the separator holds between separators
/// these parts and nothing else.
proof fn lemma_joined_stands<T>(parts: Seq<Seq<T>>, sep: T, p: Seq<T>)
    requires
        parts.len() > 0,
        !p.contains(sep),
        forall|i: int| 0 <= i < parts.len() ==> !(#[trigger] parts[i]).contains(sep),
    ensures
        parts.contains(p) <==> exists|i: int| stands_at(joined(parts, sep), sep, p, i),
    decreases parts.len(),
{
    let s = joined(parts, sep);
    let last = parts.last();
    if parts.len() == 1 {
        if parts.contains(p) {
            assert(s.subrange(0, s.len() as int) =~= s);
            assert(stands_at(s, sep, p, 0));
        }
        if exists|i: int| stands_at(s, sep, p, i) {
            let i = choose|i: int| stands_at(s, sep, p, i);
            if i > 0 {
                assert(parts[0].contains(s[i - 1]));
            }
            if i + p.len() < s.len() {
                assert(parts[0].contains(s[i + p.len()]));
            }
            assert(s.subrange(0, s.len() as int) =~= s);
            assert(parts[0] == p);
        }
    } else {
        let before = parts.drop_last();
        let a = joined(before, sep);
        assert forall|i: int| 0 <= i < before.len() implies !(#[trigger] before[i]).contains(sep) by {
            assert(before[i] == parts[i]);
        }
        lemma_joined_stands(before, sep, p);
        assert(s == a.push(sep) + last);
        let n = a.len() as int;
        assert(s[n] == sep);
        assert(!parts[parts.len() - 1].contains(sep));
        assert forall|k: int| n < k < s.len() implies s[k] != sep by {
            assert(s[k] == last[k - n - 1]);
            assert(last.contains(last[k - n - 1]));
        }
        if parts.contains(p) {
            let k = choose|k: int| 0 <= k < parts.len() && parts[k] == p;
            if k < before.len() {
                assert(before[k] == p);
                let i = choose|i: int| stands_at(a, sep, p, i);
                assert(s.subrange(i, i + p.len()) =~= a.subrange(i, i + p.len()));
                assert(stands_at(s, sep, p, i));
            } else {
                assert(s.subrange(n + 1, n + 1 + p.len()) =~= p);
                assert(stands_at(s, sep, p, n + 1));
            }
        }
        if exists|i: int| stands_at(s, sep, p, i) {
            let i = choose|i: int| stands_at(s, sep, p, i);
            let piece = s.subrange(i, i + p.len());
            if i <= n {
                if i + p.len() > n {
                    assert(piece[n - i] == sep);
                    assert(p.contains(p[n - i]));
                }
                assert(a.subrange(i, i + p.len()) =~= piece);
                assert(stands_at(a, sep, p, i));
                let k = choose|k: int| 0 <= k < before.len() && before[k] == p;
                assert(parts[k] == p);
            } else {
                assert(i == n + 1);
                assert(i + p.len() == s.len());
                assert(piece =~= last);
                assert(parts[parts.len() - 1] == p);
            }
        }
    }
}

/// The pieces of a split are what stands between separators.
pub proof fn lemma_split_stands<T>(s: Seq<T>, sep: T, p: Seq<T>)
    requires
        !p.contains(sep),
    ensures
        split_on(s, sep).contains(p) <==> exists|i: int| stands_at(s, sep, p, i),
{
    let parts = split_on(s, sep);
    lemma_split_nonempty(s, sep);
    lemma_split_pieces(s, sep);
    lemma_join_split(s, sep);
    assert forall|i: int| 0 <= i < parts.len() implies !(#[trigger] parts[i]).contains(sep) by {
        if parts[i].contains(sep) {
            let j = choose|j: int| 0 <= j < parts[i].len() && parts[i][j] == sep;
            assert(split_on(s, sep)[i][j] != sep);
        }
    }
    lemma_joined_stands(parts, sep, p);
}

/// What is joined begins with its first part.
pub proof fn lemma_joined_first<T>(parts: Seq<Seq<T>>, sep: T)
    requires
        parts.len() > 0,
    ensures
        has_prefix(joined(parts, sep), parts[0]),
        forall|j: int| 0 <= j < parts[0].len() ==> joined(parts, sep)[j] == parts[0][j],
    decreases parts.len(),
{
    let whole = joined(parts, sep);
    if parts.len() > 1 {
        let shorter = parts.drop_last();
        lemma_joined_first(shorter, sep);
        assert(shorter[0] == parts[0]);
        assert forall|j: int| 0 <= j < parts[0].len() implies whole[j] == parts[0][j] by {
            assert(joined(shorter, sep)[j] == parts[0][j]);
        }
    }
    assert(whole.subrange(0, parts[0].len() as int) =~= parts[0]);
}

/// Whether two byte strings are equal.
pub fn bytes_eq(a: &[u8], b: &[u8]) -> (r: bool)
    ensures
        r == (a@ == b@),
{
    if a.len() != b.len() {
        return false;
    }
    let mut i: usize = 0;
    while i < a.len()
        invariant
            i <= a@.len(),
            a@.len() == b@.len(),
            forall|j: int| 0 <= j < i ==> a@[j] == b@[j],
        decreases a@.len() - i,
    {
        if a[i] != b[i] {
            return false;
        }
        i += 1;
    }
    assert(a@ =~= b@);
    true
}

/// Whether `s` begins with `prefix`.
pub fn starts_with(s: &[u8], prefix: &[u8]) -> (r: bool)
    ensures
        r == has_prefix(s@, prefix@),
{
    s.len() >= prefix.len() && bytes_eq(slice_subrange(s, 0, prefix.len()), prefix)
}

/// Whether `s` ends with `suffix`.
pub fn ends_with(s: &[u8], suffix: &[u8]) -> (r: bool)
    ensures
        r == has_suffix(s@, suffix@),
{
    s.len() >= suffix.len() && bytes_eq(
        slice_subrange(s, s.len() - suffix.len(), s.len()),
        suffix,
    )
}

/// Appends `more` to `buf`.
pub fn push_all(buf: &mut Vec<u8>, more: &[u8])
    ensures
        final(buf)@ == old(buf)@ + more@,
{
    buf.extend_from_slice(more);
    assert(buf@ =~= old(buf)@ + more@);
}

/// Whether two byte strings are equal up to the case of ASCII letters.
pub fn eq_ignore_case(a: &[u8], b: &[u8]) -> (r: bool)
    ensures
        r == same_ignoring_case(a@, b@),
{
    if a.len() != b.len() {
        assert(lower_bytes(a@).len() != lower_bytes(b@).len());
        return false;
    }
    let mut i: usize = 0;
    while i < a.len()
        invariant
            i <= a@.len(),
            a@.len() == b@.len(),
            forall|j: int| 0 <= j < i ==> lower_byte(a@[j]) == lower_byte(b@[j]),
        decreases a@.len() - i,
    {
        if lower(a[i]) != lower(b[i]) {
            assert(lower_bytes(a@)[i as int] != lower_bytes(b@)[i as int]);
            return false;
        }
        i += 1;
    }
    assert(lower_bytes(a@) =~= lower_bytes(b@));
    true
}

/// One ASCII byte in lower case; every other byte as it is.
pub fn lower(b: u8) -> (r: u8)
    ensures
        r == lower_byte(b),
{
    if 0x41 <= b && b <= 0x5a {
        b + 0x20
    } else {
        b
    }
}

/// The pieces between the occurrences of `sep` in `s`.
pub fn split(s: &[u8], sep: u8) -> (r: Vec<Vec<u8>>)
    ensures
        views(r@) == split_on(s@, sep),
{
    let mut parts: Vec<Vec<u8>> = Vec::new();
    let mut start: usize = 0;
    let mut i: usize = 0;
    assert(s@.take(0) =~= Seq::empty());
    assert(s@.subrange(0, 0) =~= Seq::empty());
    assert(views(parts@).push(s@.subrange(0, 0)) =~= split_on(s@.take(0), sep));
    while i < s.len()
        invariant
            start <= i <= s@.len(),
            views(parts@).push(s@.subrange(start as int, i as int)) == split_on(
                s@.take(i as int),
                sep,
            ),
        decreases s@.len() - i,
    {
        let ghost before = split_on(s@.take(i as int), sep);
        let ghost next = s@.take(i + 1);
        assert(next.drop_last() =~= s@.take(i as int));
        assert(before.drop_last() =~= views(parts@));
        if s[i] == sep {
            let ghost old_parts = parts@;
            parts.push(slice_to_vec(slice_subrange(s, start, i)));
            assert(views(parts@) =~= views(old_parts).push(s@.subrange(start as int, i as int)));
            start = i + 1;
            assert(s@.subrange(start as int, i + 1) =~= Seq::empty());
        } else {
            assert(s@.subrange(start as int, i + 1) =~= before.last().push(s@[i as int]));
        }
        i += 1;
    }
    assert(s@.take(s@.len() as int) =~= s@);
    let ghost old_parts = parts@;
    parts.push(slice_to_vec(slice_subrange(s, start, s.len())));
    assert(views(parts@) =~= views(old_parts).push(s@.subrange(start as int, s@.len() as int)));
    parts
}

/// A copy of a list of byte strings.
pub fn copy_list(v: &Vec<Vec<u8>>) -> (r: Vec<Vec<u8>>)
    ensures
        views(r@) == views(v@),
{
    let mut out: Vec<Vec<u8>> = Vec::new();
    let mut i: usize = 0;
    while i < v.len()
        invariant
            i <= v@.len(),
            out@.len() == i,
            forall|j: int| 0 <= j < i ==> out@[j]@ == v@[j]@,
        decreases v@.len() - i,
    {
        out.push(slice_to_vec(v[i].as_slice()));
        i += 1;
    }
    assert(views(out@) =~= views(v@));
    out
}

/// Whether two lists hold the same byte strings in the same order.
pub fn lists_eq(a: &Vec<Vec<u8>>, b: &Vec<Vec<u8>>) -> (r: bool)
    ensures
        r == (views(a@) == views(b@)),
{
    if a.len() != b.len() {
        assert(views(a@).len() != views(b@).len());
        return false;
    }
    let mut i: usize = 0;
    while i < a.len()
        invariant
            i <= a@.len(),
            a@.len() == b@.len(),
            forall|j: int| 0 <= j < i ==> a@[j]@ == b@[j]@,
        decreases a@.len() - i,
    {
        if !bytes_eq(a[i].as_slice(), b[i].as_slice()) {
            assert(views(a@)[i as int] != views(b@)[i as int]);
            return false;
        }
        i += 1;
    }
    assert(views(a@) =~= views(b@));
    true
}

/// The offset of the first `needle` in `haystack`.
///
/// Calls `memchr::memchr`, which returns the offset of the first occurrence
/// of the byte, or `None` when the haystack does not hold it.
#[verifier::external_body]
pub(crate) fn find_byte(needle: u8, haystack: &[u8]) -> (r: Option<usize>)
    ensures
        match r {
            Some(i) => first_at(haystack@, needle, i as int),
            None => !haystack@.contains(needle),
        },
{
    memchr::memchr(needle, haystack)
}

/// The offset of the last `needle` in `haystack`.
///
/// Calls `memchr::memrchr`, which returns the offset of the last occurrence
/// of the byte, or `None` when the haystack does not hold it.
#[verifier::external_body]
pub(crate) fn rfind_byte(needle: u8, haystack: &[u8]) -> (r: Option<usize>)
    ensures
        match r {
            Some(i) => last_at(haystack@, needle, i as int),
            None => !haystack@.contains(needle),
        },
{
    memchr::memrchr(needle, haystack)
}

/// Every offset of `needle` in `haystack`, from the last to the first.
///
/// Calls `memchr::memrchr_iter`, which yields the offset of every occurrence
/// of the byte in reverse order.
#[verifier::external_body]
pub(crate) fn rfind_all(needle: u8, haystack: &[u8]) -> (r: Vec<usize>)
    ensures
        forall|k: int|
            0 <= k < r@.len() ==> r@[k] < haystack@.len() && haystack@[r@[k] as int] == needle,
        forall|k: int, l: int| 0 <= k < l < r@.len() ==> r@[k] > r@[l],
        forall|i: int|
            0 <= i < haystack@.len() && haystack@[i] == needle ==> exists|k: int|
                0 <= k < r@.len() && #[trigger] r@[k] == i,
{
    memchr::memrchr_iter(needle, haystack).collect()
}

/// Whether `needle` occurs in `haystack`.
///
/// Calls `memchr::memmem::find`, which returns the offset of an occurrence of
/// the byte string, or `None` when there is none. An empty needle occurs in
/// every haystack.
#[verifier::external_body]
pub(crate) fn find_bytes(haystack: &[u8], needle: &[u8]) -> (r: Option<usize>)
    ensures
        match r {
            Some(i) => occurs_at(haystack@, needle@, i as int),
            None => !occurs_in(haystack@, needle@),
        },
{
    memchr::memmem::find(haystack, needle)
}

} // verus!
