//! Unix paths as byte strings.

pub mod laws;

use vstd::prelude::*;
use vstd::slice::{slice_subrange, slice_to_vec};

use crate::bytes::{
    after_last, joined, kept, lemma_around_last, lemma_joined_first, lemma_kept_all,
    lemma_kept_behind, lemma_kept_from, lemma_split_appended, lemma_split_behind,
    lemma_split_joined, lemma_split_pieces, lemma_split_whole, push_all, split, split_on, views,
    DOT, SLASH,
};

verus! {

/// Whether a path begins at the root directory.
pub open spec fn is_absolute_path(p: Seq<u8>) -> bool {
    p.len() > 0 && p[0] == SLASH
}

/// `p` resolved against `base`: an absolute `p` replaces it, any other is
/// appended behind exactly one separator.
pub open spec fn joined_path(base: Seq<u8>, p: Seq<u8>) -> Seq<u8> {
    if is_absolute_path(p) {
        p
    } else if base.len() == 0 || base.last() == SLASH {
        base + p
    } else {
        base.push(SLASH) + p
    }
}

/// Whether a piece of a path is a name or `..`: empty pieces and `.` stand
/// for nothing.
pub open spec fn is_step(part: Seq<u8>) -> bool {
    part.len() > 0 && part != seq![DOT]
}

/// The names and `..` of a path, in order.
pub open spec fn steps(p: Seq<u8>) -> Seq<Seq<u8>> {
    kept(split_on(p, SLASH), |part: Seq<u8>| is_step(part))
}

/// The name a path ends in; none for a path that ends in `..` or holds no
/// name.
pub open spec fn last_name(p: Seq<u8>) -> Option<Seq<u8>> {
    if steps(p).len() == 0 || steps(p).last() == seq![DOT, DOT] {
        None
    } else {
        Some(steps(p).last())
    }
}

/// Whether a path begins at the root directory.
pub fn is_absolute(p: &[u8]) -> (r: bool)
    ensures
        r == is_absolute_path(p@),
{
    p.len() > 0 && p[0] == SLASH
}

/// `p` resolved against `base`.
pub fn join(base: &[u8], p: &[u8]) -> (r: Vec<u8>)
    ensures
        r@ == joined_path(base@, p@),
{
    if is_absolute(p) {
        return slice_to_vec(p);
    }
    let mut out = slice_to_vec(base);
    if base.len() != 0 && base[base.len() - 1] != SLASH {
        out.push(SLASH);
    }
    push_all(&mut out, p);
    out
}

/// Whether a byte string is `..`.
pub fn is_dotdot(part: &[u8]) -> (r: bool)
    ensures
        r == (part@ == seq![DOT, DOT]),
{
    let r = part.len() == 2 && part[0] == DOT && part[1] == DOT;
    assert(r == (part@ =~= seq![DOT, DOT]));
    r
}

/// The names and `..` of a path, in order.
pub fn path_steps(p: &[u8]) -> (r: Vec<Vec<u8>>)
    ensures
        views(r@) == steps(p@),
{
    let parts = split(p, SLASH);
    let ghost all = split_on(p@, SLASH);
    let ghost keep = |part: Seq<u8>| is_step(part);
    let mut out: Vec<Vec<u8>> = Vec::new();
    let mut i: usize = 0;
    assert(all.take(0) =~= Seq::empty());
    assert(views(out@) =~= kept(all.take(0), keep));
    while i < parts.len()
        invariant
            i <= parts@.len(),
            views(parts@) == all,
            keep == (|part: Seq<u8>| is_step(part)),
            views(out@) == kept(all.take(i as int), keep),
        decreases parts@.len() - i,
    {
        let part = parts[i].as_slice();
        assert(part@ == all[i as int]);
        assert(all.take(i + 1).drop_last() =~= all.take(i as int));
        let step = part.len() != 0 && !(part.len() == 1 && part[0] == DOT);
        assert(step == (part@.len() > 0 && !(part@ =~= seq![DOT])));
        if step {
            let ghost before = out@;
            out.push(slice_to_vec(part));
            assert(views(out@) =~= views(before).push(part@));
        }
        i += 1;
    }
    assert(all.take(i as int) =~= all);
    out
}

/// The name a path ends in.
pub fn file_name(p: &[u8]) -> (r: Option<Vec<u8>>)
    ensures
        match r {
            Some(name) => last_name(p@) == Some(name@),
            None => last_name(p@) is None,
        },
{
    let mut parts = path_steps(p);
    if parts.len() == 0 {
        assert(views(parts@).len() == 0);
        return None;
    }
    let ghost all = views(parts@);
    match parts.pop() {
        Some(last) => {
            assert(last@ == all.last());
            if is_dotdot(last.as_slice()) {
                None
            } else {
                Some(last)
            }
        },
        None => None,
    }
}

/// The names that are left when every `..` takes back the name before it; one
/// with no name before it is dropped.
pub open spec fn resolved(parts: Seq<Seq<u8>>) -> Seq<Seq<u8>>
    decreases parts.len(),
{
    if parts.len() == 0 {
        Seq::empty()
    } else {
        let before = resolved(parts.drop_last());
        if parts.last() != seq![DOT, DOT] {
            before.push(parts.last())
        } else if before.len() == 0 {
            before
        } else {
            before.drop_last()
        }
    }
}

/// The path made of names: from the root directory, or relative; `.` for a
/// relative path without a name.
pub open spec fn spelled_path(absolute: bool, names: Seq<Seq<u8>>) -> Seq<u8> {
    if absolute {
        seq![SLASH] + joined(names, SLASH)
    } else if names.len() == 0 {
        seq![DOT]
    } else {
        joined(names, SLASH)
    }
}

/// A path without `.`, `..` and repeated slashes, by its spelling alone.
pub open spec fn cleaned(p: Seq<u8>) -> Seq<u8> {
    spelled_path(is_absolute_path(p), resolved(steps(p)))
}

/// A path without `.`, `..` and repeated slashes, by its spelling alone.
pub fn clean_path(p: &[u8]) -> (r: Vec<u8>)
    ensures
        r@ == cleaned(p@),
{
    let parts = path_steps(p);
    let ghost all = steps(p@);
    let mut names: Vec<Vec<u8>> = Vec::new();
    let mut i: usize = 0;
    assert(all.take(0) =~= Seq::empty());
    assert(views(names@) =~= resolved(all.take(0)));
    while i < parts.len()
        invariant
            i <= parts@.len(),
            views(parts@) == all,
            views(names@) == resolved(all.take(i as int)),
        decreases parts@.len() - i,
    {
        let ghost before = views(names@);
        proof {
            assert(all.take(i + 1).drop_last() =~= all.take(i as int));
            assert(all.take(i + 1).last() == parts@[i as int]@);
        }
        if !is_dotdot(parts[i].as_slice()) {
            names.push(slice_to_vec(parts[i].as_slice()));
            assert(views(names@) =~= before.push(all[i as int]));
        } else if names.len() > 0 {
            let _ = names.pop();
            assert(views(names@) =~= before.drop_last());
        }
        i += 1;
    }
    assert(all.take(i as int) =~= all);
    let absolute = is_absolute(p);
    let mut out: Vec<u8> = Vec::new();
    if absolute {
        out.push(SLASH);
    } else if names.len() == 0 {
        out.push(DOT);
        assert(out@ =~= seq![DOT]);
        return out;
    }
    let ghost start = out@;
    let ghost list = views(names@);
    let mut k: usize = 0;
    proof {
        assert(list.take(0) =~= Seq::empty());
        assert(out@ =~= start + joined(list.take(0), SLASH));
    }
    while k < names.len()
        invariant
            k <= names@.len(),
            views(names@) == list,
            out@ == start + joined(list.take(k as int), SLASH),
        decreases names@.len() - k,
    {
        let ghost done = joined(list.take(k as int), SLASH);
        if k > 0 {
            out.push(SLASH);
        }
        push_all(&mut out, names[k].as_slice());
        proof {
            let next = list.take(k + 1);
            assert(next.drop_last() =~= list.take(k as int));
            assert(next.last() == names@[k as int]@);
            if k == 0 {
                assert(done =~= Seq::empty());
                assert(out@ =~= start + joined(next, SLASH));
            } else {
                assert(out@ =~= start + (done.push(SLASH) + next.last()));
            }
        }
        k += 1;
    }
    proof {
        assert(list.take(k as int) =~= list);
        if absolute {
            assert(start =~= seq![SLASH]);
        } else {
            assert(start + joined(list, SLASH) =~= joined(list, SLASH));
        }
    }
    out
}

/// Every step but `..` is a name.
proof fn lemma_steps_are_names(p: Seq<u8>)
    ensures
        forall|i: int|
            0 <= i < steps(p).len() ==> is_step(#[trigger] steps(p)[i]) && !steps(p)[i].contains(
                SLASH,
            ),
{
    let all = split_on(p, SLASH);
    let keep = |part: Seq<u8>| is_step(part);
    lemma_kept_from(all, keep);
    lemma_split_pieces(p, SLASH);
    assert forall|i: int| 0 <= i < steps(p).len() implies is_step(#[trigger] steps(p)[i])
        && !steps(p)[i].contains(SLASH) by {
        let part = steps(p)[i];
        let k = choose|k: int| 0 <= k < all.len() && all[k] == part;
        if part.contains(SLASH) {
            let j = choose|j: int| 0 <= j < part.len() && part[j] == SLASH;
            assert(all[k][j] != SLASH);
        }
    }
}

/// Whether a byte string is a name: a step that is not `..`.
pub open spec fn is_name(part: Seq<u8>) -> bool {
    is_step(part) && part != seq![DOT, DOT] && !part.contains(SLASH)
}

/// What is left of steps is made of names.
proof fn lemma_resolved_names(parts: Seq<Seq<u8>>)
    requires
        forall|i: int|
            0 <= i < parts.len() ==> is_step(#[trigger] parts[i]) && !parts[i].contains(SLASH),
    ensures
        forall|i: int| 0 <= i < resolved(parts).len() ==> is_name(#[trigger] resolved(parts)[i]),
    decreases parts.len(),
{
    if parts.len() > 0 {
        let shorter = parts.drop_last();
        assert forall|i: int| 0 <= i < shorter.len() implies is_step(#[trigger] shorter[i])
            && !shorter[i].contains(SLASH) by {
            assert(shorter[i] == parts[i]);
        }
        lemma_resolved_names(shorter);
        assert(parts[parts.len() - 1] == parts.last());
        let before = resolved(shorter);
        assert forall|i: int| 0 <= i < resolved(parts).len() implies is_name(
            #[trigger] resolved(parts)[i],
        ) by {
            if i < before.len() {
                assert(resolved(parts)[i] == before[i]);
            }
        }
    }
}

/// Names take nothing back.
proof fn lemma_names_resolve_to_themselves(names: Seq<Seq<u8>>)
    requires
        forall|i: int| 0 <= i < names.len() ==> is_name(#[trigger] names[i]),
    ensures
        resolved(names) == names,
    decreases names.len(),
{
    if names.len() > 0 {
        let shorter = names.drop_last();
        assert forall|i: int| 0 <= i < shorter.len() implies is_name(#[trigger] shorter[i]) by {
            assert(shorter[i] == names[i]);
        }
        lemma_names_resolve_to_themselves(shorter);
        assert(is_name(names[names.len() - 1]));
        assert(resolved(names) =~= names);
    } else {
        assert(resolved(names) =~= names);
    }
}

/// The steps of a path made of names are those names.
proof fn lemma_steps_of_names(absolute: bool, names: Seq<Seq<u8>>)
    requires
        forall|i: int| 0 <= i < names.len() ==> is_name(#[trigger] names[i]),
    ensures
        steps(spelled_path(absolute, names)) == names,
        is_absolute_path(spelled_path(absolute, names)) == absolute,
{
    let keep = |part: Seq<u8>| is_step(part);
    let none = Seq::<u8>::empty();
    let p = spelled_path(absolute, names);
    lemma_kept_all(names, keep);
    if names.len() == 0 {
        let body = joined(names, SLASH);
        assert(body =~= none);
        if absolute {
            assert(p =~= none.push(SLASH) + none);
            lemma_split_appended(none, none, SLASH);
            assert(split_on(p, SLASH) =~= seq![none, none]);
            reveal_with_fuel(kept, 3);
            assert(steps(p) =~= names);
        } else {
            let dot = seq![DOT];
            lemma_split_whole(dot, SLASH);
            assert(split_on(p, SLASH) =~= seq![dot]);
            reveal_with_fuel(kept, 2);
            assert(seq![dot].drop_last() =~= Seq::empty());
            assert(steps(p) =~= names);
        }
    } else {
        let body = joined(names, SLASH);
        lemma_split_joined(names, SLASH);
        lemma_joined_first(names, SLASH);
        assert(is_name(names[0]));
        assert(body[0] == names[0][0]);
        assert(names[0][0] != SLASH) by {
            if names[0][0] == SLASH {
                assert(names[0].contains(SLASH));
            }
        }
        if absolute {
            lemma_split_behind(body, SLASH);
            let parts = split_on(p, SLASH);
            assert(parts =~= seq![none] + names);
            lemma_kept_behind(none, names, keep);
        }
    }
}

/// A cleaned path holds no `..`, and cleaning it again changes nothing.
pub proof fn law_clean_path_is_clean(p: Seq<u8>)
    ensures
        forall|i: int| 0 <= i < steps(cleaned(p)).len() ==> is_name(#[trigger] steps(cleaned(p))[i]),
        cleaned(cleaned(p)) == cleaned(p),
        is_absolute_path(cleaned(p)) == is_absolute_path(p),
{
    let names = resolved(steps(p));
    lemma_steps_are_names(p);
    lemma_resolved_names(steps(p));
    lemma_steps_of_names(is_absolute_path(p), names);
    lemma_names_resolve_to_themselves(names);
}

/// A path without the slashes and the `.` that it ends in; the root
/// directory stays.
pub open spec fn cut(p: Seq<u8>) -> Seq<u8>
    decreases p.len(),
{
    if p.len() > 1 && p.last() == SLASH {
        cut(p.drop_last())
    } else if p.len() > 1 && p.last() == DOT && p[p.len() - 2] == SLASH {
        cut(p.drop_last())
    } else {
        p
    }
}

/// The path of the directory that holds what a path names; none for the root
/// directory and for an empty path.
pub open spec fn parent_dir(p: Seq<u8>) -> Option<Seq<u8>> {
    let t = cut(p);
    if t.len() == 0 || t == seq![SLASH] {
        None
    } else {
        Some(cut(t.take(t.len() - after_last(t, SLASH).len())))
    }
}

fn cut_end(p: &[u8], end: usize) -> (r: usize)
    requires
        end <= p@.len(),
    ensures
        r <= end,
        cut(p@.take(end as int)) == p@.take(r as int),
{
    let mut n: usize = end;
    while n > 1 && (p[n - 1] == SLASH || (p[n - 1] == DOT && p[n - 2] == SLASH))
        invariant
            n <= end <= p@.len(),
            cut(p@.take(end as int)) == cut(p@.take(n as int)),
        decreases n,
    {
        assert(p@.take(n as int).drop_last() =~= p@.take(n - 1));
        n = n - 1;
    }
    n
}

/// The path of the directory that holds what a path names.
pub fn parent(p: &[u8]) -> (r: Option<Vec<u8>>)
    ensures
        match r {
            Some(d) => parent_dir(p@) == Some(d@),
            None => parent_dir(p@) is None,
        },
{
    let whole: usize = p.len();
    let n = cut_end(p, whole);
    let ghost t = cut(p@);
    proof {
        assert(p@.take(whole as int) =~= p@);
        assert(t == p@.take(n as int));
        assert((n == 1 && p@[0] == SLASH) == (t =~= seq![SLASH]));
    }
    if n == 0 || (n == 1 && p[0] == SLASH) {
        return None;
    }
    let mut k: usize = n;
    assert(t.skip(n as int) =~= Seq::empty());
    while k > 0 && p[k - 1] != SLASH
        invariant
            k <= n <= p@.len(),
            t == p@.take(n as int),
            forall|j: int| k <= j < n ==> t[j] != SLASH,
        decreases k,
    {
        assert(t[k - 1] == p@[k - 1]);
        k = k - 1;
    }
    proof {
        if k > 0 {
            assert(t[k - 1] == SLASH);
        }
        lemma_around_last(t, SLASH, k - 1);
        assert(t.take(t.len() - after_last(t, SLASH).len()) =~= p@.take(k as int));
    }
    let m = cut_end(p, k);
    assert(p@.subrange(0, m as int) =~= p@.take(m as int));
    Some(slice_to_vec(slice_subrange(p, 0, m)))
}

} // verus!
