//! What working on paths by their spelling promises.

use vstd::prelude::*;

use super::{
    cleaned, cut, is_absolute_path, is_name, is_step, joined_path, last_name, parent_dir, resolved,
    spelled_path, steps,
};
use crate::bytes::{
    joined, kept, lemma_around_last, lemma_kept_all, lemma_kept_appended, lemma_split_both,
    lemma_split_whole, split_on, DOT, SLASH,
};

verus! {

/// The steps of two paths with a slash between them are those of the one and
/// then those of the other.
proof fn lemma_steps_of_both(a: Seq<u8>, b: Seq<u8>)
    ensures
        steps(a.push(SLASH) + b) == steps(a) + steps(b),
{
    let keep = |part: Seq<u8>| is_step(part);
    lemma_split_both(a, b, SLASH);
    lemma_kept_appended(split_on(a, SLASH), split_on(b, SLASH), keep);
}

proof fn lemma_step_of(part: Seq<u8>)
    requires
        !part.contains(SLASH),
    ensures
        is_step(part) ==> steps(part) == seq![part],
        !is_step(part) ==> steps(part).len() == 0,
{
    let keep = |part: Seq<u8>| is_step(part);
    lemma_split_whole(part, SLASH);
    let one = seq![part];
    if is_step(part) {
        lemma_kept_all(one, keep);
    } else {
        assert(one.drop_last() =~= Seq::<Seq<u8>>::empty());
        assert(kept(one.drop_last(), keep).len() == 0);
        assert(one.last() == part);
    }
}

/// Cleaning reads a path step by step: a name is appended, `..` takes back
/// the name before it, and neither `.`, nor a slash behind a slash or at the
/// end, changes anything.
pub proof fn law_cleaning_follows_the_steps(p: Seq<u8>, name: Seq<u8>, rest: Seq<u8>)
    requires
        p.len() > 0,
        is_name(name),
    ensures
        cleaned(p.push(SLASH)) == cleaned(p),
        cleaned(p + seq![SLASH, DOT]) == cleaned(p),
        cleaned(p + seq![SLASH, SLASH] + rest) == cleaned(p.push(SLASH) + rest),
        cleaned(p + seq![SLASH, DOT, SLASH] + rest) == cleaned(p.push(SLASH) + rest),
        cleaned(p.push(SLASH) + name + seq![SLASH, DOT, DOT]) == cleaned(p),
        steps(cleaned(p.push(SLASH) + name)) == steps(cleaned(p)).push(name),
{
    let none = Seq::<u8>::empty();
    let dot = seq![DOT];
    let dots = seq![DOT, DOT];
    assert(!none.contains(SLASH));
    assert(!dot.contains(SLASH));
    assert(!dots.contains(SLASH));
    lemma_step_of(none);
    lemma_step_of(dot);
    lemma_step_of(dots);
    lemma_step_of(name);
    assert(p.push(SLASH) + none =~= p.push(SLASH));
    lemma_steps_of_both(p, none);
    assert(steps(p) + steps(none) =~= steps(p));
    assert(p.push(SLASH) + dot =~= p + seq![SLASH, DOT]);
    lemma_steps_of_both(p, dot);
    assert(steps(p) + steps(dot) =~= steps(p));
    lemma_steps_of_both(p, rest);
    lemma_steps_of_both(p.push(SLASH), rest);
    assert(p.push(SLASH).push(SLASH) + rest =~= p + seq![SLASH, SLASH] + rest);
    let q = p + seq![SLASH, DOT];
    lemma_steps_of_both(q, rest);
    assert(q.push(SLASH) + rest =~= p + seq![SLASH, DOT, SLASH] + rest);
    let named = p.push(SLASH) + name;
    lemma_steps_of_both(p, name);
    lemma_steps_of_both(named, dots);
    assert(named.push(SLASH) + dots =~= named + seq![SLASH, DOT, DOT]);
    let with = steps(p).push(name);
    assert(steps(named) =~= with);
    assert(with.drop_last() =~= steps(p));
    let climbed = with.push(dots);
    assert(steps(named.push(SLASH) + dots) =~= climbed);
    assert(climbed.drop_last() =~= with);
    assert(resolved(with) == resolved(steps(p)).push(name));
    assert(resolved(climbed) =~= resolved(steps(p)));
    assert((p.push(SLASH) + rest)[0] == p[0]);
    assert((p + seq![SLASH, SLASH] + rest)[0] == p[0]);
    assert((p + seq![SLASH, DOT, SLASH] + rest)[0] == p[0]);
    assert((named + seq![SLASH, DOT, DOT])[0] == p[0]);
    assert(named[0] == p[0]);
    super::lemma_steps_are_names(p);
    super::lemma_steps_are_names(named);
    super::lemma_resolved_names(steps(p));
    super::lemma_resolved_names(steps(named));
    super::lemma_steps_of_names(is_absolute_path(p), resolved(steps(p)));
    super::lemma_steps_of_names(is_absolute_path(named), resolved(steps(named)));
}

/// A path from the root directory that is made of names with one slash before
/// each is left as it is; and no path climbs above the root directory.
pub proof fn law_clean_path_stays(names: Seq<Seq<u8>>, p: Seq<u8>)
    requires
        forall|i: int| 0 <= i < names.len() ==> is_name(#[trigger] names[i]),
    ensures
        cleaned(seq![SLASH] + joined(names, SLASH)) == seq![SLASH] + joined(names, SLASH),
        names.len() > 0 ==> cleaned(joined(names, SLASH)) == joined(names, SLASH),
        cleaned(seq![SLASH, DOT, DOT, SLASH] + p) == cleaned(seq![SLASH] + p),
{
    super::lemma_steps_of_names(true, names);
    super::lemma_names_resolve_to_themselves(names);
    let whole = seq![SLASH] + joined(names, SLASH);
    assert(spelled_path(true, names) == whole);
    assert(whole[0] == SLASH);
    if names.len() > 0 {
        super::lemma_steps_of_names(false, names);
        crate::bytes::lemma_joined_first(names, SLASH);
        let first = names[0];
        assert(joined(names, SLASH)[0] == first[0]);
        assert(first.contains(first[0]));
    }
    let none = Seq::<u8>::empty();
    let dots = seq![DOT, DOT];
    assert(!none.contains(SLASH));
    assert(!dots.contains(SLASH));
    lemma_step_of(none);
    lemma_step_of(dots);
    let up = seq![SLASH, DOT, DOT];
    assert(none.push(SLASH) + dots =~= up);
    lemma_steps_of_both(none, dots);
    assert(up.push(SLASH) + p =~= seq![SLASH, DOT, DOT, SLASH] + p);
    lemma_steps_of_both(up, p);
    assert(none.push(SLASH) + p =~= seq![SLASH] + p);
    lemma_steps_of_both(none, p);
    assert(steps(up) =~= seq![dots]);
    assert(steps(none) + steps(p) =~= steps(p));
    lemma_leading_dots(steps(p));
    assert((seq![SLASH, DOT, DOT, SLASH] + p)[0] == SLASH);
    assert((seq![SLASH] + p)[0] == SLASH);
}

proof fn lemma_leading_dots(parts: Seq<Seq<u8>>)
    ensures
        resolved(seq![seq![DOT, DOT]] + parts) == resolved(parts),
    decreases parts.len(),
{
    let dots = seq![seq![DOT, DOT]];
    let whole = dots + parts;
    if parts.len() == 0 {
        assert(whole =~= dots);
        assert(dots.drop_last() =~= Seq::<Seq<u8>>::empty());
        assert(resolved(dots.drop_last()).len() == 0);
        assert(resolved(whole) =~= resolved(parts));
    } else {
        lemma_leading_dots(parts.drop_last());
        assert(whole.drop_last() =~= dots + parts.drop_last());
        assert(whole.last() == parts.last());
    }
}

/// A directory and a name in it are found again in the path that joins them:
/// the name is the one that the path ends in, and the directory its parent.
pub proof fn law_joined_path_comes_apart(dir: Seq<u8>, name: Seq<u8>)
    requires
        is_name(name),
        dir.len() > 0,
        cut(dir) == dir,
    ensures
        last_name(joined_path(dir, name)) == Some(name),
        parent_dir(joined_path(dir, name)) == Some(dir),
        last_name(name) == Some(name),
        parent_dir(name) == Some(Seq::<u8>::empty()),
{
    assert(name.contains(name[0]));
    assert(name.contains(name.last()));
    let slashed = if dir.last() == SLASH {
        dir
    } else {
        dir.push(SLASH)
    };
    let p = joined_path(dir, name);
    assert(p == slashed + name);
    let base = slashed.drop_last();
    assert(base.push(SLASH) =~= slashed);
    lemma_steps_of_both(base, name);
    lemma_step_of(name);
    assert(base.push(SLASH) + name =~= p);
    assert(steps(p) =~= steps(base).push(name));
    assert(steps(name).last() == name);
    assert(p.last() == name.last());
    assert(cut(p) == p) by {
        if p.last() == DOT && p[p.len() - 2] == SLASH {
            if name.len() > 1 {
                assert(p[p.len() - 2] == name[name.len() - 2]);
                assert(name.contains(name[name.len() - 2]));
            } else {
                assert(name =~= seq![DOT]);
            }
        }
    }
    let at = slashed.len() - 1;
    assert(p[at] == SLASH);
    assert forall|j: int| at < j < p.len() implies p[j] != SLASH by {
        assert(p[j] == name[j - at - 1]);
        assert(name.contains(name[j - at - 1]));
    }
    lemma_around_last(p, SLASH, at);
    assert(p.skip(at + 1) =~= name);
    assert(p.take(p.len() - name.len()) =~= slashed);
    assert(slashed.drop_last() == base);
    if dir.last() != SLASH {
        assert(base =~= dir);
        assert(cut(slashed) == cut(dir));
    }
    assert(cut(name) == name) by {
        if name.len() > 1 && name.last() == DOT && name[name.len() - 2] == SLASH {
            assert(name.contains(name[name.len() - 2]));
        }
    }
    assert forall|j: int| -1 < j < name.len() implies name[j] != SLASH by {
        assert(name.contains(name[j]));
    }
    lemma_around_last(name, SLASH, -1);
    assert(name.skip(0) =~= name);
    assert(name.take(0) =~= Seq::<u8>::empty());
    assert(name != seq![SLASH]) by {
        if name == seq![SLASH] {
            assert(name[0] == SLASH);
        }
    }
    assert(p != seq![SLASH]);
}

/// A path that ends in `..`, or in nothing but dots and slashes, names
/// nothing; slashes and `.` behind a path do not count, neither for its name
/// nor for the directory that holds it.
pub proof fn law_last_name(p: Seq<u8>, name: Seq<u8>)
    requires
        p.len() > 0,
        is_name(name),
    ensures
        last_name(p + seq![SLASH, DOT, DOT]) is None,
        last_name(p.push(SLASH) + name + seq![SLASH]) == Some(name),
        last_name(p.push(SLASH) + name + seq![SLASH, DOT]) == Some(name),
        last_name(seq![SLASH]) is None,
        last_name(seq![DOT]) is None,
        parent_dir(p.push(SLASH)) == parent_dir(p),
        parent_dir(p + seq![SLASH, DOT]) == parent_dir(p),
{
    let none = Seq::<u8>::empty();
    let dot = seq![DOT];
    let dots = seq![DOT, DOT];
    assert(!none.contains(SLASH));
    assert(!dot.contains(SLASH));
    assert(!dots.contains(SLASH));
    lemma_step_of(none);
    lemma_step_of(dot);
    lemma_step_of(dots);
    lemma_step_of(name);
    lemma_steps_of_both(p, dots);
    assert(p.push(SLASH) + dots =~= p + seq![SLASH, DOT, DOT]);
    assert(steps(p) + seq![dots] =~= steps(p).push(dots));
    let named = p.push(SLASH) + name;
    lemma_steps_of_both(p, name);
    assert(steps(named) =~= steps(p).push(name));
    lemma_steps_of_both(named, none);
    assert(named.push(SLASH) + none =~= named + seq![SLASH]);
    assert(steps(named) + steps(none) =~= steps(named));
    lemma_steps_of_both(named, dot);
    assert(named.push(SLASH) + dot =~= named + seq![SLASH, DOT]);
    assert(steps(named) + steps(dot) =~= steps(named));
    lemma_steps_of_both(none, none);
    assert(none.push(SLASH) + none =~= seq![SLASH]);
    let slashed = p.push(SLASH);
    let dotted = p + seq![SLASH, DOT];
    assert(slashed.drop_last() =~= p);
    assert(dotted.drop_last() =~= slashed);
    assert(dotted[dotted.len() - 2] == SLASH);
    assert(cut(slashed) == cut(p));
    assert(cut(dotted) == cut(slashed));
}

/// A path is resolved against a directory: one from the root directory stands
/// for itself, any other lies in the directory, behind one separator.
pub proof fn law_paths_are_resolved(base: Seq<u8>, p: Seq<u8>)
    ensures
        is_absolute_path(p) ==> joined_path(base, p) == p,
        !is_absolute_path(p) ==> joined_path(base, p).len() == base.len() + p.len() + (if base.len()
            > 0 && base.last() != SLASH {
            1int
        } else {
            0
        }) && joined_path(base, p).take(base.len() as int) == base && joined_path(base, p).skip(
            joined_path(base, p).len() - p.len(),
        ) == p,
        !is_absolute_path(p) && base.len() > 0 && base.last() != SLASH ==> joined_path(
            base,
            p,
        )[base.len() as int] == SLASH,
        parent_dir(seq![SLASH]) is None,
        parent_dir(Seq::empty()) is None,
{
    if !is_absolute_path(p) {
        let all = joined_path(base, p);
        assert(all.take(base.len() as int) =~= base);
        assert(all.skip(all.len() - p.len()) =~= p);
    }
}

} // verus!
