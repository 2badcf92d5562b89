//! What the index promises of single entries, names and settings.

use vstd::prelude::*;

use super::assemble::{children_of, parent_path, rooted};
use super::cache::{
    cache_dir, fnv1a, hex_digit, hex_digits, index_name, matches_root, missing_from, mode, Cache,
    Mode,
};
use super::format::{safe_rel, EntryView, IndexView};
use super::validate::{
    dir_path, fate, fate_at, git_path, kept_records, racy, racy_count, stale_paths, Fate, Probe,
};
use crate::bytes::{
    joined, lemma_joined_first, lemma_kept_places, lemma_split_joined, split_on, DOT, SLASH,
};
use crate::paths::{is_absolute_path, joined_path};
use crate::walk::laws::dot_git;
use crate::walk::sys::below;
use crate::walk::RootListing;

verus! {

/// A time is evidence only where it lies two seconds or more before the index
/// was written; and what an earlier time does not prove, a later one does not.
pub proof fn law_recent_times_prove_nothing(observed: i64, later: i64, written: i64)
    ensures
        written >= i64::MIN + 2_000_000_000 ==> (racy(observed as int, written as int)
            <==> written - observed < 2_000_000_000),
        observed >= written && observed > i64::MIN ==> racy(observed as int, written as int),
        observed <= later && racy(observed as int, written as int) ==> racy(
            later as int,
            written as int,
        ),
{
}

/// What a probe proves. A directory is believed if and only if it is still
/// one, has the very time that was recorded, and that lies two seconds or
/// more before the index was written. A repository is believed if and only if
/// it is still there. Nothing else is.
pub proof fn law_what_a_probe_proves(entry: EntryView, probe: Probe, written: i64)
    requires
        written >= i64::MIN + 2_000_000_000,
    ensures
        fate(entry, probe, written) is KeepRepo <==> probe is Repo,
        fate(entry, probe, written) is KeepDir <==> (probe matches Probe::Dir(t)
            && entry.mtime_ns == Some(t) && t + 2_000_000_000 <= written),
        fate(entry, probe, written) matches Fate::KeepDir(t) ==> probe == Probe::Dir(t),
        fate(entry, probe, written) is Racy <==> (probe matches Probe::Dir(t) && entry.mtime_ns
            == Some(t) && t + 2_000_000_000 > written),
{
}

/// Every entry that is looked at is either believed, and then recorded under
/// its path, or walked again; none is both, and none is passed over.
pub proof fn law_believed_or_walked(index: IndexView, probes: Seq<Probe>, seen: Seq<int>, i: int)
    ensures
        kept_records(index, probes, seen).len() + stale_paths(index, probes, seen).len()
            == seen.len(),
        racy_count(index, probes, seen) <= stale_paths(index, probes, seen).len(),
        seen.contains(i) && (fate_at(index, probes, i) is KeepRepo || fate_at(index, probes, i)
            is KeepDir) ==> exists|k: int|
            0 <= k < kept_records(index, probes, seen).len() && (#[trigger] kept_records(
                index,
                probes,
                seen,
            )[k]).rel == index.entries[i].rel,
        seen.contains(i) && (fate_at(index, probes, i) is Racy || fate_at(index, probes, i)
            is Changed) ==> stale_paths(index, probes, seen).contains(index.entries[i].rel),
    decreases seen.len(),
{
    if seen.len() > 0 {
        let shorter = seen.drop_last();
        law_believed_or_walked(index, probes, shorter, i);
        let kept_before = kept_records(index, probes, shorter);
        let kept_now = kept_records(index, probes, seen);
        let stale_before = stale_paths(index, probes, shorter);
        let stale_now = stale_paths(index, probes, seen);
        if seen.contains(i) {
            let n = choose|n: int| 0 <= n < seen.len() && seen[n] == i;
            if n < shorter.len() {
                assert(shorter[n] == i);
                assert(shorter.contains(i));
                if fate_at(index, probes, i) is KeepRepo || fate_at(index, probes, i) is KeepDir {
                    let k = choose|k: int|
                        0 <= k < kept_before.len() && (#[trigger] kept_before[k]).rel
                            == index.entries[i].rel;
                    assert(kept_now[k] == kept_before[k]);
                } else {
                    let k = choose|k: int|
                        0 <= k < stale_before.len() && stale_before[k] == index.entries[i].rel;
                    assert(stale_now[k] == stale_before[k]);
                }
            } else {
                assert(seen.last() == i);
                if fate_at(index, probes, i) is KeepRepo || fate_at(index, probes, i) is KeepDir {
                    assert(kept_now[kept_before.len() as int].rel == index.entries[i].rel);
                } else {
                    assert(stale_now[stale_before.len() as int] == index.entries[i].rel);
                }
            }
        }
    }
}

/// Index files lie below the cache directory that a variable names, where
/// that is a path from the root directory, whatever the home directory is;
/// any other value counts as none. Without it they lie below `.cache` in the
/// home directory, and without that nowhere.
pub proof fn law_where_index_files_lie(
    xdg: Option<Seq<u8>>,
    home: Option<Seq<u8>>,
    other: Option<Seq<u8>>,
)
    ensures
        xdg is Some && is_absolute_path(xdg->0) ==> cache_dir(xdg, home) == cache_dir(xdg, other)
            && cache_dir(xdg, home) == Some(joined_path(xdg->0, seq![0x73u8, 0x63, 0x61, 0x70])),
        !(xdg is Some && is_absolute_path(xdg->0)) ==> cache_dir(xdg, home) == cache_dir(
            None,
            home,
        ),
        home matches Some(h) ==> cache_dir(None, home) == cache_dir(
            Some(joined_path(h, seq![0x2eu8, 0x63, 0x61, 0x63, 0x68, 0x65])),
            None,
        ) || !is_absolute_path(h),
        cache_dir(None, None) is None,
{
    assert(super::cache::SCAP_DIR@ =~= seq![0x73u8, 0x63, 0x61, 0x70]);
    assert(super::cache::CACHE_DIR@ =~= seq![0x2eu8, 0x63, 0x61, 0x63, 0x68, 0x65]);
    if let Some(h) = home {
        let p = joined_path(h, super::cache::CACHE_DIR@);
        if is_absolute_path(h) {
            assert(p[0] == h[0]);
        }
    }
}

proof fn lemma_hex_digits(x: u64, y: u64, n: nat)
    ensures
        hex_digits(x, n).len() == n,
        hex_digits(x, n) == hex_digits(y, n) && x < vstd::arithmetic::power::pow(16, n) && y
            < vstd::arithmetic::power::pow(16, n) ==> x == y,
    decreases n,
{
    reveal(vstd::arithmetic::power::pow);
    if n > 0 {
        let m = (n - 1) as nat;
        lemma_hex_digits(x / 16, y / 16, m);
        let a = hex_digits(x, n);
        let b = hex_digits(y, n);
        if a == b && x < vstd::arithmetic::power::pow(16, n) && y
            < vstd::arithmetic::power::pow(16, n) {
            assert(a.last() == b.last());
            assert(a.drop_last() =~= hex_digits(x / 16, m));
            assert(b.drop_last() =~= hex_digits(y / 16, m));
            assert(hex_digit(x % 16) == hex_digit(y % 16));
            assert(x % 16 == y % 16);
            assert(vstd::arithmetic::power::pow(16, n) == 16 * vstd::arithmetic::power::pow(16, m));
            assert(x / 16 < vstd::arithmetic::power::pow(16, m));
            assert(y / 16 < vstd::arithmetic::power::pow(16, m));
            assert(x == 16 * (x / 16) + x % 16);
            assert(y == 16 * (y / 16) + y % 16);
        }
    }
}

/// The name of an index file says the whole hash of its root: two roots share
/// one only where they share the hash.
pub proof fn law_index_names_tell_hashes_apart(a: Seq<u8>, b: Seq<u8>)
    ensures
        index_name(a) == index_name(b) <==> fnv1a(a) == fnv1a(b),
        index_name(a).len() == 26,
{
    let x = fnv1a(a);
    let y = fnv1a(b);
    lemma_hex_digits(x, y, 16);
    lemma_hex_digits(y, x, 16);
    assert(vstd::arithmetic::power::pow(16, 16) == 0x1_0000_0000_0000_0000) by {
        reveal_with_fuel(vstd::arithmetic::power::pow, 17);
    }
    if index_name(a) == index_name(b) {
        assert(index_name(a).subrange(6, 22) =~= hex_digits(x, 16));
        assert(index_name(b).subrange(6, 22) =~= hex_digits(y, 16));
    }
}

/// An index is believed for one root alone: of the path, the device, the
/// inode and the exclusions, each has to be the one that it was written for.
pub proof fn law_index_is_of_one_root(
    index: IndexView,
    root: Seq<u8>,
    dev: u64,
    ino: u64,
    exclude: Seq<Seq<u8>>,
)
    ensures
        matches_root(index, index.root, index.dev, index.ino, index.exclude),
        matches_root(index, root, dev, ino, exclude) ==> root == index.root && dev == index.dev
            && ino == index.ino && exclude == index.exclude,
{
}

/// What a comparison reports is what the one list holds and the other does
/// not, all of it and nothing else, in its order.
pub proof fn law_difference_is_what_is_missing(a: Seq<Seq<u8>>, b: Seq<Seq<u8>>, p: Seq<u8>)
    ensures
        missing_from(a, b).contains(p) <==> a.contains(p) && !b.contains(p),
        missing_from(a, a).len() == 0,
        missing_from(a, Seq::empty()) == a,
{
    let keep = |q: Seq<u8>| !b.contains(q);
    lemma_kept_places(a, keep);
    let found = missing_from(a, b);
    let at = crate::bytes::kept_places(a, keep);
    if found.contains(p) {
        let k = choose|k: int| 0 <= k < found.len() && found[k] == p;
        assert(a[at[k]] == p);
        assert(keep(a[at[k]]));
    }
    if a.contains(p) && !b.contains(p) {
        let i = choose|i: int| 0 <= i < a.len() && a[i] == p;
        assert(keep(a[i]));
        assert(at.contains(i));
        let k = choose|k: int| 0 <= k < at.len() && at[k] == i;
        assert(found[k] == p);
    }
    let own = |q: Seq<u8>| !a.contains(q);
    lemma_kept_places(a, own);
    if missing_from(a, a).len() > 0 {
        let i = crate::bytes::kept_places(a, own)[0];
        assert(own(a[i]));
        assert(a.contains(a[i]));
    }
    let none = Seq::<Seq<u8>>::empty();
    let every = |q: Seq<u8>| !none.contains(q);
    assert forall|i: int| 0 <= i < a.len() implies every(#[trigger] a[i]) by {}
    crate::bytes::lemma_kept_all(a, every);
}

/// A path that an index may hold is one of names: nothing in it is empty, `.`
/// or `..`, so that it is relative and climbs nowhere; and every path made of
/// such names without a zero byte may be held.
pub proof fn law_held_paths_stay_below(names: Seq<Seq<u8>>)
    requires
        names.len() > 0,
        forall|i: int| 0 <= i < names.len() ==> !(#[trigger] names[i]).contains(SLASH),
        joined(names, SLASH).len() > 0,
    ensures
        safe_rel(joined(names, SLASH)) <==> (!joined(names, SLASH).contains(0) && forall|i: int|
            0 <= i < names.len() ==> (#[trigger] names[i]).len() > 0 && names[i] != seq![DOT]
                && names[i] != seq![DOT, DOT]),
        safe_rel(Seq::empty()),
{
    let rel = joined(names, SLASH);
    lemma_split_joined(names, SLASH);
    lemma_joined_first(names, SLASH);
    if safe_rel(rel) {
        assert forall|i: int| 0 <= i < names.len() implies (#[trigger] names[i]).len() > 0
            && names[i] != seq![DOT] && names[i] != seq![DOT, DOT] by {
            assert(split_on(rel, SLASH)[i] == names[i]);
        }
    }
    if !rel.contains(0) && forall|i: int|
        0 <= i < names.len() ==> (#[trigger] names[i]).len() > 0 && names[i] != seq![DOT]
            && names[i] != seq![DOT, DOT] {
        assert(names[0].len() > 0);
        assert(rel[0] == names[0][0]);
        assert(names[0].contains(names[0][0]));
        assert forall|i: int| 0 <= i < split_on(rel, SLASH).len() implies {
            let part = #[trigger] split_on(rel, SLASH)[i];
            part.len() != 0 && part != seq![DOT] && part != seq![DOT, DOT]
        } by {
            assert(names[i].len() > 0);
        }
    }
}

/// The children of an entry are the entries that lie directly in it, each
/// once, in order.
pub proof fn law_children_lie_in_their_directory(paths: Seq<Seq<u8>>, a: int, n: int, c: u32)
    requires
        0 <= n <= paths.len() <= u32::MAX,
    ensures
        children_of(paths, a, n).contains(c) <==> 1 <= c < n && parent_path(paths[c as int])
            == paths[a],
        forall|i: int, j: int|
            0 <= i < j < children_of(paths, a, n).len() ==> #[trigger] children_of(paths, a, n)[i]
                < #[trigger] children_of(paths, a, n)[j],
    decreases n,
{
    lemma_children(paths, a, n);
    if children_of(paths, a, n).contains(c) {
        let k = choose|k: int|
            0 <= k < children_of(paths, a, n).len() && children_of(paths, a, n)[k] == c;
        assert(children_of(paths, a, n)[k] == c);
    }
}

proof fn lemma_children(paths: Seq<Seq<u8>>, a: int, n: int)
    requires
        0 <= n <= paths.len() <= u32::MAX,
    ensures
        forall|k: int|
            0 <= k < children_of(paths, a, n).len() ==> 1 <= #[trigger] children_of(paths, a, n)[k]
                < n && parent_path(paths[children_of(paths, a, n)[k] as int]) == paths[a],
        forall|c: u32|
            1 <= c < n && parent_path(#[trigger] paths[c as int]) == paths[a] ==> children_of(
                paths,
                a,
                n,
            ).contains(c),
        forall|i: int, j: int|
            0 <= i < j < children_of(paths, a, n).len() ==> #[trigger] children_of(paths, a, n)[i]
                < #[trigger] children_of(paths, a, n)[j],
    decreases n,
{
    if n > 1 {
        lemma_children(paths, a, n - 1);
        let before = children_of(paths, a, n - 1);
        let all = children_of(paths, a, n);
        assert forall|c: u32|
            1 <= c < n && parent_path(#[trigger] paths[c as int]) == paths[a] implies all.contains(
            c,
        ) by {
            if c < n - 1 {
                assert(before.contains(c));
                let k = choose|k: int| 0 <= k < before.len() && before[k] == c;
                assert(all[k] == c);
            } else {
                assert(all[before.len() as int] == c);
            }
        }
    }
}

/// A repository is asked after by its `.git`, a directory by its own path, and
/// the root by `.`.
pub proof fn law_what_is_asked_about_an_entry(rel: Seq<u8>)
    ensures
        git_path(rel) == below(rel, dot_git()),
        rel.len() > 0 ==> dir_path(rel) == rel,
        rel.len() == 0 ==> dir_path(rel) == seq![DOT],
{
    assert(crate::walk::sys::GIT_NAME@ =~= dot_git());
    assert(git_path(rel) =~= below(rel, dot_git()));
}

/// What decides whether the index is used: asking for a comparison, before
/// anything else; then refusing the index; then asking for it; then the
/// settings.
pub proof fn law_what_decides_the_mode(
    cache: bool,
    no_cache: bool,
    cache_check: bool,
    configured: bool,
    r: Mode,
)
    requires
        call_ensures(mode, (cache, no_cache, cache_check, configured), r),
    ensures
        r == Mode::Check <==> cache_check,
        no_cache && !cache_check ==> r == Mode::Off,
        cache && !no_cache && !cache_check ==> r == Mode::On,
        !cache && !no_cache && !cache_check ==> (r == Mode::On <==> configured),
{
}

/// The number that hexadecimal digits stand for, the most significant first.
pub open spec fn hex_value(digits: Seq<u8>) -> nat
    decreases digits.len(),
{
    if digits.len() == 0 {
        0
    } else {
        16 * hex_value(digits.drop_last()) + (if 0x30 <= digits.last() <= 0x39 {
            (digits.last() - 0x30) as nat
        } else {
            (digits.last() - 0x61 + 10) as nat
        })
    }
}

proof fn lemma_hex_value(x: u64, n: nat)
    ensures
        hex_value(hex_digits(x, n)) == x as int % vstd::arithmetic::power::pow(16, n),
        forall|i: int|
            0 <= i < hex_digits(x, n).len() ==> 0x30 <= #[trigger] hex_digits(x, n)[i] <= 0x39
                || 0x61 <= hex_digits(x, n)[i] <= 0x66,
    decreases n,
{
    reveal(vstd::arithmetic::power::pow);
    if n > 0 {
        let m = (n - 1) as nat;
        lemma_hex_value(x / 16, m);
        let all = hex_digits(x, n);
        assert(all.drop_last() =~= hex_digits(x / 16, m));
        assert(all.last() == hex_digit(x % 16));
        let p = vstd::arithmetic::power::pow(16, m);
        vstd::arithmetic::power::lemma_pow_positive(16, m);
        assert(vstd::arithmetic::power::pow(16, n) == 16 * p);
        vstd::arithmetic::div_mod::lemma_breakdown(x as int, 16, p);
    }
}

/// The name of an index file spells the hash of its root in sixteen small
/// hexadecimal digits, between `index-` and `.bin`. The hash of a longer path
/// is found from that of the shorter one by the next byte.
pub proof fn law_index_name_spells_the_hash(root: Seq<u8>, b: u8)
    ensures
        hex_value(index_name(root).subrange(6, 22)) == fnv1a(root),
        index_name(root).take(6) == seq![0x69u8, 0x6e, 0x64, 0x65, 0x78, 0x2d],
        index_name(root).skip(22) == seq![0x2eu8, 0x62, 0x69, 0x6e],
        forall|i: int|
            6 <= i < 22 ==> 0x30 <= #[trigger] index_name(root)[i] <= 0x39 || 0x61 <= index_name(
                root,
            )[i] <= 0x66,
        fnv1a(Seq::empty()) == 0xcbf2_9ce4_8422_2325,
        fnv1a(root.push(b)) == ((fnv1a(root) ^ (b as u64)) * 0x100_0000_01b3) % 0x1_0000_0000_0000_0000,
{
    let x = fnv1a(root);
    lemma_hex_value(x, 16);
    lemma_hex_digits(x, x, 16);
    assert(vstd::arithmetic::power::pow(16, 16) == 0x1_0000_0000_0000_0000) by {
        reveal_with_fuel(vstd::arithmetic::power::pow, 17);
    }
    let name = index_name(root);
    assert(name.subrange(6, 22) =~= hex_digits(x, 16));
    assert(name.take(6) =~= seq![0x69u8, 0x6e, 0x64, 0x65, 0x78, 0x2d]);
    assert(name.skip(22) =~= seq![0x2eu8, 0x62, 0x69, 0x6e]);
    assert forall|i: int| 6 <= i < 22 implies 0x30 <= #[trigger] name[i] <= 0x39 || 0x61 <= name[i]
        <= 0x66 by {
        assert(name[i] == hex_digits(x, 16)[i - 6]);
    }
    assert(root.push(b).drop_last() =~= root);
}

/// A listing that is short is never stored: the next run would believe it. One
/// that is whole is, where there is a place for it.
pub proof fn law_short_listing_is_not_stored(
    cache: &Cache,
    root: &[u8],
    exclude: &Vec<Vec<u8>>,
    listing: &RootListing,
    identity: Option<(u64, u64)>,
    written_ns: i64,
    r: Option<Vec<u8>>,
)
    requires
        call_ensures(
            Cache::store_if_complete,
            (cache, root, exclude, listing, identity, written_ns),
            r,
        ),
    ensures
        listing@.incomplete || cache.dir is None || identity is None ==> r is None,
        !listing@.incomplete && cache.dir is Some && identity is Some && rooted(listing@.records)
            && listing@.records.len() <= u32::MAX ==> r is Some,
{
}

} // verus!
