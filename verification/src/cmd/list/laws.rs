//! What a listing promises as a whole.

use vstd::prelude::*;
use vstd::utf8::{
    decode_utf8, encode_utf8, encode_utf8_decode_utf8, encode_utf8_valid_utf8, is_ascii_chars,
    is_ascii_chars_encode_utf8, valid_utf8,
};

use super::{
    abs_paths, all_abs_paths, fold_case, full_path, is_lone, is_repeated, listing_lines, lone_tail,
    lower_case, named_repo, named_repos, naming_root, query_of, root_cut, selects, slashes, tails,
    unique_line, unique_lines, without_host, written, ListArgs, RepoView,
};
use crate::bytes::{
    before_first, first_at, has_prefix, has_suffix, joined, kept, kept_places, lemma_before_first,
    lemma_before_none, lemma_kept_places, lemma_split_joined, lower_bytes, occurs_in, split_on, DOT,
    SLASH,
};
use crate::text::{ascii_lower, unicode_lower};
use crate::walk::RootListing;

verus! {

/// Whether a list of places, in order, names the repositories that the
/// arguments' query selects, and no other.
pub open spec fn are_selected(at: Seq<int>, args: ListArgs, repos: Seq<RepoView>) -> bool {
    &&& forall|k: int, l: int| 0 <= k < l < at.len() ==> #[trigger] at[k] < #[trigger] at[l]
    &&& forall|k: int|
        0 <= k < at.len() ==> 0 <= #[trigger] at[k] < repos.len() && selects(
            query_of(args),
            args.exact,
            repos[at[k]].rel,
        )
    &&& forall|i: int|
        0 <= i < repos.len() && selects(
            query_of(args),
            args.exact,
            (#[trigger] repos[i]).rel,
        ) ==> at.contains(i)
}

/// A query selects the same repositories in every form of output: a listing
/// of names and one of full paths come from the same repositories, those that
/// the query selects, with one line for each, in their order; and what
/// `--unique` prints stands for some of them, and is the end of the name of
/// each that it stands for.
pub proof fn law_every_form_lists_the_same_repositories(args: ListArgs, repos: Seq<RepoView>)
    ensures
        ({
            let names = listing_lines(
                (ListArgs { unique: false, full_path: false, ..args }),
                repos,
            );
            let paths = listing_lines((ListArgs { unique: false, full_path: true, ..args }), repos);
            exists|at: Seq<int>| #[trigger]
                are_selected(at, args, repos) && names.len() == at.len() && paths.len() == at.len()
                    && forall|k: int|
                    0 <= k < at.len() ==> #[trigger] names[k] == repos[at[k]].rel && paths[k]
                        == repos[at[k]].abs
        }),
        forall|line: Seq<u8>| #[trigger]
            listing_lines((ListArgs { unique: true, ..args }), repos).contains(line) ==> exists|
                i: int,
            |
                0 <= i < repos.len() && selects(
                    query_of(args),
                    args.exact,
                    (#[trigger] repos[i]).rel,
                ) && is_tail(repos[i].rel, line),
        listing_lines((ListArgs { unique: true, ..args }), repos).len() <= listing_lines(
            (ListArgs { unique: false, ..args }),
            repos,
        ).len(),
{
    let keep = |repo: RepoView| selects(query_of(args), args.exact, repo.rel);
    let plain = ListArgs { unique: false, full_path: false, ..args };
    let full = ListArgs { unique: false, full_path: true, ..args };
    let short = ListArgs { unique: true, ..args };
    assert((|repo: RepoView| selects(query_of(plain), plain.exact, repo.rel)) =~= keep);
    assert((|repo: RepoView| selects(query_of(full), full.exact, repo.rel)) =~= keep);
    assert((|repo: RepoView| selects(query_of(short), short.exact, repo.rel)) =~= keep);
    let at = kept_places(repos, keep);
    lemma_kept_places(repos, keep);
    let names = listing_lines(plain, repos);
    let paths = listing_lines(full, repos);
    assert forall|i: int|
        0 <= i < repos.len() && selects(
            query_of(args),
            args.exact,
            (#[trigger] repos[i]).rel,
        ) implies at.contains(i) by {
        assert(keep(repos[i]));
    }
    assert forall|k: int| 0 <= k < at.len() implies 0 <= #[trigger] at[k] < repos.len() && selects(
        query_of(args),
        args.exact,
        repos[at[k]].rel,
    ) by {
        assert(keep(repos[at[k]]));
    }
    assert(are_selected(at, args, repos));
    assert forall|k: int| 0 <= k < at.len() implies #[trigger] names[k] == repos[at[k]].rel
        && paths[k] == repos[at[k]].abs by {
        assert(kept(repos, keep)[k] == repos[at[k]]);
    }
    let chosen = kept(repos, keep);
    let lines = unique_lines(chosen, chosen.len() as int);
    lemma_unique_lines(chosen, chosen.len() as int);
    let any = ListArgs { unique: false, ..args };
    assert((|repo: RepoView| selects(query_of(any), any.exact, repo.rel)) =~= keep);
    assert(listing_lines(any, repos).len() == chosen.len());
    assert forall|line: Seq<u8>| #[trigger] listing_lines(short, repos).contains(line) implies exists|
        i: int,
    |
        0 <= i < repos.len() && selects(query_of(args), args.exact, (#[trigger] repos[i]).rel)
            && is_tail(repos[i].rel, line) by {
        let n = choose|n: int| 0 <= n < lines.len() && lines[n] == line;
        let k = choose|k: int|
            0 <= k < chosen.len() && unique_line(chosen, k) == Some(#[trigger] lines[n]);
        lemma_shortest_lone_tail(chosen, chosen[k].rel, 0);
        law_exact_query_is_the_end_of_a_name(chosen[k].rel, line);
        assert(kept(repos, keep)[k] == repos[at[k]]);
        assert(keep(repos[at[k]]));
    }
}

/// Where there is no query, every repository is listed.
pub proof fn law_no_query_lists_everything(args: ListArgs, repos: Seq<RepoView>)
    requires
        args.query is None,
        !args.unique,
    ensures
        listing_lines(args, repos).len() == repos.len(),
        forall|k: int|
            0 <= k < repos.len() ==> #[trigger] listing_lines(args, repos)[k] == if args.full_path {
                repos[k].abs
            } else {
                repos[k].rel
            },
{
    let keep = |repo: RepoView| selects(query_of(args), args.exact, repo.rel);
    assert forall|i: int| 0 <= i < repos.len() implies keep(#[trigger] repos[i]) by {}
    crate::bytes::lemma_kept_all(repos, keep);
}

/// Whether a name ends in another one at the beginning of a component.
pub open spec fn is_tail(rel: Seq<u8>, p: Seq<u8>) -> bool {
    p == rel || has_suffix(rel, seq![SLASH] + p)
}

proof fn lemma_slashes_are_slashes(rel: Seq<u8>, n: int)
    requires
        0 <= n <= rel.len(),
    ensures
        forall|k: int|
            0 <= k < slashes(rel, n).len() ==> 0 <= #[trigger] slashes(rel, n)[k] < n
                && rel[slashes(rel, n)[k]] == SLASH,
        forall|i: int| 0 <= i < n && #[trigger] rel[i] == SLASH ==> slashes(rel, n).contains(i),
        forall|k: int, l: int|
            0 <= k < l < slashes(rel, n).len() ==> #[trigger] slashes(rel, n)[k]
                > #[trigger] slashes(rel, n)[l],
    decreases n,
{
    if n > 0 {
        lemma_slashes_are_slashes(rel, n - 1);
        let rest = slashes(rel, n - 1);
        let all = slashes(rel, n);
        if rel[n - 1] == SLASH {
            assert(all[0] == n - 1);
            assert forall|k: int| 0 <= k < all.len() implies 0 <= #[trigger] all[k] < n
                && rel[all[k]] == SLASH by {
                if k > 0 {
                    assert(all[k] == rest[k - 1]);
                }
            }
            assert forall|i: int| 0 <= i < n && #[trigger] rel[i] == SLASH implies all.contains(
                i,
            ) by {
                if i < n - 1 {
                    let k = choose|k: int| 0 <= k < rest.len() && rest[k] == i;
                    assert(all[k + 1] == i);
                }
            }
            assert forall|k: int, l: int| 0 <= k < l < all.len() implies #[trigger] all[k]
                > #[trigger] all[l] by {
                assert(all[l] == rest[l - 1]);
                if k > 0 {
                    assert(all[k] == rest[k - 1]);
                }
            }
        }
    }
}

/// The tails of a name are the ends of it that begin a component, the
/// shortest first, the name itself last.
pub proof fn law_exact_query_is_the_end_of_a_name(rel: Seq<u8>, p: Seq<u8>)
    ensures
        tails(rel).contains(p) <==> is_tail(rel, p),
        tails(rel).last() == rel,
        forall|k: int, l: int|
            0 <= k < l < tails(rel).len() ==> (#[trigger] tails(rel)[k]).len() < (
            #[trigger] tails(rel)[l]).len(),
{
    let at = slashes(rel, rel.len() as int);
    lemma_slashes_are_slashes(rel, rel.len() as int);
    let all = tails(rel);
    assert(all[all.len() - 1] == rel);
    if all.contains(p) {
        let k = choose|k: int| 0 <= k < all.len() && all[k] == p;
        if k < at.len() {
            let i = at[k];
            assert(rel[i] == SLASH);
            assert(p == rel.skip(i + 1));
            assert(rel.skip(rel.len() - (p.len() + 1)) =~= seq![SLASH] + p);
        }
    }
    if is_tail(rel, p) && p != rel {
        let i = rel.len() - (p.len() + 1);
        assert(rel.skip(i)[0] == (seq![SLASH] + p)[0]);
        assert(rel[i] == SLASH);
        let k = choose|k: int| 0 <= k < at.len() && at[k] == i;
        assert(rel.skip(i + 1) =~= p) by {
            assert forall|m: int| 0 <= m < p.len() implies rel.skip(i + 1)[m] == p[m] by {
                assert(rel.skip(i)[m + 1] == (seq![SLASH] + p)[m + 1]);
            }
        }
        assert(all[k] == p);
    }
    assert forall|k: int, l: int| 0 <= k < l < all.len() implies (#[trigger] all[k]).len() < (
    #[trigger] all[l]).len() by {
        assert(at[k] >= 0);
        if l < at.len() {
            assert(at[k] > at[l]);
        }
    }
}

/// An exact query selects a repository if and only if it is its name or an
/// end of it that begins a component, letter for letter; and no query selects
/// every one.
pub proof fn law_exact_query(q: Seq<char>, rel: Seq<u8>, exact: bool)
    ensures
        selects(Some(q), true, rel) <==> is_tail(rel, encode_utf8(q)),
        selects(None, exact, rel),
{
    law_exact_query_is_the_end_of_a_name(rel, encode_utf8(q));
}

/// Whether a text holds a capital letter.
pub open spec fn has_capital(q: Seq<char>) -> bool {
    exists|i: int| 0 <= i < q.len() && 'A' <= #[trigger] q[i] <= 'Z'
}

/// Whether a query names a host: what stands before its first slash holds a
/// dot and no blank.
pub open spec fn names_host(q: Seq<char>) -> bool {
    q.contains('/') && before_first(q, '/').contains('.') && !before_first(q, '/').contains(' ')
}

/// A query of ASCII letters that names no host is looked for in what follows
/// the host of a name of ASCII letters, and nowhere else: as it is where it
/// holds a capital letter, and whatever the case of the name where it holds
/// none.
pub proof fn law_inexact_query(q: Seq<char>, host: Seq<u8>, rest: Seq<u8>)
    requires
        is_ascii_chars(q),
        !names_host(q),
        !host.contains(SLASH),
        valid_utf8(rest) ==> is_ascii_chars(decode_utf8(rest)),
    ensures
        has_capital(q) ==> (selects(Some(q), false, host.push(SLASH) + rest) <==> occurs_in(
            rest,
            encode_utf8(q),
        )),
        !has_capital(q) ==> (selects(Some(q), false, host.push(SLASH) + rest) <==> occurs_in(
            lower_bytes(rest),
            encode_utf8(q),
        )),
        selects(Some(q), false, host) <==> q.len() == 0,
{
    let rel = host.push(SLASH) + rest;
    let low = ascii_lower(q);
    if has_capital(q) {
        let i = choose|i: int| 0 <= i < q.len() && 'A' <= #[trigger] q[i] <= 'Z';
        assert(low[i] != q[i]);
    } else {
        assert forall|i: int| 0 <= i < q.len() implies low[i] == q[i] by {
            assert(!('A' <= q[i] <= 'Z'));
        }
        assert(low =~= q);
    }
    lemma_behind_host(host, rest);
    let none = Seq::<u8>::empty();
    let wanted = encode_utf8(q);
    assert(without_host(host) == none);
    is_ascii_chars_encode_utf8(q);
    assert(wanted.len() == q.len());
    assert(fold_case(none).len() == 0) by {
        assert(decode_utf8(none) =~= Seq::empty());
        assert(lower_bytes(none) =~= none);
    }
    if q.len() == 0 {
        assert(wanted =~= none);
        assert(none.subrange(0, 0) =~= none);
        assert(fold_case(none) =~= none);
        assert(crate::bytes::occurs_at(none, wanted, 0));
        assert(!has_capital(q));
    } else if selects(Some(q), false, host) {
        assert(occurs_in(none, wanted) || occurs_in(fold_case(none), wanted));
    }
}

/// A query that names a host selects what it selects without it, but only at
/// that host.
pub proof fn law_query_with_a_host(h: Seq<char>, rest: Seq<char>, rel: Seq<u8>)
    requires
        !h.contains('/'),
        h.contains('.'),
        !h.contains(' '),
        !names_host(rest),
    ensures
        selects(Some(h.push('/') + rest), false, rel) <==> selects(Some(rest), false, rel) && (rel
            == encode_utf8(h) && !rel.contains(SLASH) || has_prefix(
            rel,
            encode_utf8(h).push(SLASH),
        ) && !encode_utf8(h).contains(SLASH)),
{
    let q = h.push('/') + rest;
    assert(q[h.len() as int] == '/');
    assert(first_at(q, '/', h.len() as int)) by {
        assert forall|j: int| 0 <= j < h.len() implies q[j] != '/' by {
            assert(h.contains(h[j]));
        }
    }
    lemma_before_first(q, '/', h.len() as int);
    assert(q.take(h.len() as int) =~= h);
    assert(q.skip(h.len() as int + 1) =~= rest);
    let host = encode_utf8(h);
    let head = before_first(rel, SLASH);
    if rel.contains(SLASH) {
        let i = lemma_first_exists(rel, SLASH);
        lemma_before_first(rel, SLASH, i);
        assert(head == rel.take(i));
        assert(!head.contains(SLASH));
        if head == host {
            assert(rel.take(host.len() as int + 1) =~= host.push(SLASH));
        }
        if has_prefix(rel, host.push(SLASH)) && !host.contains(SLASH) {
            let cut = rel.take(host.len() as int + 1);
            assert(cut == host.push(SLASH));
            assert(cut[host.len() as int] == SLASH);
            assert(rel[host.len() as int] == SLASH);
            if host.len() > i {
                assert(cut[i] == SLASH);
                assert(host[i] == SLASH);
                assert(host.contains(SLASH));
            }
            assert(head =~= host);
        }
    } else {
        lemma_before_none(rel, SLASH);
        if has_prefix(rel, host.push(SLASH)) {
            let cut = rel.take(host.len() as int + 1);
            assert(cut[host.len() as int] == SLASH);
            assert(rel[host.len() as int] == SLASH);
        }
    }
}

proof fn lemma_first_exists<T>(s: Seq<T>, b: T) -> (i: int)
    requires
        s.contains(b),
    ensures
        first_at(s, b, i),
    decreases s.len(),
{
    let k = choose|k: int| 0 <= k < s.len() && s[k] == b;
    let shorter = s.take(k);
    if shorter.contains(b) {
        let i = lemma_first_exists(shorter, b);
        assert forall|j: int| 0 <= j < i implies s[j] != b by {
            assert(shorter[j] != b);
        }
        i
    } else {
        assert forall|j: int| 0 <= j < k implies s[j] != b by {
            assert(shorter[j] == s[j]);
        }
        k
    }
}

/// The tail that belongs to a name alone is the shortest that does.
proof fn lemma_shortest_lone_tail(repos: Seq<RepoView>, rel: Seq<u8>, k: int)
    requires
        0 <= k,
        lone_tail(repos, rel, k) is Some,
    ensures
        tails(rel).contains(lone_tail(repos, rel, k)->0),
        is_lone(repos, rel, lone_tail(repos, rel, k)->0),
        forall|t: int|
            k <= t < tails(rel).len() && (#[trigger] tails(rel)[t]).len() < (lone_tail(
                repos,
                rel,
                k,
            )->0).len() ==> !is_lone(repos, rel, tails(rel)[t]),
    decreases tails(rel).len() - k,
{
    law_exact_query_is_the_end_of_a_name(rel, rel);
    if !is_lone(repos, rel, tails(rel)[k]) {
        lemma_shortest_lone_tail(repos, rel, k + 1);
    }
}

proof fn lemma_no_lone_tail(repos: Seq<RepoView>, rel: Seq<u8>, k: int)
    requires
        0 <= k,
        lone_tail(repos, rel, k) is None,
    ensures
        forall|t: int| k <= t < tails(rel).len() ==> !is_lone(repos, rel, #[trigger] tails(rel)[t]),
    decreases tails(rel).len() - k,
{
    if k < tails(rel).len() {
        lemma_no_lone_tail(repos, rel, k + 1);
    }
}

proof fn lemma_unique_lines(repos: Seq<RepoView>, n: int)
    requires
        0 <= n <= repos.len(),
    ensures
        unique_lines(repos, n).len() <= n,
        forall|m: int|
            0 <= m < unique_lines(repos, n).len() ==> exists|k: int|
                0 <= k < n && unique_line(repos, k) == Some(#[trigger] unique_lines(repos, n)[m]),
        forall|k: int|
            0 <= k < n && #[trigger] unique_line(repos, k) is Some ==> unique_lines(
                repos,
                n,
            ).contains(unique_line(repos, k)->0),
    decreases n,
{
    if n > 0 {
        lemma_unique_lines(repos, n - 1);
        let before = unique_lines(repos, n - 1);
        let after = unique_lines(repos, n);
        assert forall|m: int| 0 <= m < after.len() implies exists|k: int|
            0 <= k < n && unique_line(repos, k) == Some(#[trigger] after[m]) by {
            if m < before.len() {
                assert(after[m] == before[m]);
                let k = choose|k: int|
                    0 <= k < n - 1 && unique_line(repos, k) == Some(#[trigger] before[m]);
                assert(unique_line(repos, k) == Some(after[m]));
            } else {
                assert(unique_line(repos, n - 1) == Some(after[m]));
            }
        }
        assert forall|k: int| 0 <= k < n && #[trigger] unique_line(repos, k) is Some implies
            after.contains(unique_line(repos, k)->0) by {
            let p = unique_line(repos, k)->0;
            if k < n - 1 {
                let m = choose|m: int| 0 <= m < before.len() && before[m] == p;
                assert(after[m] == p);
            } else {
                assert(after[before.len() as int] == p);
            }
        }
    }
}

/// What `--unique` prints for a repository is the shortest end of its name
/// that begins a component and is the end of no other name: every shorter one
/// is shared. It prints one for every repository, but for a second copy that
/// the first root does not name, and for a name that is itself the end of
/// another one.
pub proof fn law_unique_line_is_the_shortest(repos: Seq<RepoView>, i: int)
    requires
        0 <= i < repos.len(),
    ensures
        unique_line(repos, i) matches Some(line) ==> is_tail(repos[i].rel, line) && (forall|j: int|
            0 <= j < repos.len() && is_tail((#[trigger] repos[j]).rel, line) ==> repos[j].rel
                == repos[i].rel) && (forall|p: Seq<u8>| #[trigger]
            is_tail(repos[i].rel, p) && p.len() < line.len() ==> exists|j: int|
                0 <= j < repos.len() && (#[trigger] repos[j]).rel != repos[i].rel && is_tail(
                    repos[j].rel,
                    p,
                )),
        unique_line(repos, i) is None <==> (!repos[i].under_primary && exists|j: int|
            0 <= j < repos.len() && j != i && (#[trigger] repos[j]).rel == repos[i].rel) || (exists|
            j: int,
        |
            0 <= j < repos.len() && (#[trigger] repos[j]).rel != repos[i].rel && is_tail(
                repos[j].rel,
                repos[i].rel,
            )),
{
    let rel = repos[i].rel;
    let all = tails(rel);
    law_exact_query_is_the_end_of_a_name(rel, rel);
    assert(all[all.len() - 1] == rel);
    if let Some(line) = unique_line(repos, i) {
        lemma_shortest_lone_tail(repos, rel, 0);
        law_exact_query_is_the_end_of_a_name(rel, line);
        assert forall|j: int|
            0 <= j < repos.len() && is_tail((#[trigger] repos[j]).rel, line) implies repos[j].rel
            == rel by {
            law_exact_query_is_the_end_of_a_name(repos[j].rel, line);
        }
        assert forall|p: Seq<u8>| #[trigger]
            is_tail(rel, p) && p.len() < line.len() implies exists|j: int|
            0 <= j < repos.len() && (#[trigger] repos[j]).rel != rel && is_tail(repos[j].rel, p) by {
            law_exact_query_is_the_end_of_a_name(rel, p);
            let t = choose|t: int| 0 <= t < all.len() && all[t] == p;
            assert(!is_lone(repos, rel, all[t]));
            let j = choose|j: int|
                0 <= j < repos.len() && tails((#[trigger] repos[j]).rel).contains(p) && repos[j].rel
                    != rel;
            law_exact_query_is_the_end_of_a_name(repos[j].rel, p);
        }
        let t = choose|t: int| 0 <= t < all.len() && all[t] == line;
        assert forall|j: int|
            0 <= j < repos.len() && (#[trigger] repos[j]).rel != rel implies !is_tail(
            repos[j].rel,
            rel,
        ) by {
            if is_tail(repos[j].rel, rel) {
                lemma_tail_of_tail(repos[j].rel, rel, line);
            }
        }
    } else {
        if !(is_repeated(repos, i) && !repos[i].under_primary) {
            lemma_no_lone_tail(repos, rel, 0);
            assert(!is_lone(repos, rel, all[all.len() - 1]));
            let j = choose|j: int|
                0 <= j < repos.len() && tails((#[trigger] repos[j]).rel).contains(rel)
                    && repos[j].rel != rel;
            law_exact_query_is_the_end_of_a_name(repos[j].rel, rel);
        }
    }
}

/// A tail of a tail is a tail.
proof fn lemma_tail_of_tail(a: Seq<u8>, b: Seq<u8>, c: Seq<u8>)
    requires
        is_tail(a, b),
        is_tail(b, c),
    ensures
        is_tail(a, c),
{
    if a != b && b != c {
        let one = seq![SLASH] + b;
        let two = seq![SLASH] + c;
        assert(a.skip(a.len() - one.len()) == one);
        assert(b.skip(b.len() - two.len()) == two);
        assert(a.skip(a.len() - two.len()) =~= two) by {
            assert forall|k: int| 0 <= k < two.len() implies a.skip(a.len() - two.len())[k]
                == two[k] by {
                assert(b.skip(b.len() - two.len())[k] == two[k]);
                let m = b.len() - two.len() + k;
                assert(one[m + 1] == b[m]);
                assert(a.skip(a.len() - one.len())[m + 1] == one[m + 1]);
            }
        }
    }
}

/// Whether a root contains a path: it is the path, or the path goes on behind
/// it at a separator.
pub open spec fn contains_path(root: Seq<u8>, abs: Seq<u8>) -> bool {
    abs == root || has_prefix(abs, root.push(SLASH)) || (root.len() > 0 && root.last() == SLASH
        && has_prefix(abs, root))
}

proof fn lemma_cut(root: Seq<u8>, abs: Seq<u8>)
    ensures
        root_cut(root, abs) is Some <==> contains_path(root, abs),
        root_cut(root, abs) matches Some(cut) ==> 0 <= cut <= abs.len() && (abs == root && cut
            == root.len() || abs == root + abs.skip(cut) && root.len() > 0 && root.last() == SLASH
            || abs == root.push(SLASH) + abs.skip(cut)),
{
    if has_prefix(abs, root) {
        assert(abs.take(root.len() as int) == root);
        assert(abs =~= root + abs.skip(root.len() as int));
        if abs.len() == root.len() {
            assert(abs =~= root);
        } else if abs[root.len() as int] == SLASH {
            assert(abs.take(root.len() as int + 1) =~= root.push(SLASH));
            assert(abs =~= root.push(SLASH) + abs.skip(root.len() as int + 1));
        }
    }
    if abs == root {
        assert(abs.take(root.len() as int) =~= root);
    }
    if has_prefix(abs, root.push(SLASH)) {
        let cut = abs.take(root.len() as int + 1);
        assert(cut == root.push(SLASH));
        assert(cut[root.len() as int] == SLASH);
        assert(abs.take(root.len() as int) =~= root) by {
            assert forall|k: int| 0 <= k < root.len() implies abs[k] == root[k] by {
                assert(cut[k] == root.push(SLASH)[k]);
            }
        }
    }
}

proof fn lemma_naming_root(roots: Seq<Seq<u8>>, abs: Seq<u8>, from: int)
    requires
        0 <= from <= roots.len(),
    ensures
        match naming_root(roots, abs, from) {
            Some(k) => from <= k < roots.len() && contains_path(roots[k], abs) && forall|j: int|
                from <= j < k ==> !contains_path(#[trigger] roots[j], abs),
            None => forall|j: int|
                from <= j < roots.len() ==> !contains_path(#[trigger] roots[j], abs),
        },
    decreases roots.len() - from,
{
    if from < roots.len() {
        lemma_cut(roots[from], abs);
        lemma_naming_root(roots, abs, from + 1);
    }
}

/// A repository is named by the first root that contains it, whichever found
/// it: its name behind that root gives its path back, `.` standing for the
/// root itself. Only what the first of all roots names is said to be under
/// it.
pub proof fn law_first_root_names(roots: Seq<Seq<u8>>, abs: Seq<u8>, k: int)
    requires
        0 <= k < roots.len(),
        contains_path(roots[k], abs),
        forall|j: int| 0 <= j < k ==> !contains_path(#[trigger] roots[j], abs),
    ensures
        named_repo(roots, abs).abs == abs,
        named_repo(roots, abs).under_primary == (k == 0),
        abs == roots[k] ==> named_repo(roots, abs).rel == seq![DOT],
        abs != roots[k] && abs != roots[k].push(SLASH) ==> abs == roots[k].push(SLASH)
            + named_repo(roots, abs).rel || (roots[k].len() > 0 && roots[k].last() == SLASH && abs
            == roots[k] + named_repo(roots, abs).rel),
{
    lemma_naming_root(roots, abs, 0);
    let found = naming_root(roots, abs, 0);
    assert(found == Some(k));
    lemma_cut(roots[k], abs);
    let cut = root_cut(roots[k], abs)->0;
    let behind = abs.skip(cut);
    if behind.len() == 0 {
        if abs != roots[k] {
            assert(roots[k] + behind =~= roots[k]);
            assert(roots[k].push(SLASH) + behind =~= roots[k].push(SLASH));
        }
    } else if abs == roots[k] {
        assert(cut == abs.len());
    }
}

proof fn lemma_abs_paths(root: Seq<u8>, repos: Seq<Seq<u8>>, n: int)
    requires
        0 <= n <= repos.len(),
    ensures
        abs_paths(root, repos, n).len() == n,
        forall|j: int|
            0 <= j < n ==> #[trigger] abs_paths(root, repos, n)[j] == full_path(root, repos[j]),
    decreases n,
{
    if n > 0 {
        lemma_abs_paths(root, repos, n - 1);
    }
}

/// How many repositories the first listings hold together.
pub open spec fn listed_in(listings: Seq<RootListing>, n: int) -> int
    decreases n,
{
    if n <= 0 {
        0
    } else {
        listed_in(listings, n - 1) + listings[n - 1]@.repos.len()
    }
}

proof fn lemma_all_abs_paths(roots: Seq<Seq<u8>>, listings: Seq<RootListing>, n: int)
    requires
        0 <= n <= roots.len(),
        roots.len() == listings.len(),
    ensures
        all_abs_paths(roots, listings, n).len() == listed_in(listings, n),
        forall|i: int, j: int|
            0 <= i < n && 0 <= j < listings[i]@.repos.len() ==> all_abs_paths(
                roots,
                listings,
                n,
            ).contains(full_path(roots[i], #[trigger] listings[i]@.repos[j])),
        forall|k: int|
            0 <= k < all_abs_paths(roots, listings, n).len() ==> exists|i: int, j: int|
                0 <= i < n && 0 <= j < listings[i]@.repos.len() && #[trigger] all_abs_paths(
                    roots,
                    listings,
                    n,
                )[k] == full_path(roots[i], #[trigger] listings[i]@.repos[j]),
    decreases n,
{
    if n > 0 {
        lemma_all_abs_paths(roots, listings, n - 1);
        let last = listings[n - 1]@.repos;
        lemma_abs_paths(roots[n - 1], last, last.len() as int);
        let before = all_abs_paths(roots, listings, n - 1);
        let own = abs_paths(roots[n - 1], last, last.len() as int);
        let all = all_abs_paths(roots, listings, n);
        assert(all =~= before + own);
        assert forall|i: int, j: int|
            0 <= i < n && 0 <= j < listings[i]@.repos.len() implies all.contains(
            full_path(roots[i], #[trigger] listings[i]@.repos[j]),
        ) by {
            let p = full_path(roots[i], listings[i]@.repos[j]);
            if i < n - 1 {
                let k = choose|k: int| 0 <= k < before.len() && before[k] == p;
                assert(all[k] == p);
            } else {
                assert(own[j] == p);
                assert(all[before.len() + j] == p);
            }
        }
        assert forall|k: int| 0 <= k < all.len() implies exists|i: int, j: int|
            0 <= i < n && 0 <= j < listings[i]@.repos.len() && #[trigger] all[k] == full_path(
                roots[i],
                #[trigger] listings[i]@.repos[j],
            ) by {
            if k < before.len() {
                assert(all[k] == before[k]);
                let (i, j) = choose|i: int, j: int|
                    0 <= i < n - 1 && 0 <= j < listings[i]@.repos.len() && #[trigger] before[k]
                        == full_path(roots[i], #[trigger] listings[i]@.repos[j]);
                assert(all[k] == full_path(roots[i], listings[i]@.repos[j]));
            } else {
                let j = k - before.len();
                assert(all[k] == full_path(roots[n - 1], listings[n - 1]@.repos[j]));
            }
        }
    }
}

/// What the walks found is listed, all of it and nothing else, as often as it
/// was found.
pub proof fn law_everything_found_is_listed(roots: Seq<Seq<u8>>, listings: Seq<RootListing>)
    requires
        roots.len() == listings.len(),
    ensures
        named_repos(roots, listings).len() == listed_in(listings, roots.len() as int),
        forall|i: int, j: int|
            0 <= i < roots.len() && 0 <= j < listings[i]@.repos.len() ==> named_repos(
                roots,
                listings,
            ).contains(named_repo(roots, full_path(roots[i], #[trigger] listings[i]@.repos[j]))),
        forall|k: int|
            0 <= k < named_repos(roots, listings).len() ==> exists|i: int, j: int|
                0 <= i < roots.len() && 0 <= j < listings[i]@.repos.len() && (
                #[trigger] named_repos(roots, listings)[k]).abs == full_path(
                    roots[i],
                    #[trigger] listings[i]@.repos[j],
                ),
{
    let n = roots.len() as int;
    lemma_all_abs_paths(roots, listings, n);
    let paths = all_abs_paths(roots, listings, n);
    let named = named_repos(roots, listings);
    assert forall|i: int, j: int|
        0 <= i < n && 0 <= j < listings[i]@.repos.len() implies named.contains(
        named_repo(roots, full_path(roots[i], #[trigger] listings[i]@.repos[j])),
    ) by {
        let p = full_path(roots[i], listings[i]@.repos[j]);
        let k = choose|k: int| 0 <= k < paths.len() && paths[k] == p;
        assert(named[k] == named_repo(roots, p));
    }
    assert forall|k: int| 0 <= k < named.len() implies exists|i: int, j: int|
        0 <= i < n && 0 <= j < listings[i]@.repos.len() && (#[trigger] named[k]).abs == full_path(
            roots[i],
            #[trigger] listings[i]@.repos[j],
        ) by {
        assert(named[k].abs == paths[k]);
        let (i, j) = choose|i: int, j: int|
            0 <= i < n && 0 <= j < listings[i]@.repos.len() && #[trigger] paths[k] == full_path(
                roots[i],
                #[trigger] listings[i]@.repos[j],
            );
        assert(named[k].abs == full_path(roots[i], listings[i]@.repos[j]));
    }
}

/// What is written is read back line by line, where no line holds a newline.
pub proof fn law_written_lines_are_read_back(lines: Seq<Seq<u8>>)
    requires
        forall|i: int| 0 <= i < lines.len() ==> !(#[trigger] lines[i]).contains(0x0au8),
    ensures
        split_on(written(lines), 0x0au8) == lines.push(Seq::empty()),
{
    let parts = lines.push(Seq::empty());
    lemma_written_joined(lines);
    assert forall|i: int| 0 <= i < parts.len() implies !(#[trigger] parts[i]).contains(0x0au8) by {
        if i < lines.len() {
            assert(parts[i] == lines[i]);
        }
    }
    lemma_split_joined(parts, 0x0au8);
}

proof fn lemma_written_joined(lines: Seq<Seq<u8>>)
    ensures
        written(lines) == joined(lines.push(Seq::empty()), 0x0au8),
    decreases lines.len(),
{
    let none = Seq::<u8>::empty();
    let parts = lines.push(none);
    assert(parts.drop_last() =~= lines);
    if lines.len() > 0 {
        let before = lines.drop_last();
        lemma_written_joined(before);
        assert(before.push(none).drop_last() =~= before);
        assert(joined(parts, 0x0au8) =~= joined(lines, 0x0au8).push(0x0au8));
        if lines.len() == 1 {
            assert(written(before) =~= none);
            assert(written(lines) =~= lines[0].push(0x0au8));
        } else {
            assert(before.push(none).len() > 1);
            assert(written(before) =~= joined(before, 0x0au8).push(0x0au8));
            assert(joined(lines, 0x0au8) =~= joined(before, 0x0au8).push(0x0au8) + lines.last());
        }
    }
}

/// A query without a capital letter does not see case: two names that are the
/// same in lower case are selected alike, beyond ASCII too.
pub proof fn law_case_is_not_seen(q: Seq<char>, host: Seq<u8>, a: Seq<char>, b: Seq<char>)
    requires
        q == lower_case(q),
        !names_host(q),
        !host.contains(SLASH),
        !is_ascii_chars(a) && !is_ascii_chars(b) && unicode_lower(a) == unicode_lower(b)
            || is_ascii_chars(a) && is_ascii_chars(b) && ascii_lower(a) == ascii_lower(b),
    ensures
        selects(Some(q), false, host.push(SLASH) + encode_utf8(a)) == selects(
            Some(q),
            false,
            host.push(SLASH) + encode_utf8(b),
        ),
{
    lemma_behind_host(host, encode_utf8(a));
    lemma_behind_host(host, encode_utf8(b));
    encode_utf8_decode_utf8(a);
    encode_utf8_decode_utf8(b);
    encode_utf8_valid_utf8(a);
    encode_utf8_valid_utf8(b);
    if is_ascii_chars(a) {
        is_ascii_chars_encode_utf8(a);
        is_ascii_chars_encode_utf8(b);
        assert(ascii_lower(a).len() == a.len() && ascii_lower(b).len() == b.len());
        assert(lower_bytes(encode_utf8(a)) =~= lower_bytes(encode_utf8(b))) by {
            assert forall|i: int| 0 <= i < a.len() implies lower_bytes(encode_utf8(a))[i]
                == lower_bytes(encode_utf8(b))[i] by {
                assert(ascii_lower(a)[i] == ascii_lower(b)[i]);
                assert(a[i] as u32 <= 0x7f && b[i] as u32 <= 0x7f);
            }
        }
    }
}

proof fn lemma_behind_host(host: Seq<u8>, rest: Seq<u8>)
    requires
        !host.contains(SLASH),
    ensures
        without_host(host.push(SLASH) + rest) == rest,
{
    let rel = host.push(SLASH) + rest;
    assert(rel[host.len() as int] == SLASH);
    assert(first_at(rel, SLASH, host.len() as int)) by {
        assert forall|j: int| 0 <= j < host.len() implies rel[j] != SLASH by {
            assert(host.contains(host[j]));
        }
    }
    lemma_before_first(rel, SLASH, host.len() as int);
    assert(without_host(rel) =~= rest);
}

/// The name by which a repository is listed is the one under which its root
/// holds it: `.` for the root itself, and for any other what follows the root
/// and one separator.
pub proof fn law_listed_name_is_the_found_one(root: Seq<u8>, rel: Seq<u8>)
    requires
        rel.len() > 0,
    ensures
        named_repo(seq![root], full_path(root, rel)).rel == rel,
        named_repo(seq![root], full_path(root, rel)).abs == full_path(root, rel),
        named_repo(seq![root], full_path(root, rel)).under_primary,
        rel == seq![DOT] ==> full_path(root, rel) == root,
        rel != seq![DOT] ==> full_path(root, rel).len() == root.len() + rel.len() + (if root.len() > 0
            && root.last() == SLASH {
            0int
        } else {
            1
        }),
{
    let abs = full_path(root, rel);
    let roots = seq![root];
    assert(abs.take(root.len() as int) =~= root);
    lemma_cut(root, abs);
    lemma_naming_root(roots, abs, 0);
    assert(contains_path(roots[0], abs));
    assert(naming_root(roots, abs, 0) == Some(0int));
    let behind = abs.skip(root_cut(root, abs)->0);
    if rel == seq![DOT] {
        assert(behind.len() == 0);
    } else {
        assert(behind =~= rel);
    }
}

} // verus!
