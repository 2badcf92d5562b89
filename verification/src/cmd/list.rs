//! `scap list`: from what the walks found to what is printed.

pub mod laws;

use vstd::prelude::*;
use vstd::slice::{slice_subrange, slice_to_vec};
use vstd::utf8::{decode_utf8, encode_utf8, is_ascii_chars, valid_utf8};

use super::{is_git_vcs, validate_vcs, CmdError};
use crate::bytes::{
    before_first, bytes_eq, find_byte, find_bytes, first_at, has_prefix, kept, lemma_before_first,
    lemma_before_none, lemma_kept_all, lower, lower_bytes, occurs_in, push_all, rfind_all,
    starts_with, views, DOT, SLASH,
};
use crate::sorting::{
    is_permutation, is_sorted, lemma_lex_antisymmetric, lemma_lex_reflexive, lemma_lex_transitive,
    lemma_permutation_surjective, lex_before, lex_le, picks_sorted, sort_paths, sorted_order,
};
use crate::text::{
    ascii_lower, chars, lowercase_text, text, text_eq, unicode_lower, utf8_text,
};
use crate::walk::sys::printed;
use crate::walk::RootListing;

verus! {

/// The arguments of `scap list`.
#[derive(Debug)]
pub struct ListArgs {
    /// Perform an exact match (against `project` or `owner/project` or
    /// `host/owner/project`).
    pub exact: bool,
    /// VCS backend to match: `git`, `github` or `codecommit`.
    pub vcs: Option<String>,
    /// Print full paths.
    pub full_path: bool,
    /// Print unique sub-paths only.
    pub unique: bool,
    /// Query as a bare repository URL.
    pub bare: bool,
    /// Optional query string.
    pub query: Option<String>,
}

/// One repository the walk found, as the post-processing passes see it.
#[derive(Clone, Copy, Debug)]
pub struct Repo<'a> {
    /// The absolute path.
    pub abs: &'a [u8],
    /// The path below the root that names it, or `.` for that root itself.
    pub rel: &'a [u8],
    /// Whether the primary root names it, which is the tiebreak `--unique`
    /// applies to a path more than one root holds.
    pub under_primary: bool,
}

/// What a [`Repo`] holds.
pub struct RepoView {
    pub abs: Seq<u8>,
    pub rel: Seq<u8>,
    pub under_primary: bool,
}

impl<'a> View for Repo<'a> {
    type V = RepoView;

    open spec fn view(&self) -> RepoView {
        RepoView { abs: self.abs@, rel: self.rel@, under_primary: self.under_primary }
    }
}

/// What a list of repositories holds.
pub open spec fn repo_views(v: Seq<Repo<'_>>) -> Seq<RepoView> {
    Seq::new(v.len(), |i: int| v[i]@)
}

/// The offsets of the slashes among the first `n` bytes, from the last to the
/// first.
pub open spec fn slashes(rel: Seq<u8>, n: int) -> Seq<int>
    decreases n,
{
    if n <= 0 {
        Seq::empty()
    } else if rel[n - 1] == SLASH {
        seq![n - 1] + slashes(rel, n - 1)
    } else {
        slashes(rel, n - 1)
    }
}

/// Every tail of `rel` that starts on a component boundary, shortest first.
pub open spec fn tails(rel: Seq<u8>) -> Seq<Seq<u8>> {
    Seq::new(
        slashes(rel, rel.len() as int).len() + 1,
        |k: int|
            if k < slashes(rel, rel.len() as int).len() {
                rel.skip(slashes(rel, rel.len() as int)[k] + 1)
            } else {
                rel
            },
    )
}

/// A descending list of exactly the slash offsets below `n` is `slashes`.
proof fn lemma_slashes(rel: Seq<u8>, n: int, at: Seq<usize>)
    requires
        0 <= n <= rel.len(),
        forall|k: int| 0 <= k < at.len() ==> #[trigger] at[k] < n && rel[at[k] as int] == SLASH,
        forall|k: int, l: int| 0 <= k < l < at.len() ==> at[k] > at[l],
        forall|i: int|
            0 <= i < n && rel[i] == SLASH ==> exists|k: int|
                0 <= k < at.len() && #[trigger] at[k] == i,
    ensures
        slashes(rel, n).len() == at.len(),
        forall|k: int| 0 <= k < at.len() ==> slashes(rel, n)[k] == #[trigger] at[k],
    decreases n,
{
    if n > 0 {
        if rel[n - 1] == SLASH {
            let k = choose|k: int| 0 <= k < at.len() && #[trigger] at[k] == n - 1;
            if k > 0 {
                assert(at[0] > at[k]);
            }
            let rest = at.drop_first();
            assert forall|k: int| 0 <= k < rest.len() implies #[trigger] rest[k] < n - 1
                && rel[rest[k] as int] == SLASH by {
                assert(at[0] > at[k + 1]);
                assert(rel[at[k + 1] as int] == SLASH);
            }
            assert forall|i: int| 0 <= i < n - 1 && rel[i] == SLASH implies exists|k: int|
                0 <= k < rest.len() && #[trigger] rest[k] == i by {
                let k = choose|k: int| 0 <= k < at.len() && #[trigger] at[k] == i;
                assert(rest[k - 1] == i);
            }
            lemma_slashes(rel, n - 1, rest);
            assert forall|k: int| 0 <= k < at.len() implies slashes(rel, n)[k] == #[trigger] at[k] by {
                if k > 0 {
                    assert(slashes(rel, n - 1)[k - 1] == rest[k - 1]);
                }
            }
        } else {
            lemma_slashes(rel, n - 1, at);
        }
    } else if at.len() > 0 {
        assert(at[0] < 0);
    }
}

/// Every tail of `rel` that starts on a component boundary, shortest first.
pub fn subpaths<'a>(rel: &'a [u8]) -> (r: Vec<&'a [u8]>)
    ensures
        r@.len() == tails(rel@).len(),
        forall|k: int| 0 <= k < r@.len() ==> (#[trigger] r@[k])@ == tails(rel@)[k],
{
    let at = rfind_all(SLASH, rel);
    proof {
        lemma_slashes(rel@, rel@.len() as int, at@);
    }
    let ghost offsets = slashes(rel@, rel@.len() as int);
    let mut out: Vec<&'a [u8]> = Vec::new();
    let mut k: usize = 0;
    let end: usize = rel.len();
    while k < at.len()
        invariant
            k <= at@.len(),
            end == rel@.len(),
            offsets == slashes(rel@, rel@.len() as int),
            offsets.len() == at@.len(),
            forall|j: int| 0 <= j < at@.len() ==> offsets[j] == #[trigger] at@[j],
            forall|j: int| 0 <= j < at@.len() ==> #[trigger] at@[j] < rel@.len(),
            out@.len() == k,
            forall|j: int| 0 <= j < k ==> (#[trigger] out@[j])@ == tails(rel@)[j],
        decreases at@.len() - k,
    {
        let from: usize = at[k] + 1;
        assert(rel@.subrange(from as int, end as int) =~= rel@.skip(from as int));
        out.push(slice_subrange(rel, from, end));
        k += 1;
    }
    out.push(rel);
    out
}

/// The path without its leading component, empty when there is no other one.
pub open spec fn without_host(rel: Seq<u8>) -> Seq<u8> {
    if rel.contains(SLASH) {
        rel.skip(before_first(rel, SLASH).len() as int + 1)
    } else {
        Seq::empty()
    }
}

/// The path without its leading host component, and empty when there is no
/// other component.
pub fn non_host_path(rel: &[u8]) -> (r: &[u8])
    ensures
        r@ == without_host(rel@),
{
    let end: usize = rel.len();
    match find_byte(SLASH, rel) {
        Some(i) => {
            proof {
                lemma_before_first(rel@, SLASH, i as int);
                assert(rel@[i as int] == SLASH);
                assert(rel@.subrange(i + 1, end as int) =~= rel@.skip(i + 1));
            }
            slice_subrange(rel, i + 1, end)
        },
        None => {
            assert(rel@.subrange(0, 0) =~= Seq::empty());
            slice_subrange(rel, 0, 0)
        },
    }
}

/// The leading component of `rel`, which is the host segment of the layout.
pub fn host_component(rel: &[u8]) -> (r: &[u8])
    ensures
        r@ == before_first(rel@, SLASH),
{
    match find_byte(SLASH, rel) {
        Some(i) => {
            proof {
                lemma_before_first(rel@, SLASH, i as int);
                assert(rel@.subrange(0, i as int) =~= rel@.take(i as int));
            }
            slice_subrange(rel, 0, i)
        },
        None => {
            proof {
                lemma_before_none(rel@, SLASH);
            }
            rel
        },
    }
}

/// A root and a path below it as one path: a root that is itself the
/// repository, whose path is `.`, stands for itself, and a root that ends in
/// a separator gains no second one.
pub open spec fn full_path(root: Seq<u8>, rel: Seq<u8>) -> Seq<u8> {
    if rel == seq![DOT] {
        root
    } else if root.len() > 0 && root.last() == SLASH {
        root + rel
    } else {
        root.push(SLASH) + rel
    }
}

/// Appends `<root>/<rel>` to `sink`.
pub fn push_full_path(sink: &mut Vec<u8>, root: &[u8], rel: &[u8])
    ensures
        final(sink)@ == old(sink)@ + full_path(root@, rel@),
{
    push_all(sink, root);
    let dot = rel.len() == 1 && rel[0] == DOT;
    assert(dot == (rel@ =~= seq![DOT]));
    if dot {
        return;
    }
    if !(root.len() > 0 && root[root.len() - 1] == SLASH) {
        sink.push(SLASH);
    }
    push_all(sink, rel);
    assert(sink@ =~= old(sink)@ + full_path(root@, rel@));
}

/// Where the path below `root` begins in `abs`, when `root` contains it: the
/// bytes agree and the cut falls on a component boundary.
pub open spec fn root_cut(root: Seq<u8>, abs: Seq<u8>) -> Option<int> {
    if !has_prefix(abs, root) {
        None
    } else if abs.len() == root.len() {
        Some(root.len() as int)
    } else if root.len() > 0 && root.last() == SLASH {
        Some(root.len() as int)
    } else if abs[root.len() as int] == SLASH {
        Some(root.len() as int + 1)
    } else {
        None
    }
}

/// The offset in `abs` of the part that `root` does not account for, or
/// `None` when `root` does not contain `abs`.
pub fn root_prefix(root: &[u8], abs: &[u8]) -> (r: Option<usize>)
    ensures
        match r {
            Some(cut) => root_cut(root@, abs@) == Some(cut as int) && cut <= abs@.len(),
            None => root_cut(root@, abs@) is None,
        },
{
    if !starts_with(abs, root) {
        return None;
    }
    if abs.len() == root.len() || root.len() > 0 && root[root.len() - 1] == SLASH {
        return Some(root.len());
    }
    if abs[root.len()] == SLASH {
        return Some(root.len() + 1);
    }
    None
}

/// The number of the first root that contains `abs`.
pub open spec fn naming_root(roots: Seq<Seq<u8>>, abs: Seq<u8>, from: int) -> Option<int>
    decreases roots.len() - from,
{
    if from >= roots.len() {
        None
    } else if root_cut(roots[from], abs) is Some {
        Some(from)
    } else {
        naming_root(roots, abs, from + 1)
    }
}

/// What the repository at `abs` is called: the part behind the first root
/// that contains it; all of it where none does.
pub open spec fn name_of(roots: Seq<Seq<u8>>, abs: Seq<u8>) -> (int, bool) {
    match naming_root(roots, abs, 0) {
        Some(k) => (root_cut(roots[k], abs)->0, k == 0),
        None => (0, false),
    }
}

/// Where one repository's absolute path and its name lie in the buffer that
/// [`name_repositories`] fills.
#[derive(Clone, Copy, Debug)]
pub struct NameSpan {
    /// Where the absolute path begins.
    pub start: usize,
    /// Where the name begins.
    pub rel: usize,
    /// Where both end.
    pub end: usize,
    /// Whether the first root gives the name.
    pub under_primary: bool,
}

/// Whether `span` holds the repository at `abs`, named by the roots.
pub open spec fn spans(
    paths: Seq<u8>,
    span: NameSpan,
    roots: Seq<Seq<u8>>,
    abs: Seq<u8>,
) -> bool {
    &&& span.start <= span.rel <= span.end <= paths.len()
    &&& paths.subrange(span.start as int, span.end as int) == abs
    &&& span.rel - span.start == name_of(roots, abs).0
    &&& span.under_primary == name_of(roots, abs).1
}

/// The absolute paths of the first `n` repositories of a listing of `root`.
pub open spec fn abs_paths(root: Seq<u8>, repos: Seq<Seq<u8>>, n: int) -> Seq<Seq<u8>>
    decreases n,
{
    if n <= 0 {
        Seq::empty()
    } else {
        abs_paths(root, repos, n - 1).push(full_path(root, repos[n - 1]))
    }
}

/// The absolute paths of the repositories of the first `n` roots.
pub open spec fn all_abs_paths(
    roots: Seq<Seq<u8>>,
    listings: Seq<RootListing>,
    n: int,
) -> Seq<Seq<u8>>
    decreases n,
{
    if n <= 0 {
        Seq::empty()
    } else {
        all_abs_paths(roots, listings, n - 1) + abs_paths(
            roots[n - 1],
            listings[n - 1]@.repos,
            listings[n - 1]@.repos.len() as int,
        )
    }
}

/// The name of the repository at `abs`, by its offset, and whether the first
/// root gives it.
fn name_one(roots: &Vec<Vec<u8>>, abs: &[u8]) -> (r: (usize, bool))
    ensures
        r.0 == name_of(views(roots@), abs@).0,
        r.1 == name_of(views(roots@), abs@).1,
        r.0 <= abs@.len(),
{
    let ghost rv = views(roots@);
    let mut k: usize = 0;
    while k < roots.len()
        invariant
            k <= roots@.len(),
            rv == views(roots@),
            naming_root(rv, abs@, 0) == naming_root(rv, abs@, k as int),
        decreases roots@.len() - k,
    {
        assert(rv[k as int] == roots@[k as int]@);
        match root_prefix(roots[k].as_slice(), abs) {
            Some(cut) => return (cut, k == 0),
            None => {},
        }
        k += 1;
    }
    (0, false)
}

/// Names every repository of every root: the first configured root that
/// contains a repository names it, whichever root's walk found it. Roots are
/// taken in order and never deduplicated against each other.
pub fn name_repositories(roots: &Vec<Vec<u8>>, listings: &Vec<RootListing>) -> (r: (
    Vec<u8>,
    Vec<NameSpan>,
))
    requires
        roots@.len() == listings@.len(),
        forall|i: int| 0 <= i < listings@.len() ==> (#[trigger] listings@[i]).wf(),
    ensures
        r.1@.len() == all_abs_paths(views(roots@), listings@, roots@.len() as int).len(),
        forall|k: int|
            0 <= k < r.1@.len() ==> spans(
                r.0@,
                #[trigger] r.1@[k],
                views(roots@),
                all_abs_paths(views(roots@), listings@, roots@.len() as int)[k],
            ),
{
    let ghost rv = views(roots@);
    let mut paths: Vec<u8> = Vec::new();
    let mut out: Vec<NameSpan> = Vec::new();
    let mut i: usize = 0;
    while i < roots.len()
        invariant
            i <= roots@.len(),
            rv == views(roots@),
            roots@.len() == listings@.len(),
            forall|i: int| 0 <= i < listings@.len() ==> (#[trigger] listings@[i]).wf(),
            out@.len() == all_abs_paths(rv, listings@, i as int).len(),
            forall|k: int|
                0 <= k < out@.len() ==> spans(
                    paths@,
                    #[trigger] out@[k],
                    rv,
                    all_abs_paths(rv, listings@, i as int)[k],
                ),
        decreases roots@.len() - i,
    {
        let ghost done = all_abs_paths(rv, listings@, i as int);
        let root = roots[i].as_slice();
        let repos = listings[i].repos();
        let ghost found = listings@[i as int]@.repos;
        assert(rv[i as int] == root@);
        let mut j: usize = 0;
        assert(done + abs_paths(root@, found, 0) =~= done);
        while j < repos.len()
            invariant
                j <= repos@.len(),
                rv == views(roots@),
                repos@.len() == found.len(),
                forall|k: int| 0 <= k < repos@.len() ==> (#[trigger] repos@[k])@ == found[k],
                out@.len() == (done + abs_paths(root@, found, j as int)).len(),
                forall|k: int|
                    0 <= k < out@.len() ==> spans(
                        paths@,
                        #[trigger] out@[k],
                        rv,
                        (done + abs_paths(root@, found, j as int))[k],
                    ),
            decreases repos@.len() - j,
        {
            let ghost before = paths@;
            let ghost list = done + abs_paths(root@, found, j as int);
            let start: usize = paths.len();
            push_full_path(&mut paths, root, repos[j]);
            let end: usize = paths.len();
            let ghost abs = full_path(root@, found[j as int]);
            assert(paths@.subrange(start as int, end as int) =~= abs);
            let (cut, under_primary) = name_one(
                roots,
                slice_subrange(paths.as_slice(), start, end),
            );
            out.push(NameSpan { start, rel: start + cut, end, under_primary });
            j += 1;
            proof {
                let list2 = done + abs_paths(root@, found, j as int);
                assert(list2 =~= list.push(abs));
                assert forall|k: int| 0 <= k < out@.len() implies spans(
                    paths@,
                    #[trigger] out@[k],
                    rv,
                    list2[k],
                ) by {
                    if k < out@.len() - 1 {
                        assert(spans(before, out@[k], rv, list[k]));
                        assert(paths@.subrange(out@[k].start as int, out@[k].end as int)
                            =~= before.subrange(out@[k].start as int, out@[k].end as int));
                    }
                }
            }
        }
        i += 1;
    }
    (paths, out)
}

/// One microsecond count as the value a span field can carry, saturating.
pub fn micros(elapsed: u128) -> (r: u64)
    ensures
        r == if elapsed <= u64::MAX { elapsed as u64 } else { u64::MAX },
{
    if elapsed <= u64::MAX as u128 {
        elapsed as u64
    } else {
        u64::MAX
    }
}

/// A byte string folded to lower case: by Unicode's mapping where it is text
/// that is not ASCII, as ASCII everywhere else.
pub open spec fn fold_case(hay: Seq<u8>) -> Seq<u8> {
    if valid_utf8(hay) && !is_ascii_chars(decode_utf8(hay)) {
        encode_utf8(unicode_lower(decode_utf8(hay)))
    } else {
        lower_bytes(hay)
    }
}

/// A byte string folded to lower case.
///
/// The ASCII path is the one every ordinary repository layout takes. Other
/// text goes through Unicode's mapping, so that the Kelvin sign folds to `k`;
/// a name that is not UTF-8 at all is folded as ASCII.
pub fn lowercase(hay: &[u8]) -> (r: Vec<u8>)
    ensures
        r@ == fold_case(hay@),
{
    match utf8_text(hay) {
        Some(s) => {
            if !s.is_ascii() {
                return slice_to_vec(lowercase_text(s).as_str().as_bytes());
            }
        },
        None => {},
    }
    let mut out: Vec<u8> = Vec::new();
    let mut i: usize = 0;
    while i < hay.len()
        invariant
            i <= hay@.len(),
            out@.len() == i,
            forall|j: int| 0 <= j < i ==> #[trigger] out@[j] == lower_bytes(hay@)[j],
        decreases hay@.len() - i,
    {
        out.push(lower(hay[i]));
        i += 1;
    }
    assert(out@ =~= lower_bytes(hay@));
    out
}

/// Whether a text looks like the name of a host: it holds a dot and no space.
pub open spec fn host_like(s: Seq<char>) -> bool {
    s.contains('.') && !s.contains(' ')
}

/// Whether a list of characters holds `c`.
fn has_char(s: &[char], c: char) -> (r: bool)
    ensures
        r == s@.contains(c),
{
    let mut i: usize = 0;
    while i < s.len()
        invariant
            i <= s@.len(),
            forall|j: int| 0 <= j < i ==> s@[j] != c,
        decreases s@.len() - i,
    {
        if s[i] == c {
            return true;
        }
        i += 1;
    }
    false
}

/// Whether a text looks like the name of a host.
pub fn looks_like_authority(s: &str) -> (r: bool)
    ensures
        r == host_like(s@),
{
    let cs = chars(s);
    has_char(cs.as_slice(), '.') && !has_char(cs.as_slice(), ' ')
}

/// A query's host and what is left of it: a query `host/rest` whose head
/// looks like a host is split at its first slash.
pub open spec fn authority_split(query: Seq<char>) -> (Option<Seq<char>>, Seq<char>) {
    let head = before_first(query, '/');
    if query.contains('/') && host_like(head) {
        (Some(head), query.skip(head.len() as int + 1))
    } else {
        (None, query)
    }
}

/// Splits a query of the form `host/rest` whose head looks like a host.
pub fn split_authority_prefix(query: &str) -> (r: (Option<&str>, String))
    ensures
        r.1@ == authority_split(query@).1,
        match r.0 {
            Some(host) => authority_split(query@).0 == Some(host@),
            None => authority_split(query@).0 is None,
        },
{
    let cs = chars(query);
    let mut i: usize = 0;
    while i < cs.len() && cs[i] != '/'
        invariant
            i <= cs@.len(),
            cs@ == query@,
            forall|j: int| 0 <= j < i ==> cs@[j] != '/',
        decreases cs@.len() - i,
    {
        i += 1;
    }
    if i < cs.len() {
        let head = query.substring_char(0, i);
        proof {
            assert(first_at(query@, '/', i as int));
            assert(query@[i as int] == '/');
            lemma_before_first(query@, '/', i as int);
            assert(head@ =~= query@.take(i as int));
        }
        if looks_like_authority(head) {
            let rest = text(slice_subrange(cs.as_slice(), i + 1, cs.len()));
            assert(rest@ =~= query@.skip(i + 1));
            return (Some(head), rest);
        }
    } else {
        assert(!query@.contains('/'));
    }
    (None, text(cs.as_slice()))
}

/// A text in lower case: its letters `A` to `Z` where it is ASCII, by Unicode's
/// mapping everywhere else.
pub open spec fn lower_case(q: Seq<char>) -> Seq<char> {
    if is_ascii_chars(q) {
        ascii_lower(q)
    } else {
        unicode_lower(q)
    }
}

/// Whether a query's text occurs in a path. A query that is its own lower
/// case matches whatever the case of the path; any other matches literally.
pub open spec fn matches_text(q: Seq<char>, hay: Seq<u8>) -> bool {
    if q == lower_case(q) {
        occurs_in(fold_case(hay), encode_utf8(q))
    } else {
        occurs_in(hay, encode_utf8(q))
    }
}

/// Whether a query selects the repository called `rel`.
///
/// An exact query has to be one of its tails. Any other is looked for in the
/// path without its host, after the host, where the query names one, was
/// found equal.
pub open spec fn selects(query: Option<Seq<char>>, exact: bool, rel: Seq<u8>) -> bool {
    match query {
        None => true,
        Some(q) => if exact {
            tails(rel).contains(encode_utf8(q))
        } else {
            let (host, rest) = authority_split(q);
            &&& host matches Some(h) ==> before_first(rel, SLASH) == encode_utf8(h)
            &&& matches_text(rest, without_host(rel))
        },
    }
}

/// The query of the arguments.
pub open spec fn query_of(args: ListArgs) -> Option<Seq<char>> {
    match args.query {
        Some(q) => Some(q@),
        None => None,
    }
}

/// Whether one of the tails of `rel` is `needle`.
fn has_tail(rel: &[u8], needle: &[u8]) -> (r: bool)
    ensures
        r == tails(rel@).contains(needle@),
{
    let all = subpaths(rel);
    let mut k: usize = 0;
    while k < all.len()
        invariant
            k <= all@.len(),
            all@.len() == tails(rel@).len(),
            forall|j: int| 0 <= j < all@.len() ==> (#[trigger] all@[j])@ == tails(rel@)[j],
            forall|j: int| 0 <= j < k ==> #[trigger] tails(rel@)[j] != needle@,
        decreases all@.len() - k,
    {
        assert(all@[k as int]@ == tails(rel@)[k as int]);
        if bytes_eq(all[k], needle) {
            return true;
        }
        k += 1;
    }
    false
}

/// The repositories that the query selects, in order.
pub fn filter_repos<'a>(repos: Vec<Repo<'a>>, args: &ListArgs) -> (r: Vec<Repo<'a>>)
    ensures
        repo_views(r@) == kept(
            repo_views(repos@),
            |repo: RepoView| selects(query_of(*args), args.exact, repo.rel),
        ),
{
    let ghost all = repo_views(repos@);
    let ghost keep = |repo: RepoView| selects(query_of(*args), args.exact, repo.rel);
    let query = match &args.query {
        Some(query) => query.as_str(),
        None => {
            proof {
                lemma_kept_all(all, keep);
            }
            return repos;
        },
    };
    let (host, rest) = split_authority_prefix(query);
    let folded = lowercase_text(rest.as_str());
    let smart_case = text_eq(rest.as_str(), folded.as_str());
    let mut out: Vec<Repo<'a>> = Vec::new();
    let mut i: usize = 0;
    assert(all.take(0) =~= Seq::empty());
    assert(repo_views(out@) =~= kept(all.take(0), keep));
    while i < repos.len()
        invariant
            i <= repos@.len(),
            all == repo_views(repos@),
            keep == (|repo: RepoView| selects(query_of(*args), args.exact, repo.rel)),
            query_of(*args) == Some(query@),
            rest@ == authority_split(query@).1,
            match host {
                Some(h) => authority_split(query@).0 == Some(h@),
                None => authority_split(query@).0 is None,
            },
            folded@ == lower_case(rest@),
            smart_case == (rest@ == lower_case(rest@)),
            repo_views(out@) == kept(all.take(i as int), keep),
        decreases repos@.len() - i,
    {
        let repo = repos[i];
        assert(all[i as int] == repo@);
        assert(all.take(i + 1).drop_last() =~= all.take(i as int));
        let selected = if args.exact {
            has_tail(repo.rel, query.as_bytes())
        } else {
            let right_host = match host {
                Some(h) => bytes_eq(host_component(repo.rel), h.as_bytes()),
                None => true,
            };
            let hay = non_host_path(repo.rel);
            right_host && if smart_case {
                find_bytes(lowercase(hay).as_slice(), folded.as_str().as_bytes()).is_some()
            } else {
                find_bytes(hay, rest.as_str().as_bytes()).is_some()
            }
        };
        assert(selected == keep(repo@));
        if selected {
            let ghost before = out@;
            out.push(repo);
            assert(repo_views(out@) =~= repo_views(before).push(repo@));
        }
        i += 1;
    }
    assert(all.take(i as int) =~= all);
    out
}

/// Whether `p` belongs to the repositories called `rel` alone: no repository
/// with another name has it among its tails.
pub open spec fn is_lone(repos: Seq<RepoView>, rel: Seq<u8>, p: Seq<u8>) -> bool {
    forall|j: int|
        0 <= j < repos.len() && tails((#[trigger] repos[j]).rel).contains(p) ==> repos[j].rel == rel
}

/// Whether another repository has the same name.
pub open spec fn is_repeated(repos: Seq<RepoView>, i: int) -> bool {
    exists|j: int| 0 <= j < repos.len() && j != i && (#[trigger] repos[j]).rel == repos[i].rel
}

/// The shortest tail, from number `k` on, that belongs to the name alone.
pub open spec fn lone_tail(repos: Seq<RepoView>, rel: Seq<u8>, k: int) -> Option<Seq<u8>>
    decreases tails(rel).len() - k,
{
    if k >= tails(rel).len() {
        None
    } else if is_lone(repos, rel, tails(rel)[k]) {
        Some(tails(rel)[k])
    } else {
        lone_tail(repos, rel, k + 1)
    }
}

/// The line that `--unique` prints for one repository: nothing for a copy
/// that the primary root does not name, nor for one whose every tail belongs
/// to another name too.
pub open spec fn unique_line(repos: Seq<RepoView>, i: int) -> Option<Seq<u8>> {
    if is_repeated(repos, i) && !repos[i].under_primary {
        None
    } else {
        lone_tail(repos, repos[i].rel, 0)
    }
}

/// The lines that `--unique` prints for the first `n` repositories.
pub open spec fn unique_lines(repos: Seq<RepoView>, n: int) -> Seq<Seq<u8>>
    decreases n,
{
    if n <= 0 {
        Seq::empty()
    } else {
        match unique_line(repos, n - 1) {
            Some(p) => unique_lines(repos, n - 1).push(p),
            None => unique_lines(repos, n - 1),
        }
    }
}

/// Every tail of every repository, with the number of the repository it
/// comes from, and the order of the tails.
struct TailTable {
    keys: Vec<Vec<u8>>,
    owner: Vec<usize>,
    order: Vec<usize>,
}

impl TailTable {
    /// Whether the table lists the tails of `repos`, all of them and nothing
    /// else, and orders them.
    spec fn lists(&self, repos: Seq<RepoView>) -> bool {
        &&& self.complete(repos, repos.len() as int)
        &&& is_permutation(self.order@, self.keys@.len())
        &&& picks_sorted(self.keys@, self.order@)
    }

    /// Whether the table lists the tails of the first `n` repositories.
    spec fn complete(&self, repos: Seq<RepoView>, n: int) -> bool {
        &&& self.keys@.len() == self.owner@.len()
        &&& forall|k: int|
            0 <= k < self.keys@.len() ==> (#[trigger] self.owner@[k]) < n && tails(
                repos[self.owner@[k] as int].rel,
            ).contains(self.keys@[k]@)
        &&& forall|j: int, t: int|
            0 <= j < n && 0 <= t < tails(repos[j].rel).len() ==> self.has(
                j,
                #[trigger] tails(repos[j].rel)[t],
            )
    }

    /// Whether some row is the tail `p` of the repository number `j`.
    spec fn has(&self, j: int, p: Seq<u8>) -> bool {
        exists|k: int|
            0 <= k < self.keys@.len() && #[trigger] self.owner@[k] == j && self.keys@[k]@ == p
    }

    /// The table of the tails of `repos`.
    fn new(repos: &Vec<Repo<'_>>) -> (r: Self)
        ensures
            r.lists(repo_views(repos@)),
    {
        let ghost all = repo_views(repos@);
        let mut table = TailTable { keys: Vec::new(), owner: Vec::new(), order: Vec::new() };
        let mut i: usize = 0;
        while i < repos.len()
            invariant
                i <= repos@.len(),
                all == repo_views(repos@),
                table.complete(all, i as int),
            decreases repos@.len() - i,
        {
            let rel = repos[i].rel;
            assert(all[i as int].rel == rel@);
            let own = subpaths(rel);
            let ghost start = table;
            let mut t: usize = 0;
            while t < own.len()
                invariant
                    i < repos@.len(),
                    t <= own@.len(),
                    all == repo_views(repos@),
                    all[i as int].rel == rel@,
                    own@.len() == tails(rel@).len(),
                    forall|k: int| 0 <= k < own@.len() ==> (#[trigger] own@[k])@ == tails(rel@)[k],
                    start.complete(all, i as int),
                    table.keys@.len() == start.keys@.len() + t,
                    table.owner@.len() == start.owner@.len() + t,
                    forall|k: int|
                        0 <= k < start.keys@.len() ==> (#[trigger] table.owner@[k])
                            == start.owner@[k] && table.keys@[k]@ == start.keys@[k]@,
                    forall|k: int|
                        start.keys@.len() <= k < table.keys@.len() ==> (#[trigger] table.owner@[k])
                            == i && table.keys@[k]@ == tails(rel@)[k - start.keys@.len()],
                decreases own@.len() - t,
            {
                let ghost before = table;
                let key = slice_to_vec(own[t]);
                let ghost added = key@;
                table.keys.push(key);
                table.owner.push(i);
                proof {
                    let m = start.keys@.len() as int;
                    assert(table.owner@ == before.owner@.push(i));
                    assert forall|k: int| 0 <= k < m implies (#[trigger] table.owner@[k])
                        == start.owner@[k] && table.keys@[k]@ == start.keys@[k]@ by {
                        assert(before.owner@[k] == start.owner@[k]);
                        assert(table.keys@[k] == before.keys@[k]);
                    }
                    assert forall|k: int| m <= k < table.keys@.len() implies (
                    #[trigger] table.owner@[k]) == i && table.keys@[k]@ == tails(rel@)[k - m] by {
                        if k < before.keys@.len() {
                            assert(before.owner@[k] == i);
                            assert(table.keys@[k] == before.keys@[k]);
                        } else {
                            assert(table.keys@[k]@ == added);
                        }
                    }
                }
                t += 1;
            }
            proof {
                let m = start.keys@.len() as int;
                assert forall|k: int| 0 <= k < table.keys@.len() implies (
                #[trigger] table.owner@[k]) < i + 1 && tails(
                    all[table.owner@[k] as int].rel,
                ).contains(table.keys@[k]@) by {
                    if k < m {
                        assert(start.owner@[k] < i);
                    } else {
                        assert(table.owner@[k] == i);
                        assert(tails(rel@)[k - m] == table.keys@[k]@);
                    }
                }
                assert forall|j: int, t: int|
                    0 <= j < i + 1 && 0 <= t < tails(all[j].rel).len() implies table.has(
                    j,
                    #[trigger] tails(all[j].rel)[t],
                ) by {
                    if j < i {
                        assert(start.has(j, tails(all[j].rel)[t]));
                        let k = choose|k: int|
                            0 <= k < start.keys@.len() && #[trigger] start.owner@[k] == j
                                && start.keys@[k]@ == tails(all[j].rel)[t];
                        assert(table.owner@[k] == j);
                    } else {
                        assert(table.owner@[m + t] == j);
                        assert(table.keys@[m + t]@ == tails(rel@)[t]);
                    }
                }
            }
            i += 1;
        }
        let order = sorted_order(&table.keys);
        let r = TailTable { keys: table.keys, owner: table.owner, order };
        proof {
            assert forall|j: int, t: int|
                0 <= j < all.len() && 0 <= t < tails(all[j].rel).len() implies r.has(
                j,
                #[trigger] tails(all[j].rel)[t],
            ) by {
                assert(table.has(j, tails(all[j].rel)[t]));
                let k = choose|k: int|
                    0 <= k < table.keys@.len() && #[trigger] table.owner@[k] == j
                        && table.keys@[k]@ == tails(all[j].rel)[t];
                assert(r.owner@[k] == j);
            }
        }
        r
    }

    /// The place in the order of the first tail that is not before `p`.
    fn lower_bound(&self, p: &[u8]) -> (r: usize)
        requires
            is_permutation(self.order@, self.keys@.len()),
            picks_sorted(self.keys@, self.order@),
        ensures
            r <= self.order@.len(),
            forall|k: int|
                0 <= k < r ==> self.keys@[#[trigger] self.order@[k] as int]@ != p@,
            forall|k: int|
                r <= k < self.order@.len() ==> lex_le(
                    p@,
                    self.keys@[#[trigger] self.order@[k] as int]@,
                ),
    {
        let mut lo: usize = 0;
        let mut hi: usize = self.order.len();
        while lo < hi
            invariant
                is_permutation(self.order@, self.keys@.len()),
                picks_sorted(self.keys@, self.order@),
                lo <= hi <= self.order@.len(),
                forall|k: int|
                    0 <= k < lo ==> !lex_le(p@, self.keys@[#[trigger] self.order@[k] as int]@),
                forall|k: int|
                    hi <= k < self.order@.len() ==> lex_le(
                        p@,
                        self.keys@[#[trigger] self.order@[k] as int]@,
                    ),
            decreases hi - lo,
        {
            let mid: usize = lo + (hi - lo) / 2;
            assert(self.order@[mid as int] < self.keys@.len());
            let key = self.keys[self.order[mid]].as_slice();
            if lex_before(p, key) {
                proof {
                    assert forall|k: int| mid <= k < self.order@.len() implies lex_le(
                        p@,
                        self.keys@[#[trigger] self.order@[k] as int]@,
                    ) by {
                        assert(lex_le(key@, self.keys@[self.order@[k] as int]@));
                        lemma_lex_transitive(p@, key@, self.keys@[self.order@[k] as int]@);
                    }
                }
                hi = mid;
            } else {
                proof {
                    assert forall|k: int| 0 <= k < mid + 1 implies !lex_le(
                        p@,
                        self.keys@[#[trigger] self.order@[k] as int]@,
                    ) by {
                        let other = self.keys@[self.order@[k] as int]@;
                        assert(lex_le(other, self.keys@[self.order@[mid as int] as int]@));
                        if lex_le(p@, other) {
                            lemma_lex_transitive(p@, other, key@);
                        }
                    }
                }
                lo = mid + 1;
            }
        }
        proof {
            assert forall|k: int| 0 <= k < lo implies self.keys@[#[trigger] self.order@[k] as int]@
                != p@ by {
                lemma_lex_reflexive(p@);
            }
        }
        lo
    }

    /// Whether the tail `p` belongs to the name `rel` alone.
    fn lone(&self, repos: &Vec<Repo<'_>>, rel: &[u8], p: &[u8]) -> (r: bool)
        requires
            self.lists(repo_views(repos@)),
        ensures
            r == is_lone(repo_views(repos@), rel@, p@),
    {
        let ghost all = repo_views(repos@);
        let lo = self.lower_bound(p);
        let mut n: usize = lo;
        while n < self.order.len() && bytes_eq(
            self.keys[self.order[n]].as_slice(),
            p,
        )
            invariant
                self.lists(all),
                all == repo_views(repos@),
                lo <= n <= self.order@.len(),
                forall|k: int|
                    0 <= k < lo ==> self.keys@[#[trigger] self.order@[k] as int]@ != p@,
                forall|k: int|
                    lo <= k < self.order@.len() ==> lex_le(
                        p@,
                        self.keys@[#[trigger] self.order@[k] as int]@,
                    ),
                forall|k: int| 0 <= k < self.order@.len() ==> #[trigger] self.order@[k] < self.keys@.len(),
                forall|k: int|
                    lo <= k < n ==> all[self.owner@[#[trigger] self.order@[k] as int] as int].rel
                        == rel@,
            decreases self.order@.len() - n,
        {
            let row: usize = self.order[n];
            let owner: usize = self.owner[row];
            assert(all[owner as int] == repos@[owner as int]@);
            if !bytes_eq(repos[owner].rel, rel) {
                proof {
                    assert(tails(all[owner as int].rel).contains(p@));
                    assert(!is_lone(all, rel@, p@));
                }
                return false;
            }
            n += 1;
        }
        proof {
            assert forall|j: int|
                0 <= j < all.len() && tails((#[trigger] all[j]).rel).contains(p@) implies all[j].rel
                == rel@ by {
                let t = choose|t: int| 0 <= t < tails(all[j].rel).len() && tails(all[j].rel)[t] == p@;
                assert(self.has(j, tails(all[j].rel)[t]));
                let row = choose|row: int|
                    0 <= row < self.keys@.len() && #[trigger] self.owner@[row] == j
                        && self.keys@[row]@ == p@;
                lemma_permutation_surjective(self.order@, self.keys@.len(), row);
                let k = choose|k: int|
                    0 <= k < self.keys@.len() && #[trigger] self.order@[k] == row;
                if k >= n {
                    let stop = self.keys@[self.order@[n as int] as int]@;
                    assert(lex_le(stop, self.keys@[self.order@[k] as int]@));
                    assert(lex_le(p@, stop));
                    lemma_lex_antisymmetric(p@, stop);
                }
                assert(lo <= k < n);
                assert(all[self.owner@[self.order@[k] as int] as int].rel == rel@);
            }
        }
        true
    }

    /// Whether another repository has the name of number `i`.
    fn repeated(&self, repos: &Vec<Repo<'_>>, i: usize) -> (r: bool)
        requires
            self.lists(repo_views(repos@)),
            i < repos@.len(),
        ensures
            r == is_repeated(repo_views(repos@), i as int),
    {
        let ghost all = repo_views(repos@);
        let rel = repos[i].rel;
        assert(all[i as int].rel == rel@);
        let lo = self.lower_bound(rel);
        let mut n: usize = lo;
        while n < self.order.len() && bytes_eq(
            self.keys[self.order[n]].as_slice(),
            rel,
        )
            invariant
                self.lists(all),
                all == repo_views(repos@),
                i < repos@.len(),
                all[i as int].rel == rel@,
                lo <= n <= self.order@.len(),
                forall|k: int|
                    0 <= k < lo ==> self.keys@[#[trigger] self.order@[k] as int]@ != rel@,
                forall|k: int|
                    lo <= k < self.order@.len() ==> lex_le(
                        rel@,
                        self.keys@[#[trigger] self.order@[k] as int]@,
                    ),
                forall|k: int| 0 <= k < self.order@.len() ==> #[trigger] self.order@[k] < self.keys@.len(),
                forall|k: int|
                    lo <= k < n ==> self.owner@[#[trigger] self.order@[k] as int] == i
                        || all[self.owner@[self.order@[k] as int] as int].rel != rel@,
            decreases self.order@.len() - n,
        {
            let row: usize = self.order[n];
            let owner: usize = self.owner[row];
            assert(all[owner as int] == repos@[owner as int]@);
            if owner != i && bytes_eq(repos[owner].rel, rel) {
                return true;
            }
            n += 1;
        }
        proof {
            if is_repeated(all, i as int) {
                let j = choose|j: int|
                    0 <= j < all.len() && j != i && (#[trigger] all[j]).rel == all[i as int].rel;
                let t = tails(all[j].rel).len() - 1;
                assert(tails(all[j].rel)[t] == rel@);
                assert(self.has(j, tails(all[j].rel)[t]));
                let row = choose|row: int|
                    0 <= row < self.keys@.len() && #[trigger] self.owner@[row] == j
                        && self.keys@[row]@ == rel@;
                lemma_permutation_surjective(self.order@, self.keys@.len(), row);
                let k = choose|k: int|
                    0 <= k < self.keys@.len() && #[trigger] self.order@[k] == row;
                if k >= n {
                    let stop = self.keys@[self.order@[n as int] as int]@;
                    assert(lex_le(stop, self.keys@[self.order@[k] as int]@));
                    assert(lex_le(rel@, stop));
                    lemma_lex_antisymmetric(rel@, stop);
                }
                assert(lo <= k < n);
                assert(self.owner@[self.order@[k] as int] == i || all[self.owner@[self.order@[k] as int] as int].rel != rel@);
                assert(false);
            }
        }
        false
    }
}

/// The lines that `--unique` prints: of every repository the shortest tail
/// that no repository with another name has. A path that more than one root
/// holds is printed for the primary root's copy.
pub fn format_unique<'a>(repos: &Vec<Repo<'a>>) -> (r: Vec<&'a [u8]>)
    ensures
        r@.len() == unique_lines(repo_views(repos@), repos@.len() as int).len(),
        forall|k: int|
            0 <= k < r@.len() ==> (#[trigger] r@[k])@ == unique_lines(
                repo_views(repos@),
                repos@.len() as int,
            )[k],
{
    let ghost all = repo_views(repos@);
    let table = TailTable::new(repos);
    let mut out: Vec<&'a [u8]> = Vec::new();
    let mut i: usize = 0;
    while i < repos.len()
        invariant
            i <= repos@.len(),
            all == repo_views(repos@),
            table.lists(all),
            out@.len() == unique_lines(all, i as int).len(),
            forall|k: int|
                0 <= k < out@.len() ==> (#[trigger] out@[k])@ == unique_lines(all, i as int)[k],
        decreases repos@.len() - i,
    {
        let repo = repos[i];
        assert(all[i as int] == repo@);
        let hidden = !repo.under_primary && table.repeated(repos, i);
        if !hidden {
            let own = subpaths(repo.rel);
            let mut t: usize = 0;
            while t < own.len() && !table.lone(repos, repo.rel, own[t])
                invariant
                    t <= own@.len(),
                    all == repo_views(repos@),
                    table.lists(all),
                    own@.len() == tails(repo.rel@).len(),
                    forall|k: int|
                        0 <= k < own@.len() ==> (#[trigger] own@[k])@ == tails(repo.rel@)[k],
                    lone_tail(all, repo.rel@, 0) == lone_tail(all, repo.rel@, t as int),
                decreases own@.len() - t,
            {
                t += 1;
            }
            if t < own.len() {
                out.push(own[t]);
            }
        }
        i += 1;
    }
    out
}

/// The repository at `abs`, named by the roots.
pub open spec fn named_repo(roots: Seq<Seq<u8>>, abs: Seq<u8>) -> RepoView {
    RepoView {
        abs,
        rel: printed(abs.skip(name_of(roots, abs).0)),
        under_primary: name_of(roots, abs).1,
    }
}

/// The repositories that the roots' listings hold, named.
pub open spec fn named_repos(roots: Seq<Seq<u8>>, listings: Seq<RootListing>) -> Seq<RepoView> {
    let paths = all_abs_paths(roots, listings, roots.len() as int);
    Seq::new(paths.len(), |k: int| named_repo(roots, paths[k]))
}

/// The lines of a listing, before they are sorted. `--unique` wins over
/// `--full-path`.
pub open spec fn listing_lines(args: ListArgs, repos: Seq<RepoView>) -> Seq<Seq<u8>> {
    let chosen = kept(repos, |repo: RepoView| selects(query_of(args), args.exact, repo.rel));
    if args.unique {
        unique_lines(chosen, chosen.len() as int)
    } else if args.full_path {
        Seq::new(chosen.len(), |k: int| chosen[k].abs)
    } else {
        Seq::new(chosen.len(), |k: int| chosen[k].rel)
    }
}

/// Lines as they are written: each followed by a newline.
pub open spec fn written(lines: Seq<Seq<u8>>) -> Seq<u8>
    decreases lines.len(),
{
    if lines.len() == 0 {
        Seq::empty()
    } else {
        (written(lines.drop_last()) + lines.last()).push(0x0a)
    }
}

/// Writes lines, each followed by a newline.
pub fn write_lines(lines: &Vec<Vec<u8>>) -> (r: Vec<u8>)
    ensures
        r@ == written(views(lines@)),
{
    let ghost all = views(lines@);
    let mut buf: Vec<u8> = Vec::new();
    let mut i: usize = 0;
    assert(all.take(0) =~= Seq::empty());
    while i < lines.len()
        invariant
            i <= lines@.len(),
            all == views(lines@),
            buf@ == written(all.take(i as int)),
        decreases lines@.len() - i,
    {
        assert(all.take(i + 1).drop_last() =~= all.take(i as int));
        assert(all.take(i + 1).last() == lines@[i as int]@);
        push_all(&mut buf, lines[i].as_slice());
        buf.push(0x0a);
        i += 1;
    }
    assert(all.take(i as int) =~= all);
    buf
}

/// The lines of a listing, before they are sorted.
fn render(args: &ListArgs, repos: &Vec<Repo<'_>>) -> (r: Vec<Vec<u8>>)
    ensures
        views(r@) == (if args.unique {
            unique_lines(repo_views(repos@), repos@.len() as int)
        } else if args.full_path {
            Seq::new(repos@.len(), |k: int| repo_views(repos@)[k].abs)
        } else {
            Seq::new(repos@.len(), |k: int| repo_views(repos@)[k].rel)
        }),
{
    let ghost all = repo_views(repos@);
    let mut out: Vec<Vec<u8>> = Vec::new();
    if args.unique {
        let lines = format_unique(repos);
        let ghost want = unique_lines(all, repos@.len() as int);
        let mut i: usize = 0;
        while i < lines.len()
            invariant
                i <= lines@.len(),
                lines@.len() == want.len(),
                forall|k: int| 0 <= k < lines@.len() ==> (#[trigger] lines@[k])@ == want[k],
                out@.len() == i,
                forall|k: int| 0 <= k < i ==> (#[trigger] out@[k])@ == want[k],
            decreases lines@.len() - i,
        {
            out.push(slice_to_vec(lines[i]));
            i += 1;
        }
        assert(views(out@) =~= want);
    } else {
        let ghost want = if args.full_path {
            Seq::new(repos@.len(), |k: int| all[k].abs)
        } else {
            Seq::new(repos@.len(), |k: int| all[k].rel)
        };
        let mut i: usize = 0;
        while i < repos.len()
            invariant
                i <= repos@.len(),
                all == repo_views(repos@),
                want == if args.full_path {
                    Seq::new(repos@.len(), |k: int| all[k].abs)
                } else {
                    Seq::new(repos@.len(), |k: int| all[k].rel)
                },
                out@.len() == i,
                forall|k: int| 0 <= k < i ==> (#[trigger] out@[k])@ == want[k],
            decreases repos@.len() - i,
        {
            let line = if args.full_path {
                repos[i].abs
            } else {
                repos[i].rel
            };
            out.push(slice_to_vec(line));
            i += 1;
        }
        assert(views(out@) =~= want);
    }
    out
}

/// Accepts the names of git.
pub fn check(args: &ListArgs) -> (r: Result<(), CmdError>)
    ensures
        match r {
            Ok(()) => is_git_vcs(crate::url::opt_string(args.vcs)),
            Err(e) => crate::cmd::is_vcs_error(crate::url::opt_string(args.vcs), e),
        },
{
    match &args.vcs {
        Some(v) => validate_vcs(Some(v.as_str())),
        None => Ok(()),
    }
}

/// What `scap list` prints, given what the walk of each root found: the names
/// of the repositories that the query selects, in byte order, one to a line.
pub fn run(args: &ListArgs, roots: &Vec<Vec<u8>>, listings: &Vec<RootListing>) -> (r: Result<
    Vec<u8>,
    CmdError,
>)
    requires
        roots@.len() == listings@.len(),
        forall|i: int| 0 <= i < listings@.len() ==> (#[trigger] listings@[i]).wf(),
    ensures
        match r {
            Ok(buf) => {
                &&& is_git_vcs(vcs_of(*args))
                &&& exists|lines: Seq<Seq<u8>>| #[trigger]
                    is_sorted(lines) && lines.to_multiset() == listing_lines(
                        *args,
                        named_repos(views(roots@), listings@),
                    ).to_multiset() && buf@ == written(lines)
            },
            Err(CmdError::UnsupportedVcs(shown)) => !is_git_vcs(vcs_of(*args)) && shown@
                == crate::text::quoted(vcs_of(*args)->0),
            Err(_) => false,
        },
{
    match check(args) {
        Ok(()) => {},
        Err(e) => return Err(e),
    }
    let ghost rv = views(roots@);
    let ghost paths_of = all_abs_paths(rv, listings@, roots@.len() as int);
    let (paths, spans_of) = name_repositories(roots, listings);
    let dot: [u8; 1] = [DOT];
    let mut repos: Vec<Repo<'_>> = Vec::new();
    let mut i: usize = 0;
    while i < spans_of.len()
        invariant
            i <= spans_of@.len(),
            dot@ == seq![DOT],
            spans_of@.len() == paths_of.len(),
            forall|k: int|
                0 <= k < spans_of@.len() ==> spans(
                    paths@,
                    #[trigger] spans_of@[k],
                    rv,
                    paths_of[k],
                ),
            repos@.len() == i,
            forall|k: int| 0 <= k < i ==> (#[trigger] repos@[k])@ == named_repo(rv, paths_of[k]),
        decreases spans_of@.len() - i,
    {
        let span = spans_of[i];
        assert(spans(paths@, span, rv, paths_of[i as int]));
        let abs = slice_subrange(paths.as_slice(), span.start, span.end);
        let name = slice_subrange(paths.as_slice(), span.rel, span.end);
        assert(name@ =~= abs@.skip(span.rel - span.start));
        let rel = if name.len() == 0 {
            dot.as_slice()
        } else {
            name
        };
        repos.push(Repo { abs, rel, under_primary: span.under_primary });
        i += 1;
    }
    assert(repo_views(repos@) =~= named_repos(rv, listings@));
    let chosen = filter_repos(repos, args);
    let lines = sort_paths(&render(args, &chosen));
    proof {
        let all = kept(
            named_repos(rv, listings@),
            |repo: RepoView| selects(query_of(*args), args.exact, repo.rel),
        );
        assert(repo_views(chosen@) == all);
        if !args.unique {
            if args.full_path {
                assert(Seq::new(chosen@.len(), |k: int| all[k].abs) =~= Seq::new(
                    all.len(),
                    |k: int| all[k].abs,
                ));
            } else {
                assert(Seq::new(chosen@.len(), |k: int| all[k].rel) =~= Seq::new(
                    all.len(),
                    |k: int| all[k].rel,
                ));
            }
        }
        assert(is_sorted(views(lines@)));
    }
    Ok(write_lines(&lines))
}

/// The `--vcs` value of the arguments.
pub open spec fn vcs_of(args: ListArgs) -> Option<Seq<char>> {
    match args.vcs {
        Some(v) => Some(v@),
        None => None,
    }
}

/// A line that `--unique` prints is a tail of the repository it stands for
/// and of no repository with another name.
pub proof fn law_unique_line_is_unambiguous(repos: Seq<RepoView>, i: int, j: int)
    requires
        0 <= i < repos.len(),
        0 <= j < repos.len(),
        unique_line(repos, i) is Some,
    ensures
        tails(repos[i].rel).contains(unique_line(repos, i)->0),
        tails(repos[j].rel).contains(unique_line(repos, i)->0) ==> repos[j].rel == repos[i].rel,
{
    lemma_lone_tail(repos, repos[i].rel, 0);
}

proof fn lemma_lone_tail(repos: Seq<RepoView>, rel: Seq<u8>, k: int)
    requires
        0 <= k,
        lone_tail(repos, rel, k) is Some,
    ensures
        tails(rel).contains(lone_tail(repos, rel, k)->0),
        is_lone(repos, rel, lone_tail(repos, rel, k)->0),
    decreases tails(rel).len() - k,
{
    if !is_lone(repos, rel, tails(rel)[k]) {
        lemma_lone_tail(repos, rel, k + 1);
    }
}

/// Every root contains what its own walk found, so every repository has a
/// name.
pub proof fn law_every_repository_is_named(roots: Seq<Seq<u8>>, i: int, rel: Seq<u8>)
    requires
        0 <= i < roots.len(),
    ensures
        root_cut(roots[i], full_path(roots[i], rel)) is Some,
        naming_root(roots, full_path(roots[i], rel), 0) is Some,
{
    let abs = full_path(roots[i], rel);
    assert(abs.take(roots[i].len() as int) =~= roots[i]);
    lemma_named(roots, abs, 0, i);
}

proof fn lemma_named(roots: Seq<Seq<u8>>, abs: Seq<u8>, from: int, i: int)
    requires
        0 <= from <= i < roots.len(),
        root_cut(roots[i], abs) is Some,
    ensures
        naming_root(roots, abs, from) is Some,
    decreases i - from,
{
    if root_cut(roots[from], abs) is None {
        lemma_named(roots, abs, from + 1, i);
    }
}

} // verus!
