//! What reading a repository argument promises.

use vstd::prelude::*;

use super::{
    authority_like, bare_repo, codecommit_of, from_input, is_codecommit, is_codecommit_name,
    is_region, is_scheme_char, law_codecommit_is_unambiguous, normal_form, parsed_repo, parsed_url,
    region_from, repo_of, repo_path, schemed, scp_parts, segments, slashed, spells, traverses,
    url_repo, vcs_of, without_git, CodecommitView, NormalizedKind, PartsView, Repo, RepoView,
    SchemeView, UrlError, UrlErrorView,
};
use crate::bytes::{
    before_first, first_at, has_prefix, has_suffix, kept, lemma_around_last, lemma_before_first,
    lemma_before_none, lemma_kept_all, lemma_split_appended, lemma_split_stands, lemma_split_whole,
    occurs_in, split_on, stands_at, trimmed_end, trimmed_start,
};
use crate::text::{ascii_lower, is_alnum, opt_text, path_text, quoted, trimmed};

verus! {

/// Only the suffix `.git` is ever taken off: what had it comes back without
/// it, and what does not end in it is left as it is, whatever dots it holds.
pub proof fn law_only_git_is_taken_off(s: Seq<char>)
    ensures
        without_git(s + ".git"@) == s,
        !has_suffix(s, ".git"@) ==> without_git(s) == s,
        has_suffix(s, ".git"@) ==> without_git(s) + ".git"@ == s,
{
    reveal_strlit(".git");
    let with = s + ".git"@;
    assert(with.skip(with.len() - 4) =~= ".git"@);
    assert(with.take(with.len() - 4) =~= s);
    if has_suffix(s, ".git"@) {
        assert(s.take(s.len() - 4) + s.skip(s.len() - 4) =~= s);
    }
}

proof fn lemma_untrimmed<T>(s: Seq<T>, c: T)
    requires
        s.len() > 0,
        s[0] != c,
        s.last() != c,
    ensures
        trimmed(s, c) == s,
        trimmed(seq![c] + s, c) == s,
        trimmed(s.push(c), c) == s,
        trimmed(seq![c] + s.push(c), c) == s,
{
    assert(trimmed_start(s, c) == s);
    assert((seq![c] + s).drop_first() =~= s);
    assert(trimmed_start(seq![c] + s, c) == s);
    assert(s.push(c).drop_last() =~= s);
    assert(trimmed_start(s.push(c), c) == s.push(c));
    assert((seq![c] + s.push(c)).drop_first() =~= s.push(c));
    assert(trimmed_start(seq![c] + s.push(c), c) == s.push(c));
    assert(trimmed_end(s.push(c), c) == trimmed_end(s, c));
}

/// `owner/name`.
pub open spec fn owner_and_name(owner: Seq<char>, name: Seq<char>) -> Seq<char> {
    owner.push('/') + name
}

/// Whether a text can be one part of a path: it is not empty and holds no
/// slash.
pub open spec fn is_part(s: Seq<char>) -> bool {
    s.len() > 0 && !s.contains('/')
}

proof fn lemma_ends(owner: Seq<char>, name: Seq<char>)
    requires
        owner.len() > 0,
        owner[0] != '/',
        is_part(name),
    ensures
        owner_and_name(owner, name).len() > 0,
        owner_and_name(owner, name)[0] != '/',
        owner_and_name(owner, name).last() != '/',
        has_suffix(owner_and_name(owner, name), ".git"@) ==> has_suffix(name, ".git"@),
        owner_and_name(owner, name + ".git"@) == owner_and_name(owner, name) + ".git"@,
        owner_and_name(owner, name + ".git"@).last() != '/',
{
    reveal_strlit(".git");
    let s = owner_and_name(owner, name);
    assert(s[0] == owner[0]);
    assert(name.contains(name.last()));
    assert(s.last() == name.last());
    assert(owner_and_name(owner, name + ".git"@) =~= s + ".git"@);
    if has_suffix(s, ".git"@) {
        assert(s.skip(s.len() - 4) == ".git"@);
        if name.len() < 4 {
            let k = 4 - name.len() - 1;
            assert(s.skip(s.len() - 4)[k] == s[owner.len() as int]);
            assert(s[owner.len() as int] == '/');
        }
        assert(name.skip(name.len() - 4) =~= ".git"@) by {
            assert forall|k: int| 0 <= k < 4 implies name.skip(name.len() - 4)[k] == ".git"@[k] by {
                assert(s.skip(s.len() - 4)[k] == ".git"@[k]);
            }
        }
    }
}

/// A path as it may stand in a URL: `owner/name`, with or without a slash
/// before it, behind it or both, and with or without `.git`.
pub open spec fn is_path_to(path: Seq<char>, owner: Seq<char>, name: Seq<char>) -> bool {
    let plain = owner_and_name(owner, name);
    let git = plain + ".git"@;
    ||| !has_suffix(name, ".git"@) && (path == plain || path == seq!['/'] + plain || path
        == plain.push('/') || path == seq!['/'] + plain.push('/'))
    ||| path == git
    ||| path == seq!['/'] + git
    ||| path == git.push('/')
    ||| path == seq!['/'] + git.push('/')
}

proof fn lemma_repo_path(path: Seq<char>, owner: Seq<char>, name: Seq<char>)
    requires
        owner.len() > 0,
        owner[0] != '/',
        is_part(name),
        is_path_to(path, owner, name),
    ensures
        repo_path(path) == owner_and_name(owner, name),
{
    let plain = owner_and_name(owner, name);
    lemma_ends(owner, name);
    lemma_untrimmed(plain, '/');
    law_only_git_is_taken_off(plain);
    lemma_untrimmed(plain + ".git"@, '/');
}

/// A URL whose path is `owner/name`, with or without `.git`, names exactly
/// that owner and that name, whatever dots they hold, at its host in lower
/// case; and the URLs that it is fetched from are spelled from these.
pub proof fn law_url_names_owner_and_name(
    input: Seq<char>,
    parts: PartsView,
    path: Seq<char>,
    owner: Seq<char>,
    name: Seq<char>,
)
    requires
        owner.len() > 0,
        owner[0] != '/',
        is_part(name),
        is_path_to(path, owner, name),
        parts.host is Some || parts.scheme is File,
    ensures
        url_repo(input, parts, path) matches Ok(repo) && {
            &&& repo.owner == owner
            &&& repo.name == name
            &&& parts.host matches Some(h) ==> repo.host == ascii_lower(h)
            &&& parts.host is None ==> repo.host.len() == 0
            &&& repo.https_url == "https://"@ + repo.host + "/"@ + owner_and_name(owner, name)
            &&& parts.user is None ==> repo.ssh_url == "ssh://git@"@ + repo.host + "/"@
                + owner_and_name(owner, name)
            &&& parts.user matches Some(u) ==> repo.ssh_url == "ssh://"@ + u + "@"@ + repo.host
                + "/"@ + owner_and_name(owner, name)
            &&& repo.original_input == input
            &&& repo.vcs_hint == vcs_of(parts.scheme, repo.host)
        },
        path_text(parts.path) == path ==> parsed_repo(input, Ok(parts)) == url_repo(
            input,
            parts,
            path,
        ),
{
    lemma_repo_path(path, owner, name);
    let whole = owner_and_name(owner, name);
    let at = owner.len() as int;
    assert(whole[at] == '/');
    assert forall|j: int| at < j < whole.len() implies whole[j] != '/' by {
        assert(whole[j] == name[j - at - 1]);
        assert(name.contains(name[j - at - 1]));
    }
    lemma_around_last(whole, '/', at);
    assert(whole.take(at) =~= owner);
    assert(whole.skip(at + 1) =~= name);
    let host = match parts.host {
        Some(h) => ascii_lower(h),
        None => Seq::empty(),
    };
    reveal_strlit("/");
    reveal_strlit("ssh://");
    reveal_strlit("git");
    reveal_strlit("@");
    reveal_strlit("ssh://git@");
    assert("https://"@ + host + "/"@ + owner + "/"@ + name =~= "https://"@ + host + "/"@ + whole);
    assert("ssh://"@ + "git"@ + "@"@ =~= "ssh://git@"@);
    if let Some(u) = parts.user {
        assert("ssh://"@ + u + "@"@ + host + "/"@ + owner + "/"@ + name =~= "ssh://"@ + u + "@"@
            + host + "/"@ + whole);
    } else {
        assert("ssh://"@ + "git"@ + "@"@ + host + "/"@ + owner + "/"@ + name =~= "ssh://git@"@ + host
            + "/"@ + whole);
    }
}

/// A URL without a host names nothing, unless it is one of a file; nor does
/// one whose path has no owner, or is empty but for slashes.
pub proof fn law_url_without_owner_is_refused(
    input: Seq<char>,
    parts: PartsView,
    path: Seq<char>,
    name: Seq<char>,
)
    ensures
        parts.host is None && !(parts.scheme is File) ==> url_repo(input, parts, path) == Err::<
            RepoView,
            UrlErrorView,
        >(UrlErrorView::MissingHost(input)),
        parts.host is Some || parts.scheme is File ==> url_repo(input, parts, "/"@) == Err::<
            RepoView,
            UrlErrorView,
        >(UrlErrorView::MissingPath(input)) && url_repo(input, parts, ""@) == Err::<
            RepoView,
            UrlErrorView,
        >(UrlErrorView::MissingPath(input)),
        (parts.host is Some || parts.scheme is File) && is_part(name) && !has_suffix(
            name,
            ".git"@,
        ) ==> url_repo(input, parts, seq!['/'] + name) == Err::<RepoView, UrlErrorView>(
            UrlErrorView::Malformed { input, reason: "expected owner/repo, got "@ + quoted(name) },
        ),
{
    reveal_strlit("/");
    reveal_strlit("");
    reveal_strlit(".git");
    let none = Seq::<char>::empty();
    assert(""@ =~= none);
    assert("/"@.drop_first() =~= none);
    assert(trimmed_start("/"@, '/') == none);
    assert(trimmed("/"@, '/') == none);
    assert(repo_path("/"@) == none);
    assert(repo_path(""@) == none);
    if is_part(name) && !has_suffix(name, ".git"@) {
        assert(name.contains(name[0]));
        assert(name.contains(name.last()));
        lemma_untrimmed(name, '/');
    }
}

/// Whether a part of a bare argument can be read as nothing else: it is not
/// empty, not `..`, and holds no slash, backslash or colon.
pub open spec fn is_plain_part(s: Seq<char>) -> bool {
    is_part(s) && s != ".."@ && !s.contains('\\') && !s.contains(':')
}

/// A text traverses if and only if two dots stand in it alone, between
/// slashes, backslashes and its ends.
pub proof fn law_traversal_is_two_dots(s: Seq<char>)
    ensures
        traverses(s) <==> exists|i: int| #[trigger] climbs_at(s, i),
{
    let t = slashed(s);
    reveal_strlit("..");
    assert(!".."@.contains('/'));
    lemma_split_stands(t, '/', ".."@);
    if traverses(s) {
        let i = choose|i: int| stands_at(t, '/', ".."@, i);
        assert(t.subrange(i, i + 2) == ".."@);
        assert(t.subrange(i, i + 2)[0] == t[i]);
        assert(t.subrange(i, i + 2)[1] == t[i + 1]);
        assert(climbs_at(s, i));
    }
    if exists|i: int| #[trigger] climbs_at(s, i) {
        let i = choose|i: int| #[trigger] climbs_at(s, i);
        assert(t.subrange(i, i + 2) =~= ".."@);
        assert(stands_at(t, '/', ".."@, i));
    }
}

/// Whether two dots stand alone at a place of a text.
pub open spec fn climbs_at(s: Seq<char>, i: int) -> bool {
    &&& 0 <= i
    &&& i + 2 <= s.len()
    &&& s[i] == '.'
    &&& s[i + 1] == '.'
    &&& i == 0 || s[i - 1] == '/' || s[i - 1] == '\\'
    &&& i + 2 == s.len() || s[i + 2] == '/' || s[i + 2] == '\\'
}

proof fn lemma_plain_parts_stay(owner: Seq<char>, name: Seq<char>)
    requires
        is_plain_part(owner),
        is_plain_part(name),
    ensures
        !traverses(owner_and_name(owner, name)),
        !traverses(name),
        !owner_and_name(owner, name).contains(':'),
{
    reveal_strlit("..");
    let s = owner_and_name(owner, name);
    law_traversal_is_two_dots(s);
    law_traversal_is_two_dots(name);
    assert forall|i: int| !#[trigger] climbs_at(s, i) by {
        if climbs_at(s, i) {
            assert forall|k: int| 0 <= k < s.len() && (s[k] == '/' || s[k] == '\\') implies k
                == owner.len() by {
                if k < owner.len() {
                    assert(owner.contains(owner[k]));
                } else if k > owner.len() {
                    assert(s[k] == name[k - owner.len() - 1]);
                    assert(name.contains(name[k - owner.len() - 1]));
                }
            }
            assert(s[owner.len() as int] == '/');
            if i == 0 {
                assert(owner.len() == 2);
                assert(owner[0] == s[0] && owner[1] == s[1]);
                assert(owner =~= ".."@);
            } else {
                assert(i == owner.len() + 1);
                assert(name.len() == 2);
                assert(name[0] == s[i] && name[1] == s[i + 1]);
                assert(name =~= ".."@);
            }
        }
    }
    assert forall|i: int| !#[trigger] climbs_at(name, i) by {
        if climbs_at(name, i) {
            if i > 0 {
                assert(name.contains(name[i - 1]));
            }
            if i + 2 < name.len() {
                assert(name.contains(name[i + 2]));
            }
            assert(name =~= ".."@);
        }
    }
    if s.contains(':') {
        let k = choose|k: int| 0 <= k < s.len() && s[k] == ':';
        if k < owner.len() {
            assert(owner.contains(owner[k]));
        } else {
            assert(s[k] == name[k - owner.len() - 1]);
            assert(name.contains(name[k - owner.len() - 1]));
        }
    }
}

/// What holds no colon is no URL, no CodeCommit argument, and nothing that
/// `scp` would write.
proof fn lemma_without_colon(s: Seq<char>)
    requires
        !s.contains(':'),
    ensures
        !schemed(s),
        scp_parts(s) is None,
        !is_codecommit(s),
        codecommit_of(s) is None,
{
    reveal_strlit("://");
    reveal_strlit("codecommit:");
    lemma_before_none(s, ':');
    assert(s.skip(s.len() as int).len() == 0);
    if is_codecommit(s) {
        let c = choose|c: CodecommitView| spells(s, c);
        assert(s[10] == "codecommit:"@[10]);
        assert(s.contains(s[10]));
    }
}

proof fn lemma_two_segments(value: Seq<char>, owner: Seq<char>, name: Seq<char>)
    requires
        is_part(owner),
        is_part(name),
        !has_suffix(name, ".git"@) && value == owner_and_name(owner, name) || value
            == owner_and_name(owner, name + ".git"@),
    ensures
        segments(value) == seq![owner, name],
{
    let plain = owner_and_name(owner, name);
    assert(owner.contains(owner[0]));
    lemma_ends(owner, name);
    lemma_untrimmed(plain, '/');
    lemma_untrimmed(plain + ".git"@, '/');
    law_only_git_is_taken_off(plain);
    assert(without_git(trimmed(value, '/')) == plain);
    lemma_split_appended(owner, name, '/');
    lemma_split_whole(owner, '/');
    let both = seq![owner, name];
    assert(split_on(plain, '/') =~= both);
    lemma_kept_all(both, |s: Seq<char>| s.len() > 0);
}

/// An argument `owner/name`, with or without `.git`, names exactly that owner
/// and that name at the default host, whatever dots the name holds, whoever
/// the default owner is.
pub proof fn law_owner_and_name_are_taken_as_given(
    owner: Seq<char>,
    name: Seq<char>,
    input: Seq<char>,
    scap_user: Option<Seq<char>>,
    complete_user: bool,
    region: Option<Seq<char>>,
)
    requires
        is_plain_part(owner),
        is_plain_part(name),
        !is_host_name(owner),
        !has_suffix(name, ".git"@) && input == owner_and_name(owner, name) || input
            == owner_and_name(owner, name + ".git"@),
    ensures
        repo_of(input, scap_user, complete_user, region) matches Ok(repo) && {
            &&& repo.host == "github.com"@
            &&& repo.owner == owner
            &&& repo.name == name
            &&& repo.https_url == "https://github.com/"@ + owner_and_name(owner, name)
            &&& repo.ssh_url == "ssh://git@github.com/"@ + owner_and_name(owner, name)
            &&& repo.original_input == input
        },
{
    reveal_strlit(".git");
    reveal_strlit("..");
    reveal_strlit("/");
    let given = if input == owner_and_name(owner, name) && !has_suffix(name, ".git"@) {
        name
    } else {
        name + ".git"@
    };
    if given != name {
        lemma_suffixed_part(name);
    }
    lemma_plain_parts_stay(owner, given);
    lemma_without_colon(input);
    lemma_two_segments(input, owner, name);
    let at = owner.len() as int;
    assert(input[at] == '/');
    assert(first_at(input, '/', at)) by {
        assert forall|j: int| 0 <= j < at implies input[j] != '/' by {
            assert(owner.contains(owner[j]));
        }
    }
    lemma_before_first(input, '/', at);
    assert(input.take(at) =~= owner);
    lemma_before_none(owner, ':');
    assert(!authority_like(owner)) by {
        if authority_like(owner) {
            assert forall|j: int| 0 <= j < owner.len() implies is_letter_or_digit(
                #[trigger] owner[j],
            ) || owner[j] == '-' || owner[j] == '.' by {
                assert(is_alnum(owner[j]) || owner[j] == '-' || owner[j] == '.');
            }
        }
    }
    let whole = owner_and_name(owner, name);
    assert("https://github.com/"@ + owner + "/"@ + name =~= "https://github.com/"@ + whole);
    assert("ssh://git@github.com/"@ + owner + "/"@ + name =~= "ssh://git@github.com/"@ + whole);
}

proof fn lemma_suffixed_part(name: Seq<char>)
    requires
        is_plain_part(name),
    ensures
        is_plain_part(name + ".git"@),
{
    reveal_strlit(".git");
    reveal_strlit("..");
    let with = name + ".git"@;
    assert forall|c: char| c == '/' || c == '\\' || c == ':' implies !(#[trigger] with.contains(
        c,
    )) by {
        if with.contains(c) {
            let k = choose|k: int| 0 <= k < with.len() && with[k] == c;
            if k < name.len() {
                assert(name.contains(name[k]));
            } else {
                assert(with[k] == ".git"@[k - name.len()]);
            }
        }
    }
    assert(with.len() > 2);
}

/// An argument that is only a name stands for the repository that is called
/// like its owner, unless the default owner is asked for: then it is that
/// one's, and refused where there is none.
pub proof fn law_name_alone(
    name: Seq<char>,
    scap_user: Option<Seq<char>>,
    complete_user: bool,
    region: Option<Seq<char>>,
)
    requires
        is_plain_part(name),
        !has_suffix(name, ".git"@),
    ensures
        match repo_of(name, scap_user, complete_user, region) {
            Ok(repo) => {
                &&& repo.host == "github.com"@
                &&& repo.name == name
                &&& !complete_user ==> repo.owner == name
                &&& complete_user ==> scap_user == Some(repo.owner)
                &&& repo.https_url == "https://github.com/"@ + owner_and_name(repo.owner, name)
                &&& repo.ssh_url == "ssh://git@github.com/"@ + owner_and_name(repo.owner, name)
            },
            Err(e) => complete_user && scap_user is None && e == (UrlErrorView::UnknownUser {
                input: name,
            }),
        },
        repo_of(name, scap_user, complete_user, region) is Err <==> complete_user
            && scap_user is None,
{
    reveal_strlit("/");
    lemma_plain_parts_stay(name, name);
    lemma_without_colon(name);
    assert(name.contains(name[0]));
    assert(name.contains(name.last()));
    lemma_untrimmed(name, '/');
    lemma_split_whole(name, '/');
    let one = seq![name];
    lemma_kept_all(one, |s: Seq<char>| s.len() > 0);
    assert(segments(name) == one);
    if let Ok(repo) = repo_of(name, scap_user, complete_user, region) {
        let whole = owner_and_name(repo.owner, name);
        assert("https://github.com/"@ + repo.owner + "/"@ + name =~= "https://github.com/"@ + whole);
        assert("ssh://git@github.com/"@ + repo.owner + "/"@ + name =~= "ssh://git@github.com/"@
            + whole);
    }
}

proof fn lemma_three_segments(a: Seq<char>, b: Seq<char>, c: Seq<char>)
    requires
        is_part(a),
        is_part(b),
        is_part(c),
        !has_suffix(c, ".git"@),
    ensures
        segments(owner_and_name(owner_and_name(a, b), c)) == seq![a, b, c],
{
    let ab = owner_and_name(a, b);
    let value = owner_and_name(ab, c);
    let all = seq![a, b, c];
    assert(without_git(trimmed(value, '/')) == value) by {
        assert(a.contains(a[0]));
        assert(ab[0] == a[0]);
        lemma_ends(ab, c);
        lemma_untrimmed(value, '/');
        law_only_git_is_taken_off(value);
    }
    assert(split_on(value, '/') == all) by {
        lemma_split_appended(ab, c, '/');
        lemma_split_appended(a, b, '/');
        lemma_split_whole(a, '/');
        assert(seq![a].push(b).push(c) =~= all);
    }
    lemma_kept_all(all, |s: Seq<char>| s.len() > 0);
}

proof fn lemma_no_segments()
    ensures
        segments("/"@).len() == 0,
{
    reveal_strlit("/");
    reveal_strlit(".git");
    let none = Seq::<char>::empty();
    let keep = |s: Seq<char>| s.len() > 0;
    assert("/"@ =~= seq!['/']);
    assert("/"@.drop_first() =~= none);
    assert(trimmed_start(none, '/') == none);
    assert(trimmed_start("/"@, '/') == none);
    assert(trimmed("/"@, '/') == none);
    lemma_split_whole(none, '/');
    let pieces = seq![none];
    assert(pieces.drop_last() =~= Seq::<Seq<char>>::empty());
    assert(kept(pieces.drop_last(), keep).len() == 0);
    assert(pieces.last() == none);
}

/// A bare argument of three parts is refused, and so is nothing but slashes.
pub proof fn law_bare_argument_has_two_parts(
    input: Seq<char>,
    a: Seq<char>,
    b: Seq<char>,
    c: Seq<char>,
    scap_user: Option<Seq<char>>,
    complete_user: bool,
)
    requires
        is_part(a),
        is_part(b),
        is_part(c),
        !has_suffix(c, ".git"@),
    ensures
        bare_repo(input, owner_and_name(owner_and_name(a, b), c), scap_user, complete_user) matches
            Err(UrlErrorView::Malformed { .. }),
        bare_repo(input, "/"@, scap_user, complete_user) == Err::<RepoView, UrlErrorView>(
            UrlErrorView::Empty,
        ),
{
    lemma_three_segments(a, b, c);
    lemma_no_segments();
}

/// Whether two answers are the same but for the argument that they go by.
pub open spec fn agree(
    a: Result<RepoView, UrlErrorView>,
    b: Result<RepoView, UrlErrorView>,
) -> bool {
    match (a, b) {
        (Ok(x), Ok(y)) => x.host == y.host && x.owner == y.owner && x.name == y.name && x.vcs_hint
            == y.vcs_hint && x.https_url == y.https_url && x.ssh_url == y.ssh_url,
        (Err(_), Err(_)) => true,
        _ => false,
    }
}

/// Whether a character is an ASCII letter, in either case, or a digit.
pub open spec fn is_letter_or_digit(c: char) -> bool {
    'a' <= c <= 'z' || 'A' <= c <= 'Z' || '0' <= c <= '9'
}

/// Whether a text is made like the name of a host: letters, digits, hyphens
/// and dots, with a dot in it that is not the first.
pub open spec fn is_host_name(h: Seq<char>) -> bool {
    &&& h.contains('.')
    &&& h[0] != '.'
    &&& forall|j: int|
        0 <= j < h.len() ==> is_letter_or_digit(#[trigger] h[j]) || h[j] == '-' || h[j] == '.'
}

/// Whether a text is made like a scheme: letters, digits, pluses, hyphens and
/// dots.
pub open spec fn is_scheme_name(s: Seq<char>) -> bool {
    forall|j: int|
        0 <= j < s.len() ==> is_letter_or_digit(#[trigger] s[j]) || s[j] == '+' || s[j] == '-'
            || s[j] == '.'
}

/// An argument has a scheme if and only if it begins with one, a colon and
/// two slashes.
pub proof fn law_scheme_stands_first(s: Seq<char>)
    ensures
        schemed(s) <==> exists|n: int|
            0 <= n && n + 3 <= s.len() && is_scheme_name(#[trigger] s.take(n)) && s[n] == ':' && s[n
                + 1] == '/' && s[n + 2] == '/',
{
    reveal_strlit("://");
    if schemed(s) {
        if !s.contains(':') {
            lemma_before_none(s, ':');
            assert(s.skip(s.len() as int).len() == 0);
        }
        let n = lemma_first(s, ':');
        lemma_before_first(s, ':', n);
        let tail = s.skip(n).take(3);
        assert(tail == "://"@);
        assert(tail[1] == s[n + 1] && tail[2] == s[n + 2]);
        assert forall|j: int| 0 <= j < s.take(n).len() implies is_letter_or_digit(
            #[trigger] s.take(n)[j],
        ) || s.take(n)[j] == '+' || s.take(n)[j] == '-' || s.take(n)[j] == '.' by {
            assert(is_scheme_char(before_first(s, ':')[j]));
        }
        assert(is_scheme_name(s.take(n)));
    }
    if exists|n: int|
        0 <= n && n + 3 <= s.len() && is_scheme_name(#[trigger] s.take(n)) && s[n] == ':' && s[n
            + 1] == '/' && s[n + 2] == '/' {
        let n = choose|n: int|
            0 <= n && n + 3 <= s.len() && is_scheme_name(#[trigger] s.take(n)) && s[n] == ':' && s[n
                + 1] == '/' && s[n + 2] == '/';
        let scheme = s.take(n);
        assert(s =~= scheme + "://"@ + s.skip(n + 3));
        assert forall|j: int| 0 <= j < scheme.len() implies is_scheme_char(#[trigger] scheme[j]) by {
            assert(is_letter_or_digit(scheme[j]) || scheme[j] == '+' || scheme[j] == '-'
                || scheme[j] == '.');
        }
        lemma_schemed(scheme, s.skip(n + 3));
    }
}

/// Nothing is read as `scp` would write it without a host, without a path, or
/// with a slash before its first colon.
pub proof fn law_what_scp_would_not_write(left: Seq<char>, right: Seq<char>)
    requires
        !left.contains(':'),
        left.len() == 0 || right.len() == 0 || left.contains('/') || left.last() == '@',
    ensures
        scp_parts(left.push(':') + right) is None,
{
    let s = left.push(':') + right;
    let at = left.len() as int;
    assert(s[at] == ':');
    assert forall|j: int| 0 <= j < at implies s[j] != ':' by {
        assert(left.contains(left[j]));
    }
    assert(first_at(s, ':', at));
    lemma_before_first(s, ':', at);
    assert(s.take(at) =~= left);
    assert(s.skip(at + 1) =~= right);
    if left.len() > 0 && left.last() == '@' {
        lemma_around_last(left, '@', at - 1);
        assert(left.skip(at).len() == 0);
    }
}

proof fn lemma_schemed(scheme: Seq<char>, rest: Seq<char>)
    requires
        forall|j: int| 0 <= j < scheme.len() ==> is_scheme_char(#[trigger] scheme[j]),
    ensures
        schemed(scheme + "://"@ + rest),
        normal_form(scheme + "://"@ + rest) == (
            scheme + "://"@ + rest,
            NormalizedKind::HasScheme,
        ),
{
    reveal_strlit("://");
    let s = scheme + "://"@ + rest;
    let at = scheme.len() as int;
    assert(s[at] == "://"@[0]);
    assert forall|j: int| 0 <= j < at implies s[j] != ':' by {
        assert(s[j] == scheme[j]);
    }
    assert(first_at(s, ':', at));
    lemma_before_first(s, ':', at);
    assert(s.take(at) =~= scheme);
    assert(s.skip(at).take(3) =~= "://"@);
}

/// An argument that has a scheme is taken apart as it is: what it names is
/// what its parts say, unless it climbs or is one of CodeCommit.
pub proof fn law_argument_with_a_scheme(
    scheme: Seq<char>,
    rest: Seq<char>,
    scap_user: Option<Seq<char>>,
    complete_user: bool,
    region: Option<Seq<char>>,
)
    requires
        is_scheme_name(scheme),
        !has_prefix(scheme, "codecommit"@),
        !traverses(scheme + "://"@ + rest),
    ensures
        repo_of(scheme + "://"@ + rest, scap_user, complete_user, region) == (match parsed_url(
            scheme + "://"@ + rest,
        ) {
            Ok(parts) => url_repo(scheme + "://"@ + rest, parts, path_text(parts.path)),
            Err(reason) => Err::<RepoView, UrlErrorView>(
                UrlErrorView::Malformed { input: scheme + "://"@ + rest, reason },
            ),
        }),
{
    let s = scheme + "://"@ + rest;
    reveal_strlit("://");
    reveal_strlit("codecommit");
    reveal_strlit("codecommit:");
    assert forall|j: int| 0 <= j < scheme.len() implies is_scheme_char(#[trigger] scheme[j]) by {
        assert(is_letter_or_digit(scheme[j]) || scheme[j] == '+' || scheme[j] == '-' || scheme[j]
            == '.');
    }
    lemma_schemed(scheme, rest);
    if is_codecommit(s) {
        let c = choose|c: CodecommitView| spells(s, c);
        assert(forall|j: int| 0 <= j < 11 ==> s[j] == "codecommit:"@[j]);
        assert(s[scheme.len() as int] == "://"@[0]);
        if scheme.len() >= 10 {
            assert(scheme.take(10) =~= "codecommit"@) by {
                assert forall|j: int| 0 <= j < 10 implies scheme[j] == "codecommit"@[j] by {
                    assert(s[j] == scheme[j]);
                }
            }
        } else {
            assert(s[scheme.len() as int] == "codecommit:"@[scheme.len() as int]);
        }
    }
}

/// An argument that begins with a host means the same as with `https://`
/// before it.
pub proof fn law_host_alone_is_https(
    host: Seq<char>,
    rest: Seq<char>,
    scap_user: Option<Seq<char>>,
    complete_user: bool,
    region: Option<Seq<char>>,
)
    requires
        is_host_name(host),
    ensures
        agree(
            repo_of(host.push('/') + rest, scap_user, complete_user, region),
            repo_of("https://"@ + (host.push('/') + rest), scap_user, complete_user, region),
        ),
{
    let s = host.push('/') + rest;
    let url = "https://"@ + s;
    let at = host.len() as int;
    reveal_strlit("https://");
    reveal_strlit("https");
    reveal_strlit("://");
    reveal_strlit("codecommit");
    reveal_strlit("codecommit:");
    assert(url =~= "https"@ + "://"@ + s);
    assert forall|j: int| 0 <= j < host.len() implies is_alnum(#[trigger] s[j]) || s[j] == '-'
        || s[j] == '.' by {
        assert(s[j] == host[j]);
    }
    assert(s[at] == '/');
    assert(first_at(s, '/', at));
    lemma_before_first(s, '/', at);
    assert(s.take(at) =~= host);
    lemma_before_none(host, ':');
    if is_codecommit(s) {
        let c = choose|c: CodecommitView| spells(s, c);
        assert(forall|j: int| 0 <= j < 11 ==> s[j] == "codecommit:"@[j]);
        if at <= 10 {
            assert(s[at] == "codecommit:"@[at]);
        } else {
            assert(s[10] == "codecommit:"@[10]);
        }
    }
    if s.contains(':') {
        let i = lemma_first(s, ':');
        lemma_before_first(s, ':', i);
        let left = s.take(i);
        assert(i > at);
        assert(left[at] == '/');
        assert(left.contains('/'));
        assert(!is_scheme_char(left[at]));
        assert(!schemed(s));
        assert(scp_parts(s) is None);
    } else {
        lemma_without_colon(s);
    }
    assert(s.contains('/'));
    assert(normal_form(s) == (url, NormalizedKind::HostBare));
    law_traversal_is_two_dots(s);
    law_traversal_is_two_dots(url);
    if traverses(s) {
        let i = choose|i: int| #[trigger] climbs_at(s, i);
        assert(climbs_at(url, i + 8));
    }
    if traverses(url) {
        let i = choose|i: int| #[trigger] climbs_at(url, i);
        assert(i >= 8);
        assert(climbs_at(s, i - 8));
    }
    if !traverses(url) {
        assert("https"@[0] != "codecommit"@[0]);
        assert(!has_prefix("https"@, "codecommit"@));
        assert(is_scheme_name("https"@));
        law_argument_with_a_scheme("https"@, s, scap_user, complete_user, region);
    }
}

proof fn lemma_first<T>(s: Seq<T>, b: T) -> (i: int)
    requires
        s.contains(b),
    ensures
        first_at(s, b, i),
    decreases s.len(),
{
    let k = choose|k: int| 0 <= k < s.len() && s[k] == b;
    let shorter = s.take(k);
    if shorter.contains(b) {
        let i = lemma_first(shorter, b);
        assert forall|j: int| 0 <= j < i implies s[j] != b by {
            assert(shorter[j] != b);
        }
        i
    } else {
        assert forall|j: int| 0 <= j < k implies s[j] != b by {
            assert(shorter[j] == s[j]);
        }
        k
    }
}

/// Slashes before a text that begins with none are all taken off.
proof fn lemma_leading_slashes(lead: nat, path: Seq<char>)
    requires
        path.len() > 0,
        path[0] != '/',
    ensures
        trimmed_start(Seq::new(lead, |i: int| '/') + path, '/') == path,
    decreases lead,
{
    let given = Seq::new(lead, |i: int| '/') + path;
    if lead == 0 {
        assert(given =~= path);
    } else {
        let fewer = Seq::new((lead - 1) as nat, |i: int| '/') + path;
        assert(given.drop_first() =~= fewer);
        lemma_leading_slashes((lead - 1) as nat, path);
    }
}

/// `[user@]host:path`.
pub open spec fn scp_form(user: Option<Seq<char>>, host: Seq<char>, path: Seq<char>) -> Seq<char> {
    match user {
        Some(u) => u.push('@') + host + seq![':'] + path,
        None => host + seq![':'] + path,
    }
}

/// `ssh://[user@]host/path`.
pub open spec fn ssh_form(user: Option<Seq<char>>, host: Seq<char>, path: Seq<char>) -> Seq<char> {
    match user {
        Some(u) => "ssh://"@ + (u.push('@') + host + seq!['/'] + path),
        None => "ssh://"@ + (host + seq!['/'] + path),
    }
}

/// What is written like `scp` writes it is read so: `[user@]host:path` as
/// `ssh://[user@]host/path`, whatever slashes the path begins with.
proof fn lemma_scp_form(
    user: Option<Seq<char>>,
    host: Seq<char>,
    lead: nat,
    path: Seq<char>,
    given: Seq<char>,
)
    requires
        user matches Some(u) ==> !u.contains('/') && !u.contains(':'),
        is_part(host) && !host.contains(':') && !host.contains('@'),
        path.len() > 0 && path[0] != '/',
        given == Seq::new(lead, |i: int| '/') + path,
        user is None ==> lead < 2 && path[0] != ':' && host != "codecommit"@,
    ensures
        normal_form(scp_form(user, host, given)) == (
            ssh_form(user, host, path),
            NormalizedKind::Scp,
        ),
        !is_codecommit(scp_form(user, host, given)),
{
    let left = match user {
        Some(u) => u.push('@') + host,
        None => host,
    };
    let s = left + seq![':'] + given;
    let url = ssh_form(user, host, path);
    assert(s =~= scp_form(user, host, given));
    reveal_strlit("://");
    reveal_strlit("@");
    reveal_strlit("/");
    reveal_strlit("codecommit");
    reveal_strlit("codecommit:");
    let at = left.len() as int;
    let n = match user {
        Some(u) => u.len() as int,
        None => -1,
    };
    assert forall|j: int| 0 <= j < at implies left[j] != ':' && left[j] != '/' by {
        if j < n {
            assert((user->0).contains(left[j]));
        } else if j > n {
            assert(left[j] == host[j - n - 1]);
            assert(host.contains(host[j - n - 1]));
        }
    }
    assert(s[at] == ':');
    assert forall|j: int| 0 <= j < at implies s[j] != ':' by {
        assert(s[j] == left[j]);
    }
    assert(first_at(s, ':', at));
    lemma_before_first(s, ':', at);
    assert(s.take(at) =~= left);
    assert(s.skip(at + 1) =~= given);
    assert(!left.contains('/'));
    assert forall|j: int| n < j < left.len() implies left[j] != '@' by {
        assert(left[j] == host[j - n - 1]);
        assert(host.contains(host[j - n - 1]));
    }
    lemma_around_last(left, '@', n);
    assert(s.contains(':'));
    if let Some(u) = user {
        assert(left[n] == '@');
        assert(left.contains('@'));
        assert(left.take(n) =~= u);
        assert(left.skip(n + 1) =~= host);
        assert(!is_scheme_char(left[n]));
    } else {
        assert(left.skip(0) =~= left);
        assert(!left.contains('@'));
        let tail = s.skip(at);
        if has_prefix(tail, "://"@) {
            assert(tail.take(3)[1] == "://"@[1]);
            assert(tail.take(3)[2] == "://"@[2]);
            assert(given[0] == tail[1]);
            assert(tail[2] == given[1]);
            assert(given[lead as int] == path[0]);
        }
    }
    assert(!schemed(s));
    assert(scp_parts(s) == Some((user, host, given)));
    lemma_leading_slashes(lead, path);
    if let Some(u) = user {
        assert("ssh://"@ + (u + "@"@) + host + "/"@ + path =~= url);
    } else {
        assert("ssh://"@ + Seq::<char>::empty() + host + "/"@ + path =~= url);
    }
    if is_codecommit(s) {
        let c = choose|c: CodecommitView| spells(s, c);
        assert(forall|j: int| 0 <= j < 11 ==> s[j] == "codecommit:"@[j]);
        assert(s[10] == "codecommit:"@[10]);
        assert(at <= 10);
        assert(s[at] == "codecommit:"@[at]);
        assert(at == 10);
        if user is Some {
            assert(s[n] == '@');
            assert("codecommit:"@[n] != '@');
        } else {
            assert forall|j: int| 0 <= j < 10 implies host[j] == "codecommit"@[j] by {
                assert(s[j] == host[j]);
            }
            assert(host =~= "codecommit"@);
        }
    }
}

/// `[user@]host:path` means the same as `ssh://[user@]host/path`, whatever
/// slashes the path begins with.
pub proof fn law_scp_is_ssh(
    user: Option<Seq<char>>,
    host: Seq<char>,
    lead: nat,
    path: Seq<char>,
    scap_user: Option<Seq<char>>,
    complete_user: bool,
    region: Option<Seq<char>>,
)
    requires
        user matches Some(u) ==> !u.contains('/') && !u.contains(':'),
        is_part(host) && !host.contains(':') && !host.contains('@'),
        path.len() > 0 && path[0] != '/',
        user is None ==> lead < 2 && path[0] != ':' && host != "codecommit"@,
        !traverses(scp_form(user, host, Seq::new(lead, |i: int| '/') + path)),
        !traverses(ssh_form(user, host, path)),
    ensures
        agree(
            repo_of(
                scp_form(user, host, Seq::new(lead, |i: int| '/') + path),
                scap_user,
                complete_user,
                region,
            ),
            repo_of(ssh_form(user, host, path), scap_user, complete_user, region),
        ),
{
    let given = Seq::new(lead, |i: int| '/') + path;
    let s = scp_form(user, host, given);
    let url = ssh_form(user, host, path);
    lemma_scp_form(user, host, lead, path, given);
    let rest = match user {
        Some(u) => u.push('@') + host + seq!['/'] + path,
        None => host + seq!['/'] + path,
    };
    reveal_strlit("ssh://");
    reveal_strlit("ssh");
    reveal_strlit("://");
    reveal_strlit("codecommit");
    assert(url =~= "ssh"@ + "://"@ + rest);
    assert(!has_prefix("ssh"@, "codecommit"@));
    assert(is_scheme_name("ssh"@));
    law_argument_with_a_scheme("ssh"@, rest, scap_user, complete_user, region);
    assert(s.len() > 0);
    assert(codecommit_of(s) is None);
}

/// Whether a text is made like a region: a small letter, and behind it at
/// least one more, or a digit or a hyphen.
pub open spec fn is_region_name(r: Seq<char>) -> bool {
    &&& r.len() >= 2
    &&& 'a' <= r[0] <= 'z'
    &&& forall|j: int|
        1 <= j < r.len() ==> 'a' <= #[trigger] r[j] <= 'z' || '0' <= r[j] <= '9' || r[j] == '-'
}

/// Whether a text is made like the name of a CodeCommit repository: letters,
/// digits, underscores, dots and hyphens.
pub open spec fn is_repository_name(n: Seq<char>) -> bool {
    n.len() > 0 && forall|j: int|
        0 <= j < n.len() ==> is_letter_or_digit(#[trigger] n[j]) || n[j] == '_' || n[j] == '.'
            || n[j] == '-'
}

/// `[user@]` as it is written before a name.
pub open spec fn before_name(user: Option<Seq<char>>) -> Seq<char> {
    match user {
        Some(u) => u.push('@'),
        None => Seq::empty(),
    }
}

/// `codecommit:[:region:]//[user@]name`.
pub open spec fn codecommit_form(
    region: Option<Seq<char>>,
    user: Option<Seq<char>>,
    name: Seq<char>,
) -> Seq<char> {
    match region {
        Some(r) => "codecommit::"@ + r + "://"@ + before_name(user) + name,
        None => "codecommit://"@ + before_name(user) + name,
    }
}

proof fn lemma_codecommit_form(
    given: Option<Seq<char>>,
    user: Option<Seq<char>>,
    name: Seq<char>,
)
    requires
        is_repository_name(name),
        given matches Some(r) ==> is_region_name(r),
        user matches Some(u) ==> u.len() > 0 && !u.contains(']'),
    ensures
        codecommit_of(codecommit_form(given, user, name)) == Some(
            CodecommitView { region: given, user, name },
        ),
{
    let input = codecommit_form(given, user, name);
    let c = CodecommitView { region: given, user, name };
    reveal_strlit("codecommit::");
    reveal_strlit("codecommit:");
    reveal_strlit("codecommit://");
    reveal_strlit("://");
    reveal_strlit("//");
    reveal_strlit(":");
    reveal_strlit("@");
    assert(is_codecommit_name(name)) by {
        assert forall|j: int| 0 <= j < name.len() implies super::is_name_char(#[trigger] name[j]) by {
            assert(is_letter_or_digit(name[j]) || name[j] == '_' || name[j] == '.' || name[j]
                == '-');
        }
    }
    if let Some(r) = given {
        assert forall|j: int| 1 <= j < r.len() implies super::is_lower(#[trigger] r[j])
            || super::is_digit_char(r[j]) || r[j] == '-' by {}
        assert(is_region(r));
    }
    assert(c.valid());
    if let Some(u) = user {
        assert(u + "@"@ =~= u.push('@'));
        if let Some(r) = given {
            assert(c.spelled() =~= input);
        } else {
            assert(c.spelled() =~= input);
        }
    } else {
        if let Some(r) = given {
            assert(c.spelled() =~= input);
        } else {
            assert(c.spelled() =~= input);
        }
    }
    assert(spells(input, c));
    law_codecommit_is_unambiguous(input, c, codecommit_of(input)->0);
}

/// A CodeCommit argument names the repository that stands behind its two
/// slashes, without an owner, at the region that it gives; where it gives
/// none, at the one that was found elsewhere, and is refused without one. The
/// user that it gives stays in the URL.
pub proof fn law_codecommit_argument(
    given: Option<Seq<char>>,
    user: Option<Seq<char>>,
    name: Seq<char>,
    scap_user: Option<Seq<char>>,
    complete_user: bool,
    region: Option<Seq<char>>,
)
    requires
        is_repository_name(name),
        given matches Some(r) ==> is_region_name(r),
        user matches Some(u) ==> u.len() > 0 && !u.contains(']'),
        !traverses(codecommit_form(given, user, name)),
    ensures
        ({
            let input = codecommit_form(given, user, name);
            match repo_of(input, scap_user, complete_user, region) {
                Ok(repo) => {
                    &&& repo.name == name
                    &&& repo.owner.len() == 0
                    &&& given is Some ==> given == Some(repo.host)
                    &&& given is None ==> region == Some(repo.host)
                    &&& repo.vcs_hint == Some("git"@)
                    &&& repo.https_url == "codecommit://"@ + before_name(user) + repo.host + "/"@
                        + name
                    &&& repo.ssh_url == repo.https_url
                    &&& repo.original_input == input
                },
                Err(e) => e == UrlErrorView::MissingCodecommitRegion && given is None
                    && region is None,
            }
        }),
{
    let input = codecommit_form(given, user, name);
    reveal_strlit("codecommit::");
    reveal_strlit("codecommit://");
    reveal_strlit("@");
    lemma_codecommit_form(given, user, name);
    assert(input.len() > 0);
    if let Some(u) = user {
        assert(u + "@"@ =~= u.push('@'));
    }
}

/// What a CodeCommit argument is made of: a region and a name of the letters
/// that these may have, and a user that is not empty.
pub proof fn law_codecommit_parts(s: Seq<char>, c: CodecommitView)
    requires
        codecommit_of(s) == Some(c),
    ensures
        c.region matches Some(r) ==> is_region_name(r),
        is_repository_name(c.name),
        c.user matches Some(u) ==> u.len() > 0,
        s == codecommit_form(c.region, c.user, c.name),
{
    assert(spells(s, c));
    assert forall|j: int| 0 <= j < c.name.len() implies is_letter_or_digit(#[trigger] c.name[j])
        || c.name[j] == '_' || c.name[j] == '.' || c.name[j] == '-' by {
        assert(super::is_name_char(c.name[j]));
    }
    reveal_strlit("codecommit::");
    reveal_strlit("codecommit:");
    reveal_strlit("codecommit://");
    reveal_strlit("://");
    reveal_strlit("//");
    reveal_strlit(":");
    reveal_strlit("@");
    if let Some(u) = c.user {
        assert(u + "@"@ =~= u.push('@'));
    }
    if let Some(r) = c.region {
        assert forall|j: int| 1 <= j < r.len() implies 'a' <= #[trigger] r[j] <= 'z' || '0' <= r[j]
            <= '9' || r[j] == '-' by {
            assert(super::is_lower(r[j]) || super::is_digit_char(r[j]) || r[j] == '-');
        }
        assert(s =~= codecommit_form(c.region, c.user, c.name));
    } else {
        assert(s =~= codecommit_form(c.region, c.user, c.name));
    }
}

/// A setting that is empty counts as none; the first that counts decides, and
/// those behind it have no say.
pub proof fn law_first_region_decides(
    a: Option<Seq<char>>,
    b: Option<Seq<char>>,
    c: Option<Seq<char>>,
)
    ensures
        a matches Some(r) && r.len() > 0 ==> region_from(a, b, c) == a,
        !(a matches Some(r) && r.len() > 0) ==> region_from(a, b, c) == region_from(b, None, c),
        region_from(None, None, c) == c,
{
}

/// Which version control system is suggested: by a scheme of its own name,
/// whatever its case, or by the host alone, whichever of the known schemes
/// the URL has.
pub proof fn law_vcs_hint(scheme: SchemeView, name: Seq<char>, host: Seq<char>, tail: Seq<char>)
    ensures
        !(scheme is Ext) ==> vcs_of(scheme, host) == vcs_of(SchemeView::Https, host),
        vcs_of(SchemeView::Https, host) matches Some(v) ==> (v == "svn"@ && (host
            == "svn.code.sf.net"@ || host == "subversion.assembla.com"@)) || (v == "hg"@
            && occurs_in(host, "hg."@)),
        occurs_in(host, "hg."@) || host == "svn.code.sf.net"@ || host
            == "subversion.assembla.com"@ ==> vcs_of(SchemeView::Https, host) is Some,
        vcs_of(SchemeView::Ext("svn"@ + tail), host) == Some("svn"@),
        vcs_of(SchemeView::Ext("hg"@), host) == Some("hg"@),
        vcs_of(SchemeView::Ext("hg+"@ + tail), host) == Some("hg"@),
        vcs_of(SchemeView::Ext(name), host) == vcs_of(SchemeView::Ext(ascii_lower(name)), host),
        vcs_of(SchemeView::Ext(name), host) matches Some(v) && (v == ascii_lower(name) || v == "svn"@
            || v == "hg"@),
{
    reveal_strlit("svn");
    reveal_strlit("hg");
    reveal_strlit("hg+");
    let a = ascii_lower("svn"@ + tail);
    assert(a.take(3) =~= "svn"@);
    assert(ascii_lower("hg"@) =~= "hg"@);
    let b = ascii_lower("hg+"@ + tail);
    assert(b.take(3) =~= "hg+"@);
    assert(b.take(3)[0] == 'h');
    assert(!has_prefix(b, "svn"@)) by {
        if has_prefix(b, "svn"@) {
            assert(b.take(3)[0] == "svn"@[0]);
        }
    }
    assert(!has_prefix("hg"@, "svn"@));
    assert(ascii_lower(ascii_lower(name)) =~= ascii_lower(name));
}

/// `owner/name` and `owner/name.git` name that owner and that name, whatever
/// dots the name holds.
pub proof fn law_names_are_kept(
    owner: Seq<char>,
    name: Seq<char>,
    input: &str,
    scap_user: Option<&str>,
    complete_user: bool,
    region: Option<&str>,
    r: Result<Repo, UrlError>,
)
    requires
        call_ensures(from_input, (input, scap_user, complete_user, region), r),
        is_plain_part(owner),
        is_plain_part(name),
        !is_host_name(owner),
        !has_suffix(name, ".git"@) && input@ == owner_and_name(owner, name) || input@
            == owner_and_name(owner, name + ".git"@),
    ensures
        r matches Ok(repo) && repo.owner@ == owner && repo.name@ == name && repo.host@
            == "github.com"@,
{
    law_owner_and_name_are_taken_as_given(
        owner,
        name,
        input@,
        opt_text(scap_user),
        complete_user,
        opt_text(region),
    );
}

} // verus!
