//! What a repository argument names.

pub mod laws;

use vstd::prelude::*;
use vstd::slice::slice_subrange;

use crate::bytes::{
    after_last, before_first, before_last, first_at, has_prefix, has_suffix, kept, last_at,
    lemma_around_last, lemma_before_first, lemma_before_none, occurs_in, split_on, trimmed_start,
};
use crate::text::{
    ascii_lower, ascii_lowercase, char_views, chars, chars_end_with, chars_eq, chars_start_with,
    debug_text, decimal, decimal_text, find_char, is_alnum, is_digit_char, is_empty, is_lower,
    lossy_text, opt_text, path_str, path_text, quoted, rfind_char, shown_path, split_chars, strip,
    stripped, text, text_eq, trim, trim_start, trimmed,
};

verus! {

/// A repository: where it comes from and what its working copy is called.
#[derive(Debug)]
pub struct Repo {
    pub host: String,
    pub owner: String,
    pub name: String,
    pub vcs_hint: Option<String>,
    pub https_url: String,
    pub ssh_url: String,
    pub original_input: String,
}

/// What a [`Repo`] holds.
#[verifier::ext_equal]
pub struct RepoView {
    pub host: Seq<char>,
    pub owner: Seq<char>,
    pub name: Seq<char>,
    pub vcs_hint: Option<Seq<char>>,
    pub https_url: Seq<char>,
    pub ssh_url: Seq<char>,
    pub original_input: Seq<char>,
}

/// What an optional string holds.
pub open spec fn opt_string(s: Option<String>) -> Option<Seq<char>> {
    match s {
        Some(t) => Some(t@),
        None => None,
    }
}

impl View for Repo {
    type V = RepoView;

    open spec fn view(&self) -> RepoView {
        RepoView {
            host: self.host@,
            owner: self.owner@,
            name: self.name@,
            vcs_hint: opt_string(self.vcs_hint),
            https_url: self.https_url@,
            ssh_url: self.ssh_url@,
            original_input: self.original_input@,
        }
    }
}

/// Why an argument names no repository.
#[derive(Debug)]
pub enum UrlError {
    Empty,
    PathTraversal(String),
    Malformed { input: String, reason: String },
    UnknownUser { input: String },
    MissingHost(String),
    MissingPath(String),
    MissingCodecommitRegion,
}

/// What a [`UrlError`] holds.
#[verifier::ext_equal]
pub enum UrlErrorView {
    Empty,
    PathTraversal(Seq<char>),
    Malformed { input: Seq<char>, reason: Seq<char> },
    UnknownUser { input: Seq<char> },
    MissingHost(Seq<char>),
    MissingPath(Seq<char>),
    MissingCodecommitRegion,
}

impl View for UrlError {
    type V = UrlErrorView;

    open spec fn view(&self) -> UrlErrorView {
        match self {
            UrlError::Empty => UrlErrorView::Empty,
            UrlError::PathTraversal(s) => UrlErrorView::PathTraversal(s@),
            UrlError::Malformed { input, reason } => UrlErrorView::Malformed {
                input: input@,
                reason: reason@,
            },
            UrlError::UnknownUser { input } => UrlErrorView::UnknownUser { input: input@ },
            UrlError::MissingHost(s) => UrlErrorView::MissingHost(s@),
            UrlError::MissingPath(s) => UrlErrorView::MissingPath(s@),
            UrlError::MissingCodecommitRegion => UrlErrorView::MissingCodecommitRegion,
        }
    }
}

impl UrlError {
    /// What the error says.
    pub open spec fn says(&self) -> Seq<char> {
        match self {
            UrlError::Empty => "empty input"@,
            UrlError::PathTraversal(s) => "path traversal in input: "@ + quoted(s@),
            UrlError::Malformed { input, reason } => "malformed URL "@ + quoted(input@) + ": "@
                + reason@,
            UrlError::UnknownUser { input } => "could not infer owner for "@ + quoted(input@)
                + "; set ghq.user in your gitconfig or pass --me"@,
            UrlError::MissingHost(s) => "URL has no host: "@ + quoted(s@),
            UrlError::MissingPath(s) => "URL has no repository path: "@ + quoted(s@),
            UrlError::MissingCodecommitRegion =>
                "You must specify a region. You can also configure your region by running \"aws configure\"."@,
        }
    }

    /// What the error says.
    pub fn message(&self) -> (r: String)
        ensures
            r@ == self.says(),
    {
        match self {
            UrlError::Empty => String::from_str("empty input"),
            UrlError::PathTraversal(s) => String::from_str("path traversal in input: ").concat(
                debug_text(s.as_str()).as_str(),
            ),
            UrlError::Malformed { input, reason } => String::from_str("malformed URL ").concat(
                debug_text(input.as_str()).as_str(),
            ).concat(": ").concat(reason.as_str()),
            UrlError::UnknownUser { input } => String::from_str("could not infer owner for ").concat(
                debug_text(input.as_str()).as_str(),
            ).concat("; set ghq.user in your gitconfig or pass --me"),
            UrlError::MissingHost(s) => String::from_str("URL has no host: ").concat(
                debug_text(s.as_str()).as_str(),
            ),
            UrlError::MissingPath(s) => String::from_str("URL has no repository path: ").concat(
                debug_text(s.as_str()).as_str(),
            ),
            UrlError::MissingCodecommitRegion => String::from_str(
                "You must specify a region. You can also configure your region by running \"aws configure\".",
            ),
        }
    }
}

/// What a result holds.
pub open spec fn result_view(r: Result<Repo, UrlError>) -> Result<RepoView, UrlErrorView> {
    match r {
        Ok(repo) => Ok(repo@),
        Err(e) => Err(e@),
    }
}

/// A URL's scheme, as far as it matters here.
#[derive(Debug)]
pub enum UrlScheme {
    File,
    Git,
    Ssh,
    Http,
    Https,
    /// Any other, by its name.
    Ext(String),
}

/// What a [`UrlScheme`] says.
pub enum SchemeView {
    File,
    Git,
    Ssh,
    Http,
    Https,
    Ext(Seq<char>),
}

/// The parts of a URL.
#[derive(Debug)]
pub struct UrlParts {
    pub scheme: UrlScheme,
    pub user: Option<String>,
    pub host: Option<String>,
    pub path: Vec<u8>,
}

/// What [`UrlParts`] hold.
#[verifier::ext_equal]
pub struct PartsView {
    pub scheme: SchemeView,
    pub user: Option<Seq<char>>,
    pub host: Option<Seq<char>>,
    pub path: Seq<u8>,
}

impl View for UrlParts {
    type V = PartsView;

    open spec fn view(&self) -> PartsView {
        PartsView {
            scheme: match self.scheme {
                UrlScheme::File => SchemeView::File,
                UrlScheme::Git => SchemeView::Git,
                UrlScheme::Ssh => SchemeView::Ssh,
                UrlScheme::Http => SchemeView::Http,
                UrlScheme::Https => SchemeView::Https,
                UrlScheme::Ext(name) => SchemeView::Ext(name@),
            },
            user: opt_string(self.user),
            host: opt_string(self.host),
            path: self.path@,
        }
    }
}

/// What a parse holds.
pub open spec fn parts_view(r: Result<UrlParts, String>) -> Result<PartsView, Seq<char>> {
    match r {
        Ok(parts) => Ok(parts@),
        Err(e) => Err(e@),
    }
}

/// The parts of a URL, or why it has none.
pub uninterp spec fn parsed_url(url: Seq<char>) -> Result<PartsView, Seq<char>>;

/// Takes a URL apart.
///
/// Calls `gix_url::parse`, and takes scheme, user, host and path as that
/// gives them; a failure is its error's text. The result is a function of the
/// URL.
#[verifier::external_body]
fn parse_url(url: &str) -> (r: Result<UrlParts, String>)
    ensures
        parts_view(r) == parsed_url(url@),
{
    let u = gix_url::parse(bstr::ByteSlice::as_bstr(url.as_bytes())).map_err(|e| e.to_string())?;
    let scheme = match &u.scheme {
        gix_url::Scheme::File => UrlScheme::File,
        gix_url::Scheme::Git => UrlScheme::Git,
        gix_url::Scheme::Ssh => UrlScheme::Ssh,
        gix_url::Scheme::Http => UrlScheme::Http,
        gix_url::Scheme::Https => UrlScheme::Https,
        gix_url::Scheme::Ext(name) => UrlScheme::Ext(name.clone()),
    };
    let user = u.user().map(str::to_owned);
    let host = u.host().map(str::to_owned);
    Ok(UrlParts { scheme, user, host, path: u.path.to_vec() })
}

/// `s` without the suffix `.git`, where it has it.
pub open spec fn without_git(s: Seq<char>) -> Seq<char> {
    if has_suffix(s, ".git"@) {
        s.take(s.len() - ".git"@.len())
    } else {
        s
    }
}

/// A URL's path as a repository path: no slash at either end, no `.git`.
pub open spec fn repo_path(p: Seq<char>) -> Seq<char> {
    trimmed(without_git(trimmed(p, '/')), '/')
}

fn strip_git(s: &[char]) -> (r: &[char])
    ensures
        r@ == without_git(s@),
{
    let suffix = chars(".git");
    if chars_end_with(s, suffix.as_slice()) {
        assert(s@.subrange(0, s@.len() - suffix@.len()) =~= s@.take(s@.len() - ".git"@.len()));
        slice_subrange(s, 0, s.len() - suffix.len())
    } else {
        s
    }
}

/// A URL's path as a repository path.
pub fn trim_repo_path(p: &str) -> (r: String)
    ensures
        r@ == repo_path(p@),
{
    let cs = chars(p);
    text(trim(strip_git(trim(cs.as_slice(), '/')), '/'))
}

/// The version control system that a scheme and a host suggest.
pub open spec fn vcs_of(scheme: SchemeView, host: Seq<char>) -> Option<Seq<char>> {
    match scheme {
        SchemeView::Ext(name) => {
            let n = ascii_lower(name);
            if has_prefix(n, "svn"@) {
                Some("svn"@)
            } else if n == "hg"@ || has_prefix(n, "hg+"@) {
                Some("hg"@)
            } else {
                Some(n)
            }
        },
        _ => if host == "svn.code.sf.net"@ || host == "subversion.assembla.com"@ {
            Some("svn"@)
        } else if occurs_in(host, "hg."@) {
            Some("hg"@)
        } else {
            None
        },
    }
}

/// Whether `sub` occurs in `s`.
fn has_text(s: &[char], sub: &[char]) -> (r: bool)
    ensures
        r == occurs_in(s@, sub@),
{
    let mut at: usize = 0;
    while at <= s.len() && sub.len() <= s.len() - at
        invariant
            at <= s@.len() + 1,
            forall|i: int| 0 <= i < at ==> !crate::bytes::occurs_at(s@, sub@, i),
        decreases s@.len() + 1 - at,
    {
        if chars_eq(slice_subrange(s, at, at + sub.len()), sub) {
            assert(crate::bytes::occurs_at(s@, sub@, at as int));
            return true;
        }
        if at == s.len() {
            assert forall|i: int| !crate::bytes::occurs_at(s@, sub@, i) by {}
            return false;
        }
        at += 1;
    }
    false
}

/// The version control system that a scheme and a host suggest.
pub fn detect_vcs(scheme: &UrlScheme, host: &str) -> (r: Option<String>)
    ensures
        opt_string(r) == vcs_of(
            match *scheme {
                UrlScheme::File => SchemeView::File,
                UrlScheme::Git => SchemeView::Git,
                UrlScheme::Ssh => SchemeView::Ssh,
                UrlScheme::Http => SchemeView::Http,
                UrlScheme::Https => SchemeView::Https,
                UrlScheme::Ext(name) => SchemeView::Ext(name@),
            },
            host@,
        ),
{
    match scheme {
        UrlScheme::Ext(name) => {
            let n = ascii_lowercase(name.as_str());
            let cs = chars(n.as_str());
            if chars_start_with(cs.as_slice(), chars("svn").as_slice()) {
                Some(String::from_str("svn"))
            } else if text_eq(n.as_str(), "hg") || chars_start_with(
                cs.as_slice(),
                chars("hg+").as_slice(),
            ) {
                Some(String::from_str("hg"))
            } else {
                Some(n)
            }
        },
        _ => {
            if text_eq(host, "svn.code.sf.net") || text_eq(host, "subversion.assembla.com") {
                Some(String::from_str("svn"))
            } else if has_text(chars(host).as_slice(), chars("hg.").as_slice()) {
                Some(String::from_str("hg"))
            } else {
                None
            }
        },
    }
}

/// A text with every backslash turned into a slash.
pub open spec fn slashed(s: Seq<char>) -> Seq<char> {
    Seq::new(s.len(), |i: int| if s[i] == '\\' { '/' } else { s[i] })
}

/// Whether some part between slashes or backslashes is `..`.
pub open spec fn traverses(s: Seq<char>) -> bool {
    split_on(slashed(s), '/').contains(".."@)
}

/// Whether some part between slashes or backslashes is `..`.
pub fn has_traversal(input: &str) -> (r: bool)
    ensures
        r == traverses(input@),
{
    let mut cs = chars(input);
    let mut i: usize = 0;
    while i < cs.len()
        invariant
            i <= cs@.len(),
            cs@.len() == input@.len(),
            forall|j: int| 0 <= j < i ==> #[trigger] cs@[j] == slashed(input@)[j],
            forall|j: int| i <= j < cs@.len() ==> #[trigger] cs@[j] == input@[j],
        decreases cs@.len() - i,
    {
        if cs[i] == '\\' {
            cs[i] = '/';
        }
        i += 1;
    }
    assert(cs@ =~= slashed(input@));
    let parts = split_chars(cs.as_slice(), '/');
    let dots = chars("..");
    let mut k: usize = 0;
    while k < parts.len()
        invariant
            k <= parts@.len(),
            dots@ == ".."@,
            char_views(parts@) == split_on(slashed(input@), '/'),
            forall|j: int| 0 <= j < k ==> #[trigger] split_on(slashed(input@), '/')[j] != ".."@,
        decreases parts@.len() - k,
    {
        assert(char_views(parts@)[k as int] == parts@[k as int]@);
        if chars_eq(parts[k].as_slice(), dots.as_slice()) {
            return true;
        }
        k += 1;
    }
    false
}

/// How an argument is written.
#[derive(Debug, Clone, Copy, PartialEq, Eq, Structural)]
pub enum NormalizedKind {
    HasScheme,
    Scp,
    HostBare,
    Bare,
}

/// An argument in the form that is taken apart.
#[derive(Debug)]
pub struct Normalized {
    pub value: String,
    pub kind: NormalizedKind,
}

/// Whether a character may stand in a scheme.
pub open spec fn is_scheme_char(c: char) -> bool {
    is_alnum(c) || c == '+' || c == '-' || c == '.'
}

/// Whether a text begins with a scheme and `://`.
pub open spec fn schemed(s: Seq<char>) -> bool {
    let scheme = before_first(s, ':');
    &&& has_prefix(s.skip(scheme.len() as int), "://"@)
    &&& forall|j: int| 0 <= j < scheme.len() ==> is_scheme_char(#[trigger] scheme[j])
}

/// Whether a text begins with a scheme and `://`.
pub fn has_scheme(s: &str) -> (r: bool)
    ensures
        r == schemed(s@),
{
    let cs = chars(s);
    proof {
        reveal_strlit("://");
    }
    match find_char(cs.as_slice(), ':') {
        None => {
            proof {
                lemma_before_none(s@, ':');
                assert(s@.skip(s@.len() as int).len() == 0);
            }
            false
        },
        Some(at) => {
            proof {
                lemma_before_first(s@, ':', at as int);
            }
            let mut i: usize = 0;
            while i < at
                invariant
                    i <= at < cs@.len(),
                    cs@ == s@,
                    before_first(s@, ':') == s@.take(at as int),
                    forall|j: int| 0 <= j < i ==> is_scheme_char(#[trigger] before_first(s@, ':')[j]),
                decreases at - i,
            {
                let c = cs[i];
                if !(('a' <= c && c <= 'z') || ('A' <= c && c <= 'Z') || ('0' <= c && c <= '9') || c
                    == '+' || c == '-' || c == '.') {
                    assert(!is_scheme_char(before_first(s@, ':')[i as int]));
                    return false;
                }
                i += 1;
            }
            let tail = slice_subrange(cs.as_slice(), at, cs.len());
            assert(tail@ =~= s@.skip(at as int));
            chars_start_with(tail, chars("://").as_slice())
        },
    }
}

/// The user, the host and the path of an argument written like `scp` writes
/// it: `[user@]host:path`.
pub open spec fn scp_parts(s: Seq<char>) -> Option<(Option<Seq<char>>, Seq<char>, Seq<char>)> {
    let left = before_first(s, ':');
    let right = s.skip(left.len() as int + 1);
    let host = after_last(left, '@');
    if !s.contains(':') || left.len() == 0 || right.len() == 0 || left.contains('/') || host.len()
        == 0 {
        None
    } else if left.contains('@') {
        Some((Some(before_last(left, '@')), host, right))
    } else {
        Some((None, host, right))
    }
}

/// The user, the host and the path of an argument written like `scp` writes
/// it.
pub fn parse_scp_like(s: &str) -> (r: Option<(Option<String>, String, String)>)
    ensures
        match r {
            Some(parts) => scp_parts(s@) == Some((opt_string(parts.0), parts.1@, parts.2@)),
            None => scp_parts(s@) is None,
        },
{
    let cs = chars(s);
    let colon = match find_char(cs.as_slice(), ':') {
        Some(at) => at,
        None => return None,
    };
    proof {
        lemma_before_first(s@, ':', colon as int);
        assert(s@[colon as int] == ':');
    }
    let end: usize = cs.len();
    let left = slice_subrange(cs.as_slice(), 0, colon);
    let right = slice_subrange(cs.as_slice(), colon + 1, end);
    assert(left@ =~= before_first(s@, ':'));
    assert(right@ =~= s@.skip(left@.len() as int + 1));
    if left.len() == 0 || right.len() == 0 {
        return None;
    }
    if let Some(at) = find_char(left, '/') {
        assert(left@[at as int] == '/');
        return None;
    }
    match rfind_char(left, '@') {
        Some(at) => {
            proof {
                lemma_around_last(left@, '@', at as int);
                assert(left@[at as int] == '@');
            }
            let width: usize = left.len();
            let user = slice_subrange(left, 0, at);
            let host = slice_subrange(left, at + 1, width);
            assert(user@ =~= left@.take(at as int));
            assert(host@ =~= left@.skip(at + 1));
            if host.len() == 0 {
                None
            } else {
                Some((Some(text(user)), text(host), text(right)))
            }
        },
        None => {
            proof {
                lemma_around_last(left@, '@', -1);
                assert(left@.skip(0) =~= left@);
            }
            Some((None, text(left), text(right)))
        },
    }
}

/// Whether a text looks like `host` or `host:port`.
pub open spec fn authority_like(s: Seq<char>) -> bool {
    let host = before_first(s, ':');
    &&& host.contains('.')
    &&& host[0] != '.'
    &&& forall|j: int|
        0 <= j < host.len() ==> is_alnum(#[trigger] host[j]) || host[j] == '-' || host[j] == '.'
}

/// The characters before the first `c`.
fn head(s: &[char], c: char) -> (r: &[char])
    ensures
        r@ == before_first(s@, c),
{
    match find_char(s, c) {
        Some(at) => {
            proof {
                lemma_before_first(s@, c, at as int);
                assert(s@.subrange(0, at as int) =~= s@.take(at as int));
            }
            slice_subrange(s, 0, at)
        },
        None => {
            proof {
                lemma_before_none(s@, c);
            }
            s
        },
    }
}

/// Whether characters look like `host` or `host:port`.
fn looks_like_authority(s: &[char]) -> (r: bool)
    ensures
        r == authority_like(s@),
{
    let host = head(s, ':');
    let mut saw_dot = false;
    let mut i: usize = 0;
    while i < host.len()
        invariant
            i <= host@.len(),
            host@ == before_first(s@, ':'),
            saw_dot == host@.take(i as int).contains('.'),
            i > 0 ==> host@[0] != '.',
            forall|j: int|
                0 <= j < i ==> is_alnum(#[trigger] host@[j]) || host@[j] == '-' || host@[j] == '.',
        decreases host@.len() - i,
    {
        let c = host[i];
        let ghost before = host@.take(i as int);
        let ghost after = host@.take(i + 1);
        assert(after =~= before.push(host@[i as int]));
        if c == '.' {
            if i == 0 {
                return false;
            }
            saw_dot = true;
            assert(after[i as int] == '.');
        } else if !(('a' <= c && c <= 'z') || ('A' <= c && c <= 'Z') || ('0' <= c && c <= '9') || c
            == '-') {
            assert(!is_alnum(host@[i as int]));
            return false;
        } else {
            proof {
                if saw_dot {
                    let k = choose|k: int| 0 <= k < before.len() && before[k] == '.';
                    assert(after[k] == '.');
                }
                if after.contains('.') {
                    let k = choose|k: int| 0 <= k < after.len() && after[k] == '.';
                    assert(before[k] == '.');
                }
            }
        }
        i += 1;
    }
    assert(host@.take(i as int) =~= host@);
    saw_dot
}

/// The form in which an argument is taken apart.
pub open spec fn normal_form(s: Seq<char>) -> (Seq<char>, NormalizedKind) {
    if schemed(s) {
        (s, NormalizedKind::HasScheme)
    } else {
        match scp_parts(s) {
            Some((user, host, path)) => (
                "ssh://"@ + at_prefix(user) + host + "/"@ + trimmed_start(path, '/'),
                NormalizedKind::Scp,
            ),
            None => if authority_like(before_first(s, '/')) && s.contains('/') {
                ("https://"@ + s, NormalizedKind::HostBare)
            } else {
                (s, NormalizedKind::Bare)
            },
        }
    }
}

/// `user@`, where there is a user.
pub open spec fn at_prefix(user: Option<Seq<char>>) -> Seq<char> {
    match user {
        Some(u) => u + "@"@,
        None => Seq::empty(),
    }
}

/// `user@`, where there is a user.
fn at_text(user: &Option<String>) -> (r: String)
    ensures
        r@ == at_prefix(opt_string(*user)),
{
    match user {
        Some(u) => String::from_str(u.as_str()).concat("@"),
        None => String::new(),
    }
}

/// The form in which an argument is taken apart: one with a scheme as it is,
/// one written like `scp` writes it as an `ssh` URL, one that begins with a
/// host as an `https` URL, any other as it is.
pub fn normalize_to_parseable(input: &str) -> (r: Normalized)
    ensures
        (r.value@, r.kind) == normal_form(input@),
{
    if has_scheme(input) {
        return Normalized { value: String::from_str(input), kind: NormalizedKind::HasScheme };
    }
    if let Some((user, host, path)) = parse_scp_like(input) {
        let cs = chars(path.as_str());
        let rest = text(trim_start(cs.as_slice(), '/'));
        let value = String::from_str("ssh://").concat(at_text(&user).as_str()).concat(
            host.as_str(),
        ).concat("/").concat(rest.as_str());
        return Normalized { value, kind: NormalizedKind::Scp };
    }
    let cs = chars(input);
    if looks_like_authority(head(cs.as_slice(), '/')) {
        if let Some(at) = find_char(cs.as_slice(), '/') {
            assert(input@[at as int] == '/');
            return Normalized {
                value: String::from_str("https://").concat(input),
                kind: NormalizedKind::HostBare,
            };
        }
    }
    Normalized { value: String::from_str(input), kind: NormalizedKind::Bare }
}

/// A repository of the default host.
pub open spec fn github_repo(input: Seq<char>, owner: Seq<char>, name: Seq<char>) -> RepoView {
    RepoView {
        host: "github.com"@,
        owner,
        name,
        vcs_hint: None,
        https_url: "https://github.com/"@ + owner + "/"@ + name,
        ssh_url: "ssh://git@github.com/"@ + owner + "/"@ + name,
        original_input: input,
    }
}

/// A repository of the default host.
pub fn build_github_repo(original: &str, owner: &str, name: &str) -> (r: Repo)
    ensures
        r@ == github_repo(original@, owner@, name@),
{
    let r = Repo {
        host: String::from_str("github.com"),
        owner: String::from_str(owner),
        name: String::from_str(name),
        vcs_hint: None,
        https_url: String::from_str("https://github.com/").concat(owner).concat("/").concat(name),
        ssh_url: String::from_str("ssh://git@github.com/").concat(owner).concat("/").concat(name),
        original_input: String::from_str(original),
    };
    assert(r@ =~= github_repo(original@, owner@, name@));
    r
}

/// The non-empty parts of a bare argument between its slashes.
pub open spec fn segments(value: Seq<char>) -> Seq<Seq<char>> {
    kept(split_on(without_git(trimmed(value, '/')), '/'), |s: Seq<char>| s.len() > 0)
}

/// The repository that a bare argument names: `owner/name`, or only a name.
pub open spec fn bare_repo(
    input: Seq<char>,
    value: Seq<char>,
    scap_user: Option<Seq<char>>,
    complete_user: bool,
) -> Result<RepoView, UrlErrorView> {
    let parts = segments(value);
    if parts.len() == 0 {
        Err(UrlErrorView::Empty)
    } else if parts.len() == 1 {
        if !complete_user {
            Ok(github_repo(input, parts[0], parts[0]))
        } else {
            match scap_user {
                Some(user) => Ok(github_repo(input, user, parts[0])),
                None => Err(UrlErrorView::UnknownUser { input }),
            }
        }
    } else if parts.len() == 2 {
        Ok(github_repo(input, parts[0], parts[1]))
    } else {
        Err(
            UrlErrorView::Malformed {
                input,
                reason: "bare input has "@ + decimal(parts.len()) + " path segments"@,
            },
        )
    }
}

/// The repository that a bare argument names.
pub fn from_bare(
    original: &str,
    value: &str,
    scap_user: Option<&str>,
    complete_user: bool,
) -> (r: Result<Repo, UrlError>)
    ensures
        result_view(r) == bare_repo(original@, value@, opt_text(scap_user), complete_user),
{
    let cs = chars(value);
    let parts = split_chars(strip_git(trim(cs.as_slice(), '/')), '/');
    let ghost all = split_on(without_git(trimmed(value@, '/')), '/');
    let ghost keep = |s: Seq<char>| s.len() > 0;
    let mut named: Vec<String> = Vec::new();
    let mut i: usize = 0;
    assert(all.take(0) =~= Seq::empty());
    assert(crate::text::texts(named@) =~= kept(all.take(0), keep));
    while i < parts.len()
        invariant
            i <= parts@.len(),
            char_views(parts@) == all,
            keep == (|s: Seq<char>| s.len() > 0),
            crate::text::texts(named@) == kept(all.take(i as int), keep),
        decreases parts@.len() - i,
    {
        proof {
            assert(all.take(i + 1).drop_last() =~= all.take(i as int));
            assert(all[i as int] == parts@[i as int]@);
        }
        if parts[i].len() > 0 {
            let ghost before = named@;
            named.push(text(parts[i].as_slice()));
            assert(crate::text::texts(named@) =~= crate::text::texts(before).push(all[i as int]));
        }
        i += 1;
    }
    assert(all.take(i as int) =~= all);
    let ghost want = segments(value@);
    assert(crate::text::texts(named@) == want);
    assert(named@.len() == want.len());
    assert(forall|k: int| 0 <= k < named@.len() ==> (#[trigger] named@[k])@ == want[k]);
    let count: usize = named.len();
    if count == 0 {
        Err(UrlError::Empty)
    } else if count == 1 {
        if !complete_user {
            Ok(build_github_repo(original, named[0].as_str(), named[0].as_str()))
        } else {
            match scap_user {
                Some(user) => Ok(build_github_repo(original, user, named[0].as_str())),
                None => Err(UrlError::UnknownUser { input: String::from_str(original) }),
            }
        }
    } else if count == 2 {
        Ok(build_github_repo(original, named[0].as_str(), named[1].as_str()))
    } else {
        Err(
            UrlError::Malformed {
                input: String::from_str(original),
                reason: String::from_str("bare input has ").concat(
                    decimal_text(count as u64).as_str(),
                ).concat(" path segments"),
            },
        )
    }
}

/// The parts of a CodeCommit argument.
#[derive(Debug)]
pub struct CodecommitRef {
    pub region: Option<String>,
    pub user: Option<String>,
    pub name: String,
}

/// What a [`CodecommitRef`] holds.
#[verifier::ext_equal]
pub struct CodecommitView {
    pub region: Option<Seq<char>>,
    pub user: Option<Seq<char>>,
    pub name: Seq<char>,
}

impl View for CodecommitRef {
    type V = CodecommitView;

    open spec fn view(&self) -> CodecommitView {
        CodecommitView {
            region: opt_string(self.region),
            user: opt_string(self.user),
            name: self.name@,
        }
    }
}

/// Whether a text can be a region: a lower case letter, then at least one
/// lower case letter, digit or hyphen.
pub open spec fn is_region(r: Seq<char>) -> bool {
    &&& r.len() >= 2
    &&& is_lower(r[0])
    &&& forall|j: int|
        1 <= j < r.len() ==> is_lower(#[trigger] r[j]) || is_digit_char(r[j]) || r[j] == '-'
}

/// Whether a text can be the user of a CodeCommit argument.
pub open spec fn is_codecommit_user(u: Seq<char>) -> bool {
    u.len() > 0 && !u.contains(']')
}

/// Whether a character may stand in the name of a CodeCommit repository.
pub open spec fn is_name_char(c: char) -> bool {
    is_alnum(c) || c == '_' || c == '.' || c == '-'
}

/// Whether a text can be the name of a CodeCommit repository.
pub open spec fn is_codecommit_name(n: Seq<char>) -> bool {
    n.len() > 0 && forall|j: int| 0 <= j < n.len() ==> is_name_char(#[trigger] n[j])
}

impl CodecommitView {
    /// Whether every part is one that a CodeCommit argument can have.
    pub open spec fn valid(self) -> bool {
        &&& self.region matches Some(r) ==> is_region(r)
        &&& self.user matches Some(u) ==> is_codecommit_user(u)
        &&& is_codecommit_name(self.name)
    }

    /// `[user@]name`.
    pub open spec fn authority(self) -> Seq<char> {
        at_prefix(self.user) + self.name
    }

    /// `codecommit:[:region:]//[user@]name`.
    pub open spec fn spelled(self) -> Seq<char> {
        "codecommit:"@ + (match self.region {
            Some(r) => ":"@ + r + ":"@,
            None => Seq::empty(),
        }) + "//"@ + self.authority()
    }
}

/// Whether `c` is what the argument `s` spells.
pub open spec fn spells(s: Seq<char>, c: CodecommitView) -> bool {
    c.valid() && c.spelled() == s
}

/// Whether an argument is a CodeCommit argument.
pub open spec fn is_codecommit(s: Seq<char>) -> bool {
    exists|c: CodecommitView| spells(s, c)
}

/// The parts of a CodeCommit argument, where it is one.
pub open spec fn codecommit_of(s: Seq<char>) -> Option<CodecommitView> {
    if is_codecommit(s) {
        Some(choose|c: CodecommitView| spells(s, c))
    } else {
        None
    }
}

/// Where the parts of a spelled argument stand.
proof fn lemma_spelled(s: Seq<char>, c: CodecommitView)
    requires
        spells(s, c),
    ensures
        has_prefix(s, "codecommit:"@),
        c.region matches Some(r) ==> {
            let rest = s.skip(11);
            &&& rest.len() > 0
            &&& rest[0] == ':'
            &&& first_at(rest.skip(1), ':', r.len() as int)
            &&& rest.skip(1).take(r.len() as int) == r
            &&& rest.skip(1).skip(r.len() as int + 1) == "//"@ + c.authority()
        },
        c.region is None ==> {
            let rest = s.skip(11);
            &&& rest == "//"@ + c.authority()
            &&& rest.len() > 0
            &&& rest[0] != ':'
        },
{
    reveal_strlit("codecommit:");
    reveal_strlit("//");
    reveal_strlit(":");
    let tail = "//"@ + c.authority();
    assert(s.subrange(0, 11) =~= "codecommit:"@);
    assert(s.take(11) =~= "codecommit:"@);
    match c.region {
        Some(r) => {
            assert(s =~= "codecommit:"@ + ":"@ + r + ":"@ + tail);
            let with = s.skip(11).skip(1);
            assert(with =~= r + ":"@ + tail);
            assert forall|j: int| 0 <= j < r.len() implies with[j] != ':' by {
                assert(with[j] == r[j]);
            }
            assert(with.take(r.len() as int) =~= r);
            assert(with.skip(r.len() as int + 1) =~= tail);
        },
        None => {
            assert(s =~= "codecommit:"@ + tail);
            assert(s.skip(11) =~= tail);
        },
    }
}

/// Where the user and the name stand in `[user@]name`.
proof fn lemma_authority(c: CodecommitView)
    requires
        c.valid(),
    ensures
        c.user matches Some(u) ==> {
            &&& last_at(c.authority(), '@', u.len() as int)
            &&& c.authority().take(u.len() as int) == u
            &&& c.authority().skip(u.len() as int + 1) == c.name
        },
        c.user is None ==> c.authority() == c.name && !c.authority().contains('@'),
{
    reveal_strlit("@");
    let a = c.authority();
    match c.user {
        Some(u) => {
            assert(a =~= u + "@"@ + c.name);
            assert(a.skip(u.len() as int + 1) =~= c.name);
            assert forall|j: int| u.len() < j < a.len() implies a[j] != '@' by {
                assert(a[j] == c.name[j - u.len() - 1]);
            }
            assert(a.take(u.len() as int) =~= u);
        },
        None => {
            assert(a =~= c.name);
            if a.contains('@') {
                let k = choose|k: int| 0 <= k < a.len() && a[k] == '@';
                assert(is_name_char(c.name[k]));
            }
        },
    }
}

/// An argument spells at most one CodeCommit repository.
pub proof fn law_codecommit_is_unambiguous(s: Seq<char>, a: CodecommitView, b: CodecommitView)
    requires
        spells(s, a),
        spells(s, b),
    ensures
        a == b,
{
    lemma_spelled(s, a);
    lemma_spelled(s, b);
    lemma_authority(a);
    lemma_authority(b);
    reveal_strlit("//");
    assert(a.region == b.region);
    assert(("//"@ + a.authority()).skip(2) =~= a.authority());
    assert(("//"@ + b.authority()).skip(2) =~= b.authority());
    assert(a.authority() == b.authority());
    let all = a.authority();
    if a.user is Some && b.user is None {
        assert(all[(a.user->0).len() as int] == '@');
    }
    if b.user is Some && a.user is None {
        assert(all[(b.user->0).len() as int] == '@');
    }
    if a.user is Some && b.user is Some {
        let i = (a.user->0).len() as int;
        let j = (b.user->0).len() as int;
        assert(all[i] == '@' && all[j] == '@');
        assert(i == j);
    }
    assert(a =~= b);
}

fn region_ok(r: &[char]) -> (ok: bool)
    ensures
        ok == is_region(r@),
{
    if r.len() < 2 || !('a' <= r[0] && r[0] <= 'z') {
        return false;
    }
    let mut i: usize = 1;
    while i < r.len()
        invariant
            1 <= i <= r@.len(),
            forall|j: int|
                1 <= j < i ==> is_lower(#[trigger] r@[j]) || is_digit_char(r@[j]) || r@[j] == '-',
        decreases r@.len() - i,
    {
        let c = r[i];
        if !(('a' <= c && c <= 'z') || ('0' <= c && c <= '9') || c == '-') {
            assert(!is_lower(r@[i as int]));
            return false;
        }
        i += 1;
    }
    true
}

fn name_ok(n: &[char]) -> (ok: bool)
    ensures
        ok == is_codecommit_name(n@),
{
    let mut i: usize = 0;
    while i < n.len()
        invariant
            i <= n@.len(),
            forall|j: int| 0 <= j < i ==> is_name_char(#[trigger] n@[j]),
        decreases n@.len() - i,
    {
        let c = n[i];
        if !(('a' <= c && c <= 'z') || ('A' <= c && c <= 'Z') || ('0' <= c && c <= '9') || c == '_'
            || c == '.' || c == '-') {
            assert(!is_name_char(n@[i as int]));
            return false;
        }
        i += 1;
    }
    n.len() > 0
}

/// Splits `[user@]name`, where both are what a CodeCommit argument can have.
fn parse_authority(a: &[char]) -> (r: Option<(Option<String>, String)>)
    ensures
        match r {
            Some(parts) => {
                let c = CodecommitView {
                    region: None,
                    user: opt_string(parts.0),
                    name: parts.1@,
                };
                c.valid() && c.authority() == a@
            },
            None => forall|c: CodecommitView| c.valid() ==> #[trigger] c.authority() != a@,
        },
{
    proof {
        reveal_strlit("@");
        assert forall|c: CodecommitView| c.valid() && #[trigger] c.authority() == a@ implies {
            &&& c.user matches Some(u) ==> {
                &&& last_at(a@, '@', u.len() as int)
                &&& a@.take(u.len() as int) == u
                &&& a@.skip(u.len() as int + 1) == c.name
            }
            &&& c.user is None ==> a@ == c.name && !a@.contains('@')
        } by {
            lemma_authority(c);
        }
    }
    let end: usize = a.len();
    match rfind_char(a, '@') {
        Some(at) => {
            let user = slice_subrange(a, 0, at);
            let name = slice_subrange(a, at + 1, end);
            assert(user@ =~= a@.take(at as int));
            assert(name@ =~= a@.skip(at + 1));
            assert forall|c: CodecommitView| c.valid() && #[trigger] c.authority() == a@ implies c.user
                == Some(user@) && c.name == name@ by {
                assert(a@[at as int] == '@');
            }
            if user.len() == 0 || find_char(user, ']').is_some() || !name_ok(name) {
                return None;
            }
            let parts = (Some(text(user)), text(name));
            assert(at_prefix(Some(user@)) + name@ =~= a@);
            Some(parts)
        },
        None => {
            assert forall|c: CodecommitView| c.valid() && #[trigger] c.authority() == a@ implies c.name
                == a@ by {
                if c.user is Some {
                    assert(a@[(c.user->0).len() as int] == '@');
                }
            }
            if !name_ok(a) {
                return None;
            }
            let parts: (Option<String>, String) = (None, text(a));
            assert(at_prefix(None) + a@ =~= a@);
            Some(parts)
        },
    }
}

/// Splits `//[user@]name`.
fn parse_after_region(s: &[char]) -> (r: Option<(Option<String>, String)>)
    ensures
        match r {
            Some(parts) => {
                let c = CodecommitView {
                    region: None,
                    user: opt_string(parts.0),
                    name: parts.1@,
                };
                c.valid() && "//"@ + c.authority() == s@
            },
            None => forall|c: CodecommitView|
                c.valid() ==> "//"@ + #[trigger] c.authority() != s@,
        },
{
    proof {
        reveal_strlit("//");
        assert forall|c: CodecommitView| "//"@ + #[trigger] c.authority() == s@ implies has_prefix(
            s@,
            "//"@,
        ) && c.authority() == s@.skip(2) by {
            assert(s@.take(2) =~= "//"@);
            assert(s@.skip(2) =~= c.authority());
            assert(s@.subrange(0, 2) =~= "//"@);
        }
    }
    if !chars_start_with(s, chars("//").as_slice()) {
        return None;
    }
    let end: usize = s.len();
    let rest = slice_subrange(s, 2, end);
    assert(rest@ =~= s@.skip(2));
    assert("//"@ + rest@ =~= s@);
    parse_authority(rest)
}

/// The parts of a CodeCommit argument, where it is one.
pub fn parse_codecommit(input: &str) -> (r: Option<CodecommitRef>)
    ensures
        match r {
            Some(c) => spells(input@, c@) && codecommit_of(input@) == Some(c@),
            None => !is_codecommit(input@),
        },
{
    let cs = chars(input);
    let ghost s = input@;
    proof {
        reveal_strlit("codecommit:");
        reveal_strlit("//");
        reveal_strlit(":");
        assert forall|c: CodecommitView| #[trigger] spells(s, c) implies has_prefix(
            s,
            "codecommit:"@,
        ) by {
            lemma_spelled(s, c);
        }
    }
    if !chars_start_with(cs.as_slice(), chars("codecommit:").as_slice()) {
        return None;
    }
    let end: usize = cs.len();
    let rest = slice_subrange(cs.as_slice(), 11, end);
    assert(rest@ =~= s.skip(11));
    assert("codecommit:"@ + rest@ =~= s);
    if rest.len() > 0 && rest[0] == ':' {
        let width: usize = rest.len();
        let with_region = slice_subrange(rest, 1, width);
        assert(with_region@ =~= rest@.skip(1));
        proof {
            assert forall|c: CodecommitView| #[trigger] spells(s, c) implies c.region is Some && {
                let r = c.region->0;
                &&& first_at(with_region@, ':', r.len() as int)
                &&& with_region@.take(r.len() as int) == r
                &&& with_region@.skip(r.len() as int + 1) == "//"@ + c.authority()
            } by {
                lemma_spelled(s, c);
            }
        }
        match find_char(with_region, ':') {
            None => {
                assert forall|c: CodecommitView| #[trigger] spells(s, c) implies false by {
                    let r = c.region->0;
                    assert(with_region@[r.len() as int] == ':');
                }
                None
            },
            Some(at) => {
                let region = slice_subrange(with_region, 0, at);
                assert(region@ =~= with_region@.take(at as int));
                let tail: usize = with_region.len();
                let after = slice_subrange(with_region, at + 1, tail);
                assert(after@ =~= with_region@.skip(at + 1));
                assert forall|c: CodecommitView| #[trigger] spells(s, c) implies c.region == Some(
                    region@,
                ) && "//"@ + c.authority() == after@ by {
                    let r = c.region->0;
                    assert(with_region@[at as int] == ':' && with_region@[r.len() as int] == ':');
                    assert(r.len() == at);
                }
                if !region_ok(region) {
                    return None;
                }
                match parse_after_region(after) {
                    None => None,
                    Some((user, name)) => {
                        let c = CodecommitRef { region: Some(text(region)), user, name };
                        proof {
                            let bare = CodecommitView { region: None, user: c@.user, name: c@.name };
                            assert(bare.authority() == c@.authority());
                            assert(":"@ + region@ + ":"@ + after@ =~= rest@);
                            assert(c@.spelled() =~= s);
                            assert(spells(s, c@));
                            law_codecommit_is_unambiguous(s, c@, codecommit_of(s)->0);
                        }
                        Some(c)
                    },
                }
            },
        }
    } else {
        proof {
            assert forall|c: CodecommitView| #[trigger] spells(s, c) implies c.region is None && "//"@
                + c.authority() == rest@ by {
                lemma_spelled(s, c);
            }
        }
        match parse_after_region(rest) {
            None => None,
            Some((user, name)) => {
                let c = CodecommitRef { region: None, user, name };
                proof {
                    assert(c@.spelled() =~= s);
                    assert(spells(s, c@));
                    law_codecommit_is_unambiguous(s, c@, codecommit_of(s)->0);
                }
                Some(c)
            },
        }
    }
}

/// Whether an argument is a CodeCommit argument.
pub fn is_codecommit_input(input: &str) -> (r: bool)
    ensures
        r == is_codecommit(input@),
{
    parse_codecommit(input).is_some()
}

/// The repository that a CodeCommit argument names, where `region` is the
/// region of one that names none.
pub open spec fn codecommit_repo(
    input: Seq<char>,
    c: CodecommitView,
    region: Option<Seq<char>>,
) -> Result<RepoView, UrlErrorView> {
    let host = match c.region {
        Some(r) => Some(r),
        None => region,
    };
    match host {
        None => Err(UrlErrorView::MissingCodecommitRegion),
        Some(h) => {
            let url = "codecommit://"@ + at_prefix(c.user) + h + "/"@ + c.name;
            Ok(
                RepoView {
                    host: h,
                    owner: Seq::empty(),
                    name: c.name,
                    vcs_hint: Some("git"@),
                    https_url: url,
                    ssh_url: url,
                    original_input: input,
                },
            )
        },
    }
}

/// The repository that a CodeCommit argument names. Its region stands for the
/// host; it has no owner.
pub fn finalize_codecommit(
    original: &str,
    codecommit: CodecommitRef,
    region: Option<&str>,
) -> (r: Result<Repo, UrlError>)
    ensures
        result_view(r) == codecommit_repo(original@, codecommit@, opt_text(region)),
{
    let CodecommitRef { region: named, user, name } = codecommit;
    let host = match named {
        Some(r) => r,
        None => match region {
            Some(r) => String::from_str(r),
            None => return Err(UrlError::MissingCodecommitRegion),
        },
    };
    let url = String::from_str("codecommit://").concat(at_text(&user).as_str()).concat(
        host.as_str(),
    ).concat("/").concat(name.as_str());
    let same = String::from_str(url.as_str());
    let owner = String::new();
    assert(owner@ =~= Seq::<char>::empty());
    Ok(
        Repo {
            host,
            owner,
            name,
            vcs_hint: Some(String::from_str("git")),
            https_url: url,
            ssh_url: same,
            original_input: String::from_str(original),
        },
    )
}

/// Whether an argument names a CodeCommit repository without its region.
pub open spec fn lacks_region(input: Seq<char>) -> bool {
    input.len() > 0 && !traverses(input) && (codecommit_of(input) matches Some(c)
        && c.region is None)
}

/// Whether a region has to be found before an argument can be read.
pub fn needs_region(input: &str) -> (r: bool)
    ensures
        r == lacks_region(input@),
{
    if is_empty(input) || has_traversal(input) {
        return false;
    }
    match parse_codecommit(input) {
        Some(c) => c.region.is_none(),
        None => false,
    }
}

/// The first non-empty one of two settings, or what a lookup found.
pub open spec fn region_from(
    aws_region: Option<Seq<char>>,
    aws_default_region: Option<Seq<char>>,
    looked_up: Option<Seq<char>>,
) -> Option<Seq<char>> {
    match aws_region {
        Some(r) if r.len() > 0 => Some(r),
        _ => match aws_default_region {
            Some(r) if r.len() > 0 => Some(r),
            _ => looked_up,
        },
    }
}

/// The first non-empty one of two settings.
pub fn env_region(aws_region: Option<&str>, aws_default_region: Option<&str>) -> (r: Option<
    String,
>)
    ensures
        opt_string(r) == region_from(opt_text(aws_region), opt_text(aws_default_region), None),
{
    if let Some(r) = aws_region {
        if !is_empty(r) {
            return Some(String::from_str(r));
        }
    }
    if let Some(r) = aws_default_region {
        if !is_empty(r) {
            return Some(String::from_str(r));
        }
    }
    None
}

/// The region of a CodeCommit argument that names none: the first non-empty
/// one of two settings, else what a lookup found.
pub fn resolve_codecommit_region(
    aws_region: Option<&str>,
    aws_default_region: Option<&str>,
    looked_up: Option<String>,
) -> (r: Result<String, UrlError>)
    ensures
        match region_from(
            opt_text(aws_region),
            opt_text(aws_default_region),
            opt_string(looked_up),
        ) {
            Some(region) => r is Ok && (r->Ok_0)@ == region,
            None => r is Err && (r->Err_0)@ == UrlErrorView::MissingCodecommitRegion,
        },
{
    if let Some(r) = env_region(aws_region, aws_default_region) {
        return Ok(r);
    }
    match looked_up {
        Some(r) => Ok(r),
        None => Err(UrlError::MissingCodecommitRegion),
    }
}

/// What the lookup command found: the text it printed without the white space
/// around it, where it succeeded and printed any.
pub fn region_from_output(success: bool, stdout: &[u8]) -> (r: Option<String>)
    ensures
        opt_string(r) == (if success && stripped(shown_path(stdout@)).len() > 0 {
            Some(stripped(shown_path(stdout@)))
        } else {
            None
        }),
{
    if !success {
        return None;
    }
    let region = strip(lossy_text(stdout).as_str());
    if is_empty(region.as_str()) {
        None
    } else {
        Some(region)
    }
}

/// The repository that a URL names, given its parts and the text of its path.
pub open spec fn url_repo(input: Seq<char>, parts: PartsView, path: Seq<char>) -> Result<
    RepoView,
    UrlErrorView,
> {
    let whole = repo_path(path);
    let host = match parts.host {
        Some(h) => ascii_lower(h),
        None => Seq::empty(),
    };
    let owner = before_last(whole, '/');
    let name = after_last(whole, '/');
    let user = match parts.user {
        Some(u) => u,
        None => "git"@,
    };
    if parts.host is None && !(parts.scheme is File) {
        Err(UrlErrorView::MissingHost(input))
    } else if whole.len() == 0 {
        Err(UrlErrorView::MissingPath(input))
    } else if !whole.contains('/') {
        Err(UrlErrorView::Malformed { input, reason: "expected owner/repo, got "@ + quoted(whole) })
    } else {
        Ok(
            RepoView {
                host,
                owner,
                name,
                vcs_hint: vcs_of(parts.scheme, host),
                https_url: "https://"@ + host + "/"@ + owner + "/"@ + name,
                ssh_url: "ssh://"@ + user + "@"@ + host + "/"@ + owner + "/"@ + name,
                original_input: input,
            },
        )
    }
}

/// The repository that a URL names, given its parts and the text of its path.
///
/// The host is in lower case, and empty for a file URL without one. The path,
/// without the slashes at its ends and without `.git`, has to have an owner
/// and a name; the owner is all of it up to the last slash.
pub fn from_parts(original: &str, parts: &UrlParts, path: &str) -> (r: Result<Repo, UrlError>)
    ensures
        result_view(r) == url_repo(original@, parts@, path@),
{
    let host = match &parts.host {
        Some(h) => ascii_lowercase(h.as_str()),
        None => {
            if let UrlScheme::File = parts.scheme {
                let none = String::new();
                assert(none@ =~= Seq::<char>::empty());
                none
            } else {
                return Err(UrlError::MissingHost(String::from_str(original)));
            }
        },
    };
    let whole = trim_repo_path(path);
    let cs = chars(whole.as_str());
    if cs.len() == 0 {
        return Err(UrlError::MissingPath(String::from_str(original)));
    }
    let at = match rfind_char(cs.as_slice(), '/') {
        Some(at) => at,
        None => return Err(
            UrlError::Malformed {
                input: String::from_str(original),
                reason: String::from_str("expected owner/repo, got ").concat(
                    debug_text(whole.as_str()).as_str(),
                ),
            },
        ),
    };
    proof {
        lemma_around_last(cs@, '/', at as int);
        assert(whole@[at as int] == '/');
    }
    let end: usize = cs.len();
    let owner = text(slice_subrange(cs.as_slice(), 0, at));
    let name = text(slice_subrange(cs.as_slice(), at + 1, end));
    assert(owner@ =~= before_last(whole@, '/'));
    assert(name@ =~= after_last(whole@, '/'));
    let vcs_hint = detect_vcs(&parts.scheme, host.as_str());
    let user = match &parts.user {
        Some(u) => String::from_str(u.as_str()),
        None => String::from_str("git"),
    };
    let https_url = String::from_str("https://").concat(host.as_str()).concat("/").concat(
        owner.as_str(),
    ).concat("/").concat(name.as_str());
    let ssh_url = String::from_str("ssh://").concat(user.as_str()).concat("@").concat(
        host.as_str(),
    ).concat("/").concat(owner.as_str()).concat("/").concat(name.as_str());
    Ok(
        Repo {
            host,
            owner,
            name,
            vcs_hint,
            https_url,
            ssh_url,
            original_input: String::from_str(original),
        },
    )
}

/// The repository that a URL names, given what taking it apart gave.
pub open spec fn parsed_repo(input: Seq<char>, parsed: Result<PartsView, Seq<char>>) -> Result<
    RepoView,
    UrlErrorView,
> {
    match parsed {
        Ok(parts) => url_repo(input, parts, path_text(parts.path)),
        Err(reason) => Err(UrlErrorView::Malformed { input, reason }),
    }
}

/// The repository that a URL names, given what taking it apart gave.
pub fn from_parsed(original: &str, parsed: Result<UrlParts, String>) -> (r: Result<Repo, UrlError>)
    ensures
        result_view(r) == parsed_repo(original@, parts_view(parsed)),
{
    match parsed {
        Ok(parts) => {
            let path = path_str(parts.path.as_slice());
            from_parts(original, &parts, path.as_str())
        },
        Err(reason) => Err(UrlError::Malformed { input: String::from_str(original), reason }),
    }
}

/// The repository that an argument names.
pub open spec fn repo_of(
    input: Seq<char>,
    scap_user: Option<Seq<char>>,
    complete_user: bool,
    region: Option<Seq<char>>,
) -> Result<RepoView, UrlErrorView> {
    if input.len() == 0 {
        Err(UrlErrorView::Empty)
    } else if traverses(input) {
        Err(UrlErrorView::PathTraversal(input))
    } else {
        match codecommit_of(input) {
            Some(c) => codecommit_repo(input, c, region),
            None => {
                let (value, kind) = normal_form(input);
                if kind is Bare {
                    bare_repo(input, value, scap_user, complete_user)
                } else {
                    parsed_repo(input, parsed_url(value))
                }
            },
        }
    }
}

/// The repository that an argument names.
///
/// `scap_user` is the owner of a repository that is named alone, where
/// `complete_user` asks for one; `region` is the region of a CodeCommit
/// repository whose argument gives none, as [`resolve_codecommit_region`]
/// finds it.
pub fn from_input(
    input: &str,
    scap_user: Option<&str>,
    complete_user: bool,
    region: Option<&str>,
) -> (r: Result<Repo, UrlError>)
    ensures
        result_view(r) == repo_of(input@, opt_text(scap_user), complete_user, opt_text(region)),
{
    if is_empty(input) {
        return Err(UrlError::Empty);
    }
    if has_traversal(input) {
        return Err(UrlError::PathTraversal(String::from_str(input)));
    }
    if let Some(codecommit) = parse_codecommit(input) {
        return finalize_codecommit(input, codecommit, region);
    }
    let normalized = normalize_to_parseable(input);
    if let NormalizedKind::Bare = normalized.kind {
        return from_bare(input, normalized.value.as_str(), scap_user, complete_user);
    }
    from_parsed(input, parse_url(normalized.value.as_str()))
}

/// An argument that climbs out of a directory names no repository.
pub proof fn law_traversal_is_refused(
    input: Seq<char>,
    scap_user: Option<Seq<char>>,
    complete_user: bool,
    region: Option<Seq<char>>,
)
    requires
        traverses(input),
    ensures
        repo_of(input, scap_user, complete_user, region) == Err::<RepoView, UrlErrorView>(
            UrlErrorView::PathTraversal(input),
        ),
{
    if input.len() == 0 {
        assert(slashed(input) =~= Seq::empty());
        let parts = split_on(slashed(input), '/');
        reveal_strlit("..");
        let k = choose|k: int| 0 <= k < parts.len() && parts[k] == ".."@;
        assert(parts[0].len() == 0);
    }
}

/// A repository remembers the argument that named it, and its host is in
/// lower case unless that is a region.
pub proof fn law_repository_of_an_argument(
    input: Seq<char>,
    scap_user: Option<Seq<char>>,
    complete_user: bool,
    region: Option<Seq<char>>,
)
    requires
        repo_of(input, scap_user, complete_user, region) is Ok,
    ensures
        ({
            let repo = repo_of(input, scap_user, complete_user, region)->Ok_0;
            &&& repo.original_input == input
            &&& !is_codecommit(input) ==> repo.host == ascii_lower(repo.host)
            &&& !is_codecommit(input) ==> repo.https_url == "https://"@ + repo.host + "/"@
                + repo.owner + "/"@ + repo.name
            &&& is_codecommit(input) ==> repo.owner.len() == 0 && repo.https_url == repo.ssh_url
        }),
{
    let repo = repo_of(input, scap_user, complete_user, region)->Ok_0;
    if !is_codecommit(input) {
        reveal_strlit("github.com");
        reveal_strlit("https://");
        reveal_strlit("https://github.com/");
        reveal_strlit("/");
        assert(repo.host =~= ascii_lower(repo.host));
        assert("https://"@ + "github.com"@ + "/"@ =~= "https://github.com/"@);
    }
}

/// The region of a CodeCommit argument never comes from elsewhere when the
/// argument gives one, and no other argument looks at one.
pub proof fn law_region_is_only_for_arguments_without_one(
    input: Seq<char>,
    scap_user: Option<Seq<char>>,
    complete_user: bool,
    a: Option<Seq<char>>,
    b: Option<Seq<char>>,
)
    requires
        !lacks_region(input),
    ensures
        repo_of(input, scap_user, complete_user, a) == repo_of(input, scap_user, complete_user, b),
{
}

} // verus!
