//! The settings of the program.
//!
//! Configuration files are read in this process wherever that gives what git
//! itself would read; [`needs_git_backend`] says when git has to be asked.

pub mod expand;
pub mod git_backend;
pub mod settings;
pub mod sources;
pub mod values;

use vstd::prelude::*;
use vstd::slice::slice_to_vec;
use vstd::utf8::encode_utf8;

use crate::bytes::{
    bytes_eq, copy_list, has_prefix, joined, lemma_kept_from, opt_view, split, split_on, views,
};
use crate::config::expand::{are_paths_of, interpolate_all};
use crate::config::git_backend::{entries_of, listed_settings, records, settings_of_listing};
use crate::config::settings::{
    file_settings, has_unevaluable_includeif, is_unevaluable, section_values, section_views,
    settings_of, Section, SectionView, Settings, SettingsView,
};
use crate::config::values::{git_config_count_applies, spells_zero};
use crate::paths::{clean_path, cleaned, join, joined_path};
use crate::text::{
    chars, chars_start_with, debug_text, decimal, decimal_text, is_empty, lossy_text, quoted,
    shown_path, strip, stripped, text, text_eq, texts, utf8_text,
};
use crate::url::{is_codecommit, is_codecommit_input, opt_string};

verus! {

/// Who read the configuration.
#[derive(Debug, Clone, Copy, PartialEq, Eq, Structural)]
pub enum Backend {
    /// This process read the files.
    InProcess,
    /// Git listed the settings.
    Git,
}

impl Backend {
    /// The name of a reader.
    pub open spec fn name(self) -> Seq<char> {
        match self {
            Backend::InProcess => "in_process"@,
            Backend::Git => "git"@,
        }
    }

    /// The name of a reader.
    pub fn text(self) -> (r: &'static str)
        ensures
            r@ == self.name(),
    {
        match self {
            Backend::InProcess => "in_process",
            Backend::Git => "git",
        }
    }
}

/// Why the configuration was read by whom it was.
#[derive(Debug, Clone, Copy, PartialEq, Eq, Structural)]
pub enum Reason {
    /// Nothing asks for git.
    InProcess,
    /// There are roots of particular URLs: the files are read here, and only
    /// the root of a URL is asked of git.
    UrlSections,
    /// Settings come from numbered variables.
    GitConfigCount,
    /// Settings come from git's own command line.
    GitConfigParameters,
    /// A file is read on a condition that only git can evaluate.
    IncludeifUnevaluated,
    /// There is more than one system file.
    SystemProbeAmbiguous,
    /// A variable asks for git.
    EnvOverride,
}

impl Reason {
    /// The name of a reason.
    pub open spec fn name(self) -> Seq<char> {
        match self {
            Reason::InProcess => "in_process"@,
            Reason::UrlSections => "url_sections"@,
            Reason::GitConfigCount => "git_config_count"@,
            Reason::GitConfigParameters => "git_config_parameters"@,
            Reason::IncludeifUnevaluated => "includeif_unevaluated"@,
            Reason::SystemProbeAmbiguous => "system_probe_ambiguous"@,
            Reason::EnvOverride => "env_override"@,
        }
    }

    /// The name of a reason.
    pub fn text(self) -> (r: &'static str)
        ensures
            r@ == self.name(),
    {
        match self {
            Reason::InProcess => "in_process",
            Reason::UrlSections => "url_sections",
            Reason::GitConfigCount => "git_config_count",
            Reason::GitConfigParameters => "git_config_parameters",
            Reason::IncludeifUnevaluated => "includeif_unevaluated",
            Reason::SystemProbeAmbiguous => "system_probe_ambiguous",
            Reason::EnvOverride => "env_override",
        }
    }
}

/// What asks for git, in words.
pub open spec fn reason_words(reason: Reason) -> Seq<char> {
    match reason {
        Reason::EnvOverride => "SCAP_CONFIG_BACKEND=git"@,
        Reason::GitConfigCount => "GIT_CONFIG_COUNT is set"@,
        Reason::GitConfigParameters => "GIT_CONFIG_PARAMETERS is set"@,
        Reason::SystemProbeAmbiguous => "the system gitconfig probe matched more than one file"@,
        Reason::IncludeifUnevaluated =>
            "an includeIf onbranch:/hasconfig: condition needs git to evaluate it"@,
        Reason::InProcess => "the in-process snapshot was declined"@,
        Reason::UrlSections => "the in-process snapshot was declined"@,
    }
}

/// What asks for git, in words.
pub fn reason_text(reason: Reason) -> (r: &'static str)
    ensures
        r@ == reason_words(reason),
{
    match reason {
        Reason::EnvOverride => "SCAP_CONFIG_BACKEND=git",
        Reason::GitConfigCount => "GIT_CONFIG_COUNT is set",
        Reason::GitConfigParameters => "GIT_CONFIG_PARAMETERS is set",
        Reason::SystemProbeAmbiguous => "the system gitconfig probe matched more than one file",
        Reason::IncludeifUnevaluated =>
            "an includeIf onbranch:/hasconfig: condition needs git to evaluate it",
        Reason::InProcess | Reason::UrlSections => "the in-process snapshot was declined",
    }
}

/// Why there are no settings.
#[derive(Debug)]
pub enum ConfigError {
    /// Git could not be started, and what the system says of that.
    GitSpawn(String),
    GitConfigFailed { key: String, status: i32, stderr: String },
    NoHomeDir,
    InvalidUtf8,
    /// Git is needed and there is none.
    GitRequired { reason: &'static str },
    /// The files cannot be read, and what is said of that.
    Parse { path: Vec<u8>, source: String },
}

/// What a [`ConfigError`] holds.
#[verifier::ext_equal]
pub enum ConfigErrorView {
    GitSpawn(Seq<char>),
    GitConfigFailed { key: Seq<char>, status: i32, stderr: Seq<char> },
    NoHomeDir,
    InvalidUtf8,
    GitRequired { reason: Seq<char> },
    Parse { path: Seq<u8>, source: Seq<char> },
}

impl View for ConfigError {
    type V = ConfigErrorView;

    open spec fn view(&self) -> ConfigErrorView {
        match self {
            ConfigError::GitSpawn(e) => ConfigErrorView::GitSpawn(e@),
            ConfigError::GitConfigFailed { key, status, stderr } => ConfigErrorView::GitConfigFailed {
                key: key@,
                status: *status,
                stderr: stderr@,
            },
            ConfigError::NoHomeDir => ConfigErrorView::NoHomeDir,
            ConfigError::InvalidUtf8 => ConfigErrorView::InvalidUtf8,
            ConfigError::GitRequired { reason } => ConfigErrorView::GitRequired { reason: reason@ },
            ConfigError::Parse { path, source } => ConfigErrorView::Parse {
                path: path@,
                source: source@,
            },
        }
    }
}

/// The decimal digits of a number, with a minus sign where it is negative.
pub open spec fn signed_decimal(n: int) -> Seq<char> {
    if n < 0 {
        "-"@ + decimal((-n) as nat)
    } else {
        decimal(n as nat)
    }
}

pub(crate) fn signed_text(n: i32) -> (r: String)
    ensures
        r@ == signed_decimal(n as int),
{
    let wide: i64 = n as i64;
    if wide < 0 {
        String::from_str("-").concat(decimal_text((-wide) as u64).as_str())
    } else {
        decimal_text(wide as u64)
    }
}

impl ConfigError {
    /// What the error says.
    pub open spec fn says(&self) -> Seq<char> {
        match self {
            ConfigError::GitSpawn(e) => "failed to invoke `git`: "@ + e@,
            ConfigError::GitConfigFailed { key, status, stderr } => "git config "@ + quoted(key@)
                + " failed (status "@ + signed_decimal(*status as int) + "): "@ + stderr@,
            ConfigError::NoHomeDir => "could not determine home directory"@,
            ConfigError::InvalidUtf8 => "invalid utf-8 in git config output"@,
            ConfigError::GitRequired { reason } => "`git` is required ("@ + reason@
                + ") but no `git` was found on PATH"@,
            ConfigError::Parse { path, source } =>
                "could not parse the git configuration reachable from "@ + shown_path(path@) + ": "@
                + source@,
        }
    }

    /// What the error says.
    pub fn message(&self) -> (r: String)
        ensures
            r@ == self.says(),
    {
        match self {
            ConfigError::GitSpawn(e) => String::from_str("failed to invoke `git`: ").concat(
                e.as_str(),
            ),
            ConfigError::GitConfigFailed { key, status, stderr } => String::from_str(
                "git config ",
            ).concat(debug_text(key.as_str()).as_str()).concat(" failed (status ").concat(
                signed_text(*status).as_str(),
            ).concat("): ").concat(stderr.as_str()),
            ConfigError::NoHomeDir => String::from_str("could not determine home directory"),
            ConfigError::InvalidUtf8 => String::from_str("invalid utf-8 in git config output"),
            ConfigError::GitRequired { reason } => String::from_str("`git` is required (").concat(
                reason,
            ).concat(") but no `git` was found on PATH"),
            ConfigError::Parse { path, source } => String::from_str(
                "could not parse the git configuration reachable from ",
            ).concat(lossy_text(path.as_slice()).as_str()).concat(": ").concat(source.as_str()),
        }
    }
}

/// What the configuration may see of the process environment.
#[derive(Debug, Clone, Default)]
pub struct Env {
    pub home: Option<Vec<u8>>,
    pub xdg_config_home: Option<Vec<u8>>,
    pub git_config_global: Option<Vec<u8>>,
    pub git_config_system: Option<Vec<u8>>,
    pub git_config_nosystem: Option<Vec<u8>>,
    pub git_config_count: Option<Vec<u8>>,
    pub git_config_parameters: Option<Vec<u8>>,
    pub git_dir: Option<Vec<u8>>,
    pub git_ceiling_directories: Option<Vec<u8>>,
    pub scap_root: Option<Vec<u8>>,
    pub scap_config_backend: Option<Vec<u8>>,
    pub scap_list_exclude: Option<Vec<u8>>,
    pub cwd: Option<Vec<u8>>,
    pub path: Option<Vec<u8>>,
    /// The files that may be the system file, in order.
    pub system_probe_candidates: Vec<Vec<u8>>,
}

/// What an [`Env`] holds.
#[verifier::ext_equal]
pub struct EnvView {
    pub home: Option<Seq<u8>>,
    pub xdg_config_home: Option<Seq<u8>>,
    pub git_config_global: Option<Seq<u8>>,
    pub git_config_system: Option<Seq<u8>>,
    pub git_config_nosystem: Option<Seq<u8>>,
    pub git_config_count: Option<Seq<u8>>,
    pub git_config_parameters: Option<Seq<u8>>,
    pub git_dir: Option<Seq<u8>>,
    pub git_ceiling_directories: Option<Seq<u8>>,
    pub scap_root: Option<Seq<u8>>,
    pub scap_config_backend: Option<Seq<u8>>,
    pub scap_list_exclude: Option<Seq<u8>>,
    pub cwd: Option<Seq<u8>>,
    pub path: Option<Seq<u8>>,
    pub system_probe_candidates: Seq<Seq<u8>>,
}

impl View for Env {
    type V = EnvView;

    open spec fn view(&self) -> EnvView {
        EnvView {
            home: opt_view(self.home),
            xdg_config_home: opt_view(self.xdg_config_home),
            git_config_global: opt_view(self.git_config_global),
            git_config_system: opt_view(self.git_config_system),
            git_config_nosystem: opt_view(self.git_config_nosystem),
            git_config_count: opt_view(self.git_config_count),
            git_config_parameters: opt_view(self.git_config_parameters),
            git_dir: opt_view(self.git_dir),
            git_ceiling_directories: opt_view(self.git_ceiling_directories),
            scap_root: opt_view(self.scap_root),
            scap_config_backend: opt_view(self.scap_config_backend),
            scap_list_exclude: opt_view(self.scap_list_exclude),
            cwd: opt_view(self.cwd),
            path: opt_view(self.path),
            system_probe_candidates: views(self.system_probe_candidates@),
        }
    }
}

fn copy_opt(v: &Option<Vec<u8>>) -> (r: Option<Vec<u8>>)
    ensures
        opt_view(r) == opt_view(*v),
{
    match v {
        Some(b) => Some(slice_to_vec(b.as_slice())),
        None => None,
    }
}

/// A variable that counts as unset when it is empty.
pub open spec fn if_set(v: Option<Seq<u8>>) -> Option<Seq<u8>> {
    match v {
        Some(b) if b.len() > 0 => Some(b),
        _ => None,
    }
}

fn non_empty(v: Option<Vec<u8>>) -> (r: Option<Vec<u8>>)
    ensures
        opt_view(r) == if_set(opt_view(v)),
{
    match v {
        Some(b) => if b.len() > 0 {
            Some(b)
        } else {
            None
        },
        None => None,
    }
}

/// A slice of what an optional byte string holds.
pub(crate) fn opt_slice(v: &Option<Vec<u8>>) -> (r: Option<&[u8]>)
    ensures
        match r {
            Some(b) => opt_view(*v) == Some(b@),
            None => opt_view(*v) is None,
        },
{
    match v {
        Some(b) => Some(b.as_slice()),
        None => None,
    }
}

impl Env {
    /// The same environment once more.
    pub fn copy(&self) -> (r: Env)
        ensures
            r@ == self@,
    {
        Env {
            home: copy_opt(&self.home),
            xdg_config_home: copy_opt(&self.xdg_config_home),
            git_config_global: copy_opt(&self.git_config_global),
            git_config_system: copy_opt(&self.git_config_system),
            git_config_nosystem: copy_opt(&self.git_config_nosystem),
            git_config_count: copy_opt(&self.git_config_count),
            git_config_parameters: copy_opt(&self.git_config_parameters),
            git_dir: copy_opt(&self.git_dir),
            git_ceiling_directories: copy_opt(&self.git_ceiling_directories),
            scap_root: copy_opt(&self.scap_root),
            scap_config_backend: copy_opt(&self.scap_config_backend),
            scap_list_exclude: copy_opt(&self.scap_list_exclude),
            cwd: copy_opt(&self.cwd),
            path: copy_opt(&self.path),
            system_probe_candidates: copy_list(&self.system_probe_candidates),
        }
    }

    /// What counts of the variables as a process has them: git takes an empty
    /// `XDG_CONFIG_HOME`, `GIT_CONFIG_PARAMETERS`, `GIT_DIR` and
    /// `GIT_CEILING_DIRECTORIES` for unset, any other for what it is.
    pub fn from_process(read: Env) -> (r: Env)
        ensures
            r@ == (EnvView {
                xdg_config_home: if_set(read@.xdg_config_home),
                git_config_parameters: if_set(read@.git_config_parameters),
                git_dir: if_set(read@.git_dir),
                git_ceiling_directories: if_set(read@.git_ceiling_directories),
                system_probe_candidates: sources::system_candidates(),
                ..read@
            }),
    {
        Env {
            xdg_config_home: non_empty(read.xdg_config_home),
            git_config_parameters: non_empty(read.git_config_parameters),
            git_dir: non_empty(read.git_dir),
            git_ceiling_directories: non_empty(read.git_ceiling_directories),
            system_probe_candidates: sources::default_system_candidates(),
            home: read.home,
            git_config_global: read.git_config_global,
            git_config_system: read.git_config_system,
            git_config_nosystem: read.git_config_nosystem,
            git_config_count: read.git_config_count,
            scap_root: read.scap_root,
            scap_config_backend: read.scap_config_backend,
            scap_list_exclude: read.scap_list_exclude,
            cwd: read.cwd,
            path: read.path,
        }
    }
}

/// What asks for git, the first that does.
pub open spec fn trigger(
    env: EnvView,
    system_probe_matches: int,
    includeif_unevaluated: bool,
) -> Option<Reason> {
    if env.scap_config_backend == Some(encode_utf8("git"@)) {
        Some(Reason::EnvOverride)
    } else if env.git_config_count matches Some(v) && v.len() > 0 && !spells_zero(v) {
        Some(Reason::GitConfigCount)
    } else if env.git_config_parameters is Some {
        Some(Reason::GitConfigParameters)
    } else if system_probe_matches > 1 {
        Some(Reason::SystemProbeAmbiguous)
    } else if includeif_unevaluated {
        Some(Reason::IncludeifUnevaluated)
    } else {
        None
    }
}

/// What asks for git, the first that does.
pub fn needs_git_backend(
    env: &Env,
    system_probe_matches: usize,
    includeif_unevaluated: bool,
) -> (r: Option<Reason>)
    ensures
        r == trigger(env@, system_probe_matches as int, includeif_unevaluated),
{
    if let Some(v) = &env.scap_config_backend {
        if bytes_eq(v.as_slice(), "git".as_bytes()) {
            return Some(Reason::EnvOverride);
        }
    }
    if let Some(v) = &env.git_config_count {
        if git_config_count_applies(v.as_slice()) {
            return Some(Reason::GitConfigCount);
        }
    }
    if env.git_config_parameters.is_some() {
        return Some(Reason::GitConfigParameters);
    }
    if system_probe_matches > 1 {
        return Some(Reason::SystemProbeAmbiguous);
    }
    if includeif_unevaluated {
        return Some(Reason::IncludeifUnevaluated);
    }
    None
}

/// A pattern without the slash it ends in.
pub open spec fn folded(pattern: Seq<char>) -> Seq<char> {
    if pattern.len() > 0 && pattern.last() == '/' {
        pattern.drop_last()
    } else {
        pattern
    }
}

/// Patterns without the slash each may end in, and without the empty ones.
pub open spec fn folded_patterns(patterns: Seq<Seq<char>>) -> Seq<Seq<char>>
    decreases patterns.len(),
{
    if patterns.len() == 0 {
        Seq::empty()
    } else {
        let before = folded_patterns(patterns.drop_last());
        if folded(patterns.last()).len() > 0 {
            before.push(folded(patterns.last()))
        } else {
            before
        }
    }
}

/// The patterns that count: those of the variable where it is set and not
/// empty, else the configured ones.
pub open spec fn effective_exclude(
    variable: Option<Seq<u8>>,
    configured: Seq<Seq<char>>,
) -> Seq<Seq<char>> {
    match if_set(variable) {
        Some(v) => folded_patterns(split_on(shown_path(v), ':')),
        None => folded_patterns(configured),
    }
}

fn fold_patterns(patterns: &Vec<String>) -> (r: Vec<String>)
    ensures
        texts(r@) == folded_patterns(texts(patterns@)),
{
    let ghost all = texts(patterns@);
    let mut out: Vec<String> = Vec::new();
    let mut i: usize = 0;
    assert(all.take(0) =~= Seq::empty());
    assert(texts(out@) =~= folded_patterns(all.take(0)));
    while i < patterns.len()
        invariant
            i <= patterns@.len(),
            all == texts(patterns@),
            texts(out@) == folded_patterns(all.take(i as int)),
        decreases patterns@.len() - i,
    {
        let cs = chars(patterns[i].as_str());
        let mut n: usize = cs.len();
        if n > 0 && cs[n - 1] == '/' {
            n = n - 1;
        }
        let pattern = text(vstd::slice::slice_subrange(cs.as_slice(), 0, n));
        proof {
            assert(all.take(i + 1).drop_last() =~= all.take(i as int));
            assert(all.take(i + 1).last() == patterns@[i as int]@);
            assert(pattern@ =~= folded(patterns@[i as int]@));
        }
        if n > 0 {
            let ghost before = texts(out@);
            let ghost added = pattern@;
            out.push(pattern);
            assert(texts(out@) =~= before.push(added));
        }
        i += 1;
    }
    assert(all.take(i as int) =~= all);
    out
}

/// The patterns that count.
pub fn effective_list_exclude(env: &Env, configured: &Vec<String>) -> (r: Vec<String>)
    ensures
        texts(r@) == effective_exclude(env@.scap_list_exclude, texts(configured@)),
{
    if let Some(v) = &env.scap_list_exclude {
        if v.len() > 0 {
            let whole = chars(lossy_text(v.as_slice()).as_str());
            let parts = crate::text::split_chars(whole.as_slice(), ':');
            let mut list: Vec<String> = Vec::new();
            let mut i: usize = 0;
            while i < parts.len()
                invariant
                    i <= parts@.len(),
                    list@.len() == i,
                    forall|j: int| 0 <= j < i ==> (#[trigger] list@[j])@ == parts@[j]@,
                decreases parts@.len() - i,
            {
                list.push(text(parts[i].as_slice()));
                i += 1;
            }
            assert(texts(list@) =~= crate::text::char_views(parts@));
            return fold_patterns(&list);
        }
    }
    fold_patterns(configured)
}

/// The settings of the program, read once.
#[derive(Debug)]
pub struct ConfigSnapshot {
    env: Env,
    roots: Vec<Vec<u8>>,
    url_scoped_roots: Vec<Vec<u8>>,
    user: Option<String>,
    complete_user: bool,
    list_exclude: Vec<String>,
    list_cache: bool,
    backend: Backend,
    reason: Reason,
}

/// What a [`ConfigSnapshot`] holds.
#[verifier::ext_equal]
pub struct SnapshotView {
    pub env: EnvView,
    pub roots: Seq<Seq<u8>>,
    pub url_scoped_roots: Seq<Seq<u8>>,
    pub user: Option<Seq<char>>,
    pub complete_user: bool,
    pub list_exclude: Seq<Seq<char>>,
    pub list_cache: bool,
    pub backend: Backend,
    pub reason: Reason,
}

impl View for ConfigSnapshot {
    type V = SnapshotView;

    closed spec fn view(&self) -> SnapshotView {
        SnapshotView {
            env: self.env@,
            roots: views(self.roots@),
            url_scoped_roots: views(self.url_scoped_roots@),
            user: opt_string(self.user),
            complete_user: self.complete_user,
            list_exclude: texts(self.list_exclude@),
            list_cache: self.list_cache,
            backend: self.backend,
            reason: self.reason,
        }
    }
}

/// Whether a snapshot holds settings, with its roots as the paths they spell
/// and with the patterns that count.
pub open spec fn is_snapshot_of(v: SnapshotView, settings: SettingsView, env: EnvView) -> bool {
    &&& v.env == env
    &&& are_paths_of(settings.roots, env.home, v.roots)
    &&& are_paths_of(settings.url_scoped_roots, env.home, v.url_scoped_roots)
    &&& v.user == settings.user
    &&& v.complete_user == settings.complete_user
    &&& v.list_exclude == effective_exclude(env.scap_list_exclude, settings.list_exclude)
    &&& v.list_cache == settings.list_cache
}

/// Whether no value of a list is empty.
pub open spec fn all_nonempty(values: Seq<Seq<u8>>) -> bool {
    forall|i: int| 0 <= i < values.len() ==> (#[trigger] values[i]).len() > 0
}

impl ConfigSnapshot {
    /// The snapshot that holds settings.
    fn holding(settings: Settings, env: &Env, backend: Backend, reason: Reason) -> (r: ConfigSnapshot)
        requires
            all_nonempty(settings@.roots),
            all_nonempty(settings@.url_scoped_roots),
        ensures
            is_snapshot_of(r@, settings@, env@),
            r@.backend == backend,
            r@.reason == reason,
    {
        let home = opt_slice(&env.home);
        assert forall|i: int| 0 <= i < settings.roots@.len() implies (
        #[trigger] settings.roots@[i])@.len() > 0 by {
            assert(settings@.roots[i].len() > 0);
        }
        assert forall|i: int| 0 <= i < settings.url_scoped_roots@.len() implies (
        #[trigger] settings.url_scoped_roots@[i])@.len() > 0 by {
            assert(settings@.url_scoped_roots[i].len() > 0);
        }
        let roots = interpolate_all(&settings.roots, home);
        let url_scoped_roots = interpolate_all(&settings.url_scoped_roots, home);
        let list_exclude = effective_list_exclude(env, &settings.list_exclude);
        ConfigSnapshot {
            env: env.copy(),
            roots,
            url_scoped_roots,
            user: settings.user,
            complete_user: settings.complete_user,
            list_exclude,
            list_cache: settings.list_cache,
            backend,
            reason,
        }
    }

    /// The plain roots, in the order of the files.
    pub fn roots(&self) -> (r: &[Vec<u8>])
        ensures
            views(r@) == self@.roots,
    {
        self.roots.as_slice()
    }

    /// The roots of particular URLs, in the order of the files.
    pub fn url_scoped_roots(&self) -> (r: &[Vec<u8>])
        ensures
            views(r@) == self@.url_scoped_roots,
    {
        self.url_scoped_roots.as_slice()
    }

    /// The default owner.
    pub fn user(&self) -> (r: Option<&str>)
        ensures
            match r {
                Some(u) => self@.user == Some(u@),
                None => self@.user is None,
            },
    {
        match &self.user {
            Some(u) => Some(u.as_str()),
            None => None,
        }
    }

    /// Whether a repository that is named alone belongs to the default owner.
    pub fn complete_user(&self) -> (r: bool)
        ensures
            r == self@.complete_user,
    {
        self.complete_user
    }

    /// The patterns of directories that are not listed.
    pub fn list_exclude(&self) -> (r: &[String])
        ensures
            texts(r@) == self@.list_exclude,
    {
        self.list_exclude.as_slice()
    }

    /// Whether listings are cached.
    pub fn list_cache(&self) -> (r: bool)
        ensures
            r == self@.list_cache,
    {
        self.list_cache
    }

    /// Whether there are roots of particular URLs.
    pub fn has_url_sections(&self) -> (r: bool)
        ensures
            r == (self@.url_scoped_roots.len() > 0),
    {
        self.url_scoped_roots.len() > 0
    }

    /// Who read the configuration.
    pub fn backend(&self) -> (r: Backend)
        ensures
            r == self@.backend,
    {
        self.backend
    }

    /// Why it was read by whom it was.
    pub fn reason(&self) -> (r: Reason)
        ensures
            r == self@.reason,
    {
        self.reason
    }

    /// The environment that the settings were read in.
    pub fn env(&self) -> (r: &Env)
        ensures
            r@ == self@.env,
    {
        &self.env
    }
}

/// The snapshot that the sections of configuration files make.
pub fn from_file(sections: &[Section], env: &Env) -> (r: ConfigSnapshot)
    ensures
        is_snapshot_of(r@, file_settings(section_views(sections@)), env@),
        r@.backend is InProcess,
        r@.reason == (if r@.url_scoped_roots.len() == 0 {
            Reason::InProcess
        } else {
            Reason::UrlSections
        }),
{
    let settings = settings_of(sections);
    let ghost all = section_views(sections@);
    proof {
        let keep = |v: Seq<u8>| v.len() > 0;
        lemma_kept_from(section_values(all, "scap"@, false, "root"@), keep);
        lemma_kept_from(section_values(all, "scap"@, true, "root"@), keep);
    }
    let reason = if settings.url_scoped_roots.len() == 0 {
        Reason::InProcess
    } else {
        Reason::UrlSections
    };
    ConfigSnapshot::holding(settings, env, Backend::InProcess, reason)
}

/// Every root that is listed is not empty.
proof fn lemma_listed_roots(entries: Seq<git_backend::Listed>)
    ensures
        all_nonempty(listed_settings(entries).roots),
        all_nonempty(listed_settings(entries).url_scoped_roots),
    decreases entries.len(),
{
    if entries.len() > 0 {
        lemma_listed_roots(entries.drop_last());
    }
}

/// The snapshot that git's listing makes.
pub fn from_listing(listing: &[u8], env: &Env, reason: Reason) -> (r: ConfigSnapshot)
    ensures
        is_snapshot_of(
            r@,
            listed_settings(entries_of(records(split_on(listing@, 0u8)))),
            env@,
        ),
        r@.backend is Git,
        r@.reason == reason,
{
    proof {
        lemma_listed_roots(entries_of(records(split_on(listing@, 0u8))));
    }
    ConfigSnapshot::holding(settings_of_listing(listing), env, Backend::Git, reason)
}

/// How far the configuration has been read.
#[derive(Debug)]
pub enum Stage<'a> {
    /// Nothing has been looked at but the environment.
    Start,
    /// The files are known, and how many of them are system files that were
    /// found.
    Listed { system_probe_matches: usize },
    /// The files have been read.
    Parsed { system_probe_matches: usize, sections: &'a [Section] },
}

/// What is to be done next.
#[derive(Debug)]
pub enum LoadStep {
    /// Git has to list the settings.
    AskGit(Reason),
    /// The files have to be found.
    Enumerate,
    /// The files have to be read.
    Parse,
    Loaded(ConfigSnapshot),
}

/// Whether sections hold an inclusion that only git can evaluate.
pub open spec fn needs_evaluation(sections: Seq<SectionView>) -> bool {
    exists|i: int| 0 <= i < sections.len() && is_unevaluable(#[trigger] sections[i])
}

/// What is to be done next to read the configuration.
pub fn load(env: &Env, stage: Stage) -> (r: LoadStep)
    ensures
        match stage {
            Stage::Start => match trigger(env@, 0, false) {
                Some(reason) => r == LoadStep::AskGit(reason),
                None => r is Enumerate,
            },
            Stage::Listed { system_probe_matches } => match trigger(
                env@,
                system_probe_matches as int,
                false,
            ) {
                Some(reason) => r == LoadStep::AskGit(reason),
                None => r is Parse,
            },
            Stage::Parsed { system_probe_matches, sections } => match trigger(
                env@,
                system_probe_matches as int,
                needs_evaluation(section_views(sections@)),
            ) {
                Some(reason) => r == LoadStep::AskGit(reason),
                None => r is Loaded && is_snapshot_of(
                    (r->Loaded_0)@,
                    file_settings(section_views(sections@)),
                    env@,
                ) && (r->Loaded_0)@.backend is InProcess && (r->Loaded_0)@.reason == (if (
                r->Loaded_0)@.url_scoped_roots.len() == 0 {
                    Reason::InProcess
                } else {
                    Reason::UrlSections
                }),
            },
        },
{
    match stage {
        Stage::Start => match needs_git_backend(env, 0, false) {
            Some(reason) => LoadStep::AskGit(reason),
            None => LoadStep::Enumerate,
        },
        Stage::Listed { system_probe_matches } => match needs_git_backend(
            env,
            system_probe_matches,
            false,
        ) {
            Some(reason) => LoadStep::AskGit(reason),
            None => LoadStep::Parse,
        },
        Stage::Parsed { system_probe_matches, sections } => {
            let unevaluated = has_unevaluable_includeif(sections);
            match needs_git_backend(env, system_probe_matches, unevaluated) {
                Some(reason) => LoadStep::AskGit(reason),
                None => LoadStep::Loaded(from_file(sections, env)),
            }
        },
    }
}

/// What asks for git early still does when more is known, and is the same
/// reason: looking at files before asking changes nothing.
pub proof fn law_early_trigger_stands(env: EnvView, matches: int, unevaluated: bool)
    ensures
        trigger(env, 0, false) is Some ==> trigger(env, matches, unevaluated) == trigger(
            env,
            0,
            false,
        ),
        trigger(env, matches, false) is Some ==> trigger(env, matches, unevaluated) == trigger(
            env,
            matches,
            false,
        ),
{
}

/// Both readers make the same snapshot of the same sections, but for who read
/// them: where one snapshot holds what the sections say and another what git
/// lists for them, their settings agree, and so do their roots wherever those
/// rest on no password database.
pub proof fn law_both_snapshots_agree(
    sections: Seq<SectionView>,
    env: EnvView,
    a: SnapshotView,
    b: SnapshotView,
)
    requires
        forall|i: int| 0 <= i < sections.len() ==> git_backend::is_listable(#[trigger] sections[i]),
        is_snapshot_of(a, file_settings(sections), env),
        is_snapshot_of(b, listed_settings(git_backend::listing_of(sections)), env),
    ensures
        a.user == b.user,
        a.complete_user == b.complete_user,
        a.list_exclude == b.list_exclude,
        a.list_cache == b.list_cache,
        a.roots.len() == b.roots.len(),
        a.url_scoped_roots.len() == b.url_scoped_roots.len(),
        forall|i: int|
            0 <= i < a.roots.len() && !expand::names_user(file_settings(sections).roots[i])
                ==> #[trigger] a.roots[i] == b.roots[i],
        forall|i: int|
            0 <= i < a.url_scoped_roots.len() && !expand::names_user(
                file_settings(sections).url_scoped_roots[i],
            ) ==> #[trigger] a.url_scoped_roots[i] == b.url_scoped_roots[i],
{
    git_backend::law_both_readers_agree(sections);
    assert forall|i: int|
        0 <= i < a.roots.len() && !expand::names_user(
            file_settings(sections).roots[i],
        ) implies #[trigger] a.roots[i] == b.roots[i] by {
        assert(expand::is_path_of(file_settings(sections).roots[i], env.home, b.roots[i]));
    }
    assert forall|i: int|
        0 <= i < a.url_scoped_roots.len() && !expand::names_user(
            file_settings(sections).url_scoped_roots[i],
        ) implies #[trigger] a.url_scoped_roots[i] == b.url_scoped_roots[i] by {
        assert(expand::is_path_of(
            file_settings(sections).url_scoped_roots[i],
            env.home,
            b.url_scoped_roots[i],
        ));
    }
}

/// The roots that the environment names, where it names any.
pub open spec fn env_roots_of(env: EnvView) -> Option<Seq<Seq<u8>>> {
    match if_set(env.scap_root) {
        Some(v) => Some(split_on(v, 0x3au8)),
        None => None,
    }
}

/// The roots before they are cleaned: those of the environment, else the
/// plain ones, last first, else `scap` in the home directory; with those of
/// particular URLs behind them where all are asked for and the environment
/// names none.
pub open spec fn raw_roots(v: SnapshotView, all: bool) -> Option<Seq<Seq<u8>>> {
    match env_roots_of(v.env) {
        Some(list) => Some(list),
        None => {
            let more = if all {
                v.url_scoped_roots
            } else {
                Seq::empty()
            };
            if v.roots.len() > 0 {
                Some(v.roots.reverse() + more)
            } else {
                match v.env.home {
                    Some(home) => Some(seq![joined_path(home, encode_utf8("scap"@))] + more),
                    None => None,
                }
            }
        },
    }
}

/// Paths, each cleaned.
pub open spec fn all_cleaned(paths: Seq<Seq<u8>>) -> Seq<Seq<u8>> {
    Seq::new(paths.len(), |i: int| cleaned(paths[i]))
}

/// What is known of where a path really lies, with nothing known beyond the
/// end of the list.
pub open spec fn known_at(canonical: Seq<Option<Vec<u8>>>, i: int) -> Option<Seq<u8>> {
    if 0 <= i < canonical.len() {
        opt_view(canonical[i])
    } else {
        None
    }
}

/// Paths, each replaced by where it really lies, as far as that is known.
pub open spec fn all_resolved(paths: Seq<Seq<u8>>, canonical: Seq<Option<Vec<u8>>>) -> Seq<Seq<u8>> {
    Seq::new(
        paths.len(),
        |i: int|
            match known_at(canonical, i) {
                Some(p) => p,
                None => paths[i],
            },
    )
}

/// A list with only the first of equal elements.
pub open spec fn deduped<T>(s: Seq<T>) -> Seq<T>
    decreases s.len(),
{
    if s.len() == 0 {
        s
    } else {
        let before = deduped(s.drop_last());
        if before.contains(s.last()) {
            before
        } else {
            before.push(s.last())
        }
    }
}

/// The roots, where there is one: cleaned, where they really lie, each once.
pub open spec fn roots_of(
    v: SnapshotView,
    all: bool,
    canonical: Seq<Option<Vec<u8>>>,
) -> Option<Seq<Seq<u8>>> {
    match raw_roots(v, all) {
        Some(list) => Some(deduped(all_resolved(all_cleaned(list), canonical))),
        None => None,
    }
}

/// Whether a list holds a path.
fn holds(list: &Vec<Vec<u8>>, path: &[u8]) -> (r: bool)
    ensures
        r == views(list@).contains(path@),
{
    let mut i: usize = 0;
    while i < list.len()
        invariant
            i <= list@.len(),
            forall|j: int| 0 <= j < i ==> (#[trigger] list@[j])@ != path@,
        decreases list@.len() - i,
    {
        if bytes_eq(list[i].as_slice(), path) {
            assert(views(list@)[i as int] == path@);
            return true;
        }
        i += 1;
    }
    assert forall|j: int| 0 <= j < views(list@).len() implies views(list@)[j] != path@ by {
        assert(list@[j]@ != path@);
    }
    false
}

/// A list with only the first of equal paths.
pub fn dedup_paths(list: &Vec<Vec<u8>>) -> (r: Vec<Vec<u8>>)
    ensures
        views(r@) == deduped(views(list@)),
{
    let ghost all = views(list@);
    let mut out: Vec<Vec<u8>> = Vec::new();
    let mut i: usize = 0;
    assert(all.take(0) =~= Seq::empty());
    assert(views(out@) =~= deduped(all.take(0)));
    while i < list.len()
        invariant
            i <= list@.len(),
            all == views(list@),
            views(out@) == deduped(all.take(i as int)),
        decreases list@.len() - i,
    {
        proof {
            assert(all.take(i + 1).drop_last() =~= all.take(i as int));
            assert(all.take(i + 1).last() == list@[i as int]@);
        }
        if !holds(&out, list[i].as_slice()) {
            let ghost before = views(out@);
            out.push(slice_to_vec(list[i].as_slice()));
            assert(views(out@) =~= before.push(list@[i as int]@));
        }
        i += 1;
    }
    assert(all.take(i as int) =~= all);
    out
}

impl ConfigSnapshot {
    /// The roots that the environment names, where it names any.
    fn env_roots(&self) -> (r: Option<Vec<Vec<u8>>>)
        ensures
            match r {
                Some(list) => env_roots_of(self@.env) == Some(views(list@)),
                None => env_roots_of(self@.env) is None,
            },
    {
        match &self.env.scap_root {
            Some(v) => if v.len() > 0 {
                Some(split(v.as_slice(), 0x3a))
            } else {
                None
            },
            None => None,
        }
    }

    /// The roots before it is looked up where they really lie.
    pub fn root_candidates(&self, all: bool) -> (r: Result<Vec<Vec<u8>>, ConfigError>)
        ensures
            match raw_roots(self@, all) {
                Some(list) => r is Ok && views((r->Ok_0)@) == all_cleaned(list),
                None => r is Err && (r->Err_0)@ == ConfigErrorView::NoHomeDir,
            },
    {
        let mut list: Vec<Vec<u8>> = Vec::new();
        match self.env_roots() {
            Some(named) => {
                list = named;
            },
            None => {
                let mut n: usize = self.roots.len();
                let ghost plain = views(self.roots@);
                assert(views(list@) =~= plain.reverse().take(0));
                while n > 0
                    invariant
                        n <= self.roots@.len(),
                        plain == views(self.roots@),
                        list@.len() == self.roots@.len() - n,
                        views(list@) == plain.reverse().take(self.roots@.len() - n),
                    decreases n,
                {
                    n = n - 1;
                    let ghost before = views(list@);
                    list.push(slice_to_vec(self.roots[n].as_slice()));
                    assert(views(list@) =~= before.push(plain[n as int]));
                    assert(views(list@) =~= plain.reverse().take(self.roots@.len() - n));
                }
                assert(plain.reverse().take(plain.len() as int) =~= plain.reverse());
                if list.len() == 0 {
                    match &self.env.home {
                        Some(home) => {
                            list.push(join(home.as_slice(), "scap".as_bytes()));
                            assert(views(list@) =~= seq![
                                joined_path(home@, encode_utf8("scap"@)),
                            ]);
                        },
                        None => return Err(ConfigError::NoHomeDir),
                    }
                }
                let ghost first = views(list@);
                let ghost scoped = views(self.url_scoped_roots@);
                if all {
                    let mut k: usize = 0;
                    assert(first + scoped.take(0) =~= first);
                    while k < self.url_scoped_roots.len()
                        invariant
                            k <= self.url_scoped_roots@.len(),
                            scoped == views(self.url_scoped_roots@),
                            views(list@) == first + scoped.take(k as int),
                        decreases self.url_scoped_roots@.len() - k,
                    {
                        let ghost before = views(list@);
                        list.push(slice_to_vec(self.url_scoped_roots[k].as_slice()));
                        assert(views(list@) =~= before.push(scoped[k as int]));
                        k += 1;
                        assert(views(list@) =~= first + scoped.take(k as int));
                    }
                    assert(scoped.take(k as int) =~= scoped);
                } else {
                    assert(first + Seq::<Seq<u8>>::empty() =~= first);
                }
            },
        }
        assert(raw_roots(self@, all) == Some(views(list@)));
        let mut out: Vec<Vec<u8>> = Vec::new();
        let mut i: usize = 0;
        while i < list.len()
            invariant
                i <= list@.len(),
                out@.len() == i,
                forall|j: int| 0 <= j < i ==> (#[trigger] out@[j])@ == cleaned(list@[j]@),
            decreases list@.len() - i,
        {
            out.push(clean_path(list[i].as_slice()));
            i += 1;
        }
        assert(views(out@) =~= all_cleaned(views(list@)));
        Ok(out)
    }
}

/// The roots of the program, given where the candidates really lie, as far as
/// that is known.
pub fn resolve_roots(
    snapshot: &ConfigSnapshot,
    all: bool,
    canonical: &[Option<Vec<u8>>],
) -> (r: Result<Vec<Vec<u8>>, ConfigError>)
    ensures
        match roots_of(snapshot@, all, canonical@) {
            Some(list) => r is Ok && views((r->Ok_0)@) == list,
            None => r is Err && (r->Err_0)@ == ConfigErrorView::NoHomeDir,
        },
{
    let list = match snapshot.root_candidates(all) {
        Ok(list) => list,
        Err(e) => return Err(e),
    };
    let mut out: Vec<Vec<u8>> = Vec::new();
    let mut i: usize = 0;
    let ghost want = all_resolved(views(list@), canonical@);
    while i < list.len()
        invariant
            i <= list@.len(),
            out@.len() == i,
            want == all_resolved(views(list@), canonical@),
            forall|j: int| 0 <= j < i ==> (#[trigger] out@[j])@ == want[j],
        decreases list@.len() - i,
    {
        let known = if i < canonical.len() {
            copy_opt(&canonical[i])
        } else {
            None
        };
        match known {
            Some(p) => out.push(p),
            None => out.push(slice_to_vec(list[i].as_slice())),
        }
        i += 1;
    }
    assert(views(out@) =~= want);
    Ok(dedup_paths(&out))
}

/// What is left of a list when later ones of equal elements go: none twice,
/// none lost, the first still first.
proof fn lemma_deduped<T>(s: Seq<T>)
    ensures
        deduped(s).no_duplicates(),
        forall|x: T| #[trigger] deduped(s).contains(x) == s.contains(x),
        s.len() > 0 ==> deduped(s).len() > 0 && deduped(s)[0] == s[0],
    decreases s.len(),
{
    if s.len() > 0 {
        let shorter = s.drop_last();
        lemma_deduped(shorter);
        let before = deduped(shorter);
        assert forall|x: T| #[trigger] deduped(s).contains(x) == s.contains(x) by {
            if s.contains(x) {
                let k = choose|k: int| 0 <= k < s.len() && s[k] == x;
                if k < shorter.len() {
                    assert(shorter[k] == x);
                    assert(before.contains(x));
                    let m = choose|m: int| 0 <= m < before.len() && before[m] == x;
                    assert(deduped(s)[m] == x);
                } else if !before.contains(x) {
                    assert(deduped(s)[before.len() as int] == x);
                }
            }
            if deduped(s).contains(x) {
                let m = choose|m: int| 0 <= m < deduped(s).len() && deduped(s)[m] == x;
                if m < before.len() {
                    assert(before[m] == x);
                    assert(before.contains(x));
                    assert(shorter.contains(x));
                    let k = choose|k: int| 0 <= k < shorter.len() && shorter[k] == x;
                    assert(s[k] == x);
                } else {
                    assert(s[s.len() - 1] == x);
                }
            }
        }
        if shorter.len() == 0 {
            assert(before.len() == 0);
        }
    }
}

/// Whether an element occurs in a list before another one does.
pub open spec fn comes_first<T>(s: Seq<T>, x: T, y: T) -> bool {
    exists|k: int|
        0 <= k < s.len() && #[trigger] s[k] == x && forall|m: int|
            0 <= m <= k ==> #[trigger] s[m] != y
}

/// What is left of a list when later ones of equal elements go stands in the
/// order in which it was met first.
proof fn lemma_deduped_order<T>(s: Seq<T>)
    ensures
        forall|i: int, j: int|
            0 <= i < j < deduped(s).len() ==> comes_first(
                s,
                #[trigger] deduped(s)[i],
                #[trigger] deduped(s)[j],
            ),
    decreases s.len(),
{
    if s.len() > 0 {
        let shorter = s.drop_last();
        lemma_deduped_order(shorter);
        lemma_deduped(shorter);
        let before = deduped(shorter);
        let after = deduped(s);
        assert forall|i: int, j: int| 0 <= i < j < after.len() implies comes_first(
            s,
            #[trigger] after[i],
            #[trigger] after[j],
        ) by {
            assert(before[i] == after[i]);
            if j < before.len() {
                assert(before[j] == after[j]);
                assert(comes_first(shorter, before[i], before[j]));
                let k = choose|k: int|
                    0 <= k < shorter.len() && #[trigger] shorter[k] == before[i] && forall|m: int|
                        0 <= m <= k ==> #[trigger] shorter[m] != before[j];
                assert(s[k] == after[i]);
                assert forall|m: int| 0 <= m <= k implies #[trigger] s[m] != after[j] by {
                    assert(shorter[m] == s[m]);
                }
            } else {
                assert(before.contains(before[i]));
                assert(shorter.contains(before[i]));
                let k = choose|k: int| 0 <= k < shorter.len() && shorter[k] == before[i];
                assert(s[k] == after[i]);
                assert forall|m: int| 0 <= m <= k implies #[trigger] s[m] != after[j] by {
                    assert(shorter[m] == s[m]);
                    assert(shorter.contains(shorter[m]));
                    assert(!before.contains(s.last()));
                }
            }
        }
    }
}

/// There is a first root, no root occurs twice, and none is lost.
pub proof fn law_roots_are_distinct(v: SnapshotView, all: bool, canonical: Seq<Option<Vec<u8>>>)
    ensures
        roots_of(v, all, canonical) is None == (env_roots_of(v.env) is None && v.roots.len() == 0
            && v.env.home is None),
        roots_of(v, all, canonical) matches Some(roots) ==> {
            let found = all_resolved(all_cleaned(raw_roots(v, all)->0), canonical);
            &&& roots.len() > 0
            &&& roots[0] == found[0]
            &&& roots.no_duplicates()
            &&& forall|root: Seq<u8>| #[trigger] roots.contains(root) == found.contains(root)
        },
{
    if let Some(list) = env_roots_of(v.env) {
        crate::bytes::lemma_split_nonempty(if_set(v.env.scap_root)->0, 0x3au8);
    }
    if let Some(list) = raw_roots(v, all) {
        lemma_deduped(all_resolved(all_cleaned(list), canonical));
    }
}

/// Where the environment names roots, nothing else does.
pub proof fn law_environment_wins(
    a: SnapshotView,
    b: SnapshotView,
    all: bool,
    other: bool,
    canonical: Seq<Option<Vec<u8>>>,
)
    requires
        env_roots_of(a.env) is Some,
        a.env.scap_root == b.env.scap_root,
    ensures
        roots_of(a, all, canonical) == roots_of(b, other, canonical),
{
}

/// Whether the environment names roots.
pub open spec fn names_roots(env: EnvView) -> bool {
    env.scap_root matches Some(v) && v.len() > 0
}

/// Where the environment names no roots and all are asked for, every
/// configured root is among the candidates, whether it is a plain one or one
/// of a particular URL, and nothing else is, but `scap` in the home directory
/// where there is no plain root. Where not all are asked for, those of
/// particular URLs are not among them on their own account.
pub proof fn law_every_configured_root_is_a_candidate(v: SnapshotView)
    requires
        !names_roots(v.env),
        v.roots.len() > 0 || v.env.home is Some,
    ensures
        raw_roots(v, true) is Some,
        raw_roots(v, false) is Some,
        ({
            let every = all_cleaned(raw_roots(v, true)->0);
            let plain = all_cleaned(raw_roots(v, false)->0);
            let default = cleaned(joined_path(v.env.home->0, encode_utf8("scap"@)));
            &&& forall|i: int|
                0 <= i < v.roots.len() ==> every.contains(cleaned(#[trigger] v.roots[i]))
                    && plain.contains(cleaned(v.roots[i]))
            &&& forall|i: int|
                0 <= i < v.url_scoped_roots.len() ==> every.contains(
                    cleaned(#[trigger] v.url_scoped_roots[i]),
                )
            &&& v.roots.len() == 0 ==> every.contains(default) && plain.contains(default)
            &&& forall|x: Seq<u8>| #[trigger]
                plain.contains(x) ==> (exists|i: int|
                    0 <= i < v.roots.len() && x == cleaned(#[trigger] v.roots[i])) || (
                v.roots.len() == 0 && x == default)
            &&& forall|x: Seq<u8>| #[trigger]
                every.contains(x) ==> plain.contains(x) || (exists|i: int|
                    0 <= i < v.url_scoped_roots.len() && x == cleaned(
                        #[trigger] v.url_scoped_roots[i],
                    ))
            &&& every.len() == plain.len() + v.url_scoped_roots.len()
            &&& has_prefix(every, plain)
        }),
{
    let every = all_cleaned(raw_roots(v, true)->0);
    let plain = all_cleaned(raw_roots(v, false)->0);
    let n = v.roots.len() as int;
    assert forall|i: int| 0 <= i < n implies every.contains(cleaned(#[trigger] v.roots[i]))
        && plain.contains(cleaned(v.roots[i])) by {
        assert(every[n - 1 - i] == cleaned(v.roots[i]));
        assert(plain[n - 1 - i] == cleaned(v.roots[i]));
    }
    assert forall|i: int| 0 <= i < v.url_scoped_roots.len() implies every.contains(
        cleaned(#[trigger] v.url_scoped_roots[i]),
    ) by {
        assert(every[plain.len() + i] == cleaned(v.url_scoped_roots[i]));
    }
    if n == 0 {
        assert(every[0] == plain[0]);
    }
    assert forall|x: Seq<u8>| #[trigger] plain.contains(x) implies (exists|i: int|
        0 <= i < v.roots.len() && x == cleaned(#[trigger] v.roots[i])) || (n == 0 && x == cleaned(
        joined_path(v.env.home->0, encode_utf8("scap"@)),
    )) by {
        let k = choose|k: int| 0 <= k < plain.len() && plain[k] == x;
        if n > 0 {
            assert(x == cleaned(v.roots[n - 1 - k]));
        }
    }
    assert forall|x: Seq<u8>| #[trigger] every.contains(x) implies plain.contains(x) || (exists|
        i: int,
    |
        0 <= i < v.url_scoped_roots.len() && x == cleaned(#[trigger] v.url_scoped_roots[i])) by {
        let k = choose|k: int| 0 <= k < every.len() && every[k] == x;
        if k < plain.len() {
            assert(plain[k] == x);
        } else {
            assert(x == cleaned(v.url_scoped_roots[k - plain.len()]));
        }
    }
    assert(every.take(plain.len() as int) =~= plain);
}

/// A root that is configured later stands before those configured earlier,
/// and before those of particular URLs, which stand in their order.
pub proof fn law_later_roots_come_first(v: SnapshotView, all: bool)
    requires
        !names_roots(v.env),
        v.roots.len() > 0,
    ensures
        raw_roots(v, all) matches Some(list) && {
            let found = all_cleaned(list);
            &&& found[0] == cleaned(v.roots.last())
            &&& forall|i: int|
                0 <= i < v.roots.len() ==> found[v.roots.len() - 1 - i] == cleaned(
                    #[trigger] v.roots[i],
                )
            &&& forall|i: int|
                all && 0 <= i < v.url_scoped_roots.len() ==> found[v.roots.len() + i] == cleaned(
                    #[trigger] v.url_scoped_roots[i],
                )
        },
{
}

/// The roots that the environment names are what stands between the colons
/// of the variable: put together again they give it back, and none holds one.
pub proof fn law_environment_names_what_it_says(v: SnapshotView, all: bool)
    requires
        names_roots(v.env),
    ensures
        raw_roots(v, all) matches Some(list) && list.len() > 0 && joined(list, 0x3au8)
            == v.env.scap_root->0 && forall|i: int|
            0 <= i < list.len() ==> !(#[trigger] list[i]).contains(0x3au8),
{
    crate::bytes::lemma_join_split(v.env.scap_root->0, 0x3au8);
    crate::bytes::lemma_split_nonempty(v.env.scap_root->0, 0x3au8);
    crate::bytes::lemma_split_pieces(v.env.scap_root->0, 0x3au8);
}

/// Each candidate is found again where it really lies, or as it is where that
/// is not known, and every root is found so; of two roots the one stands
/// first that was found first.
pub proof fn law_roots_are_where_the_candidates_lie(
    v: SnapshotView,
    all: bool,
    canonical: Seq<Option<Vec<u8>>>,
)
    requires
        raw_roots(v, all) is Some,
    ensures
        roots_of(v, all, canonical) matches Some(roots) && {
            let list = raw_roots(v, all)->0;
            let lies = |k: int|
                if k < canonical.len() && canonical[k] is Some {
                    canonical[k]->0@
                } else {
                    cleaned(list[k])
                };
            &&& forall|k: int| 0 <= k < list.len() ==> roots.contains(#[trigger] lies(k))
            &&& forall|i: int|
                0 <= i < roots.len() ==> exists|k: int|
                    0 <= k < list.len() && #[trigger] lies(k) == #[trigger] roots[i]
            &&& forall|i: int, j: int|
                0 <= i < j < roots.len() ==> roots[i] != roots[j] && exists|k: int|
                    0 <= k < list.len() && #[trigger] lies(k) == #[trigger] roots[i] && forall|m: int|
                        0 <= m <= k ==> #[trigger] lies(m) != #[trigger] roots[j]
        },
{
    let list = raw_roots(v, all)->0;
    let found = all_resolved(all_cleaned(list), canonical);
    let roots = deduped(found);
    let lies = |k: int|
        if k < canonical.len() && canonical[k] is Some {
            canonical[k]->0@
        } else {
            cleaned(list[k])
        };
    lemma_deduped(found);
    lemma_deduped_order(found);
    assert(forall|k: int| 0 <= k < list.len() ==> #[trigger] lies(k) == found[k]);
    assert forall|k: int| 0 <= k < list.len() implies roots.contains(#[trigger] lies(k)) by {
        assert(found.contains(found[k]));
    }
    assert forall|i: int| 0 <= i < roots.len() implies exists|k: int|
        0 <= k < list.len() && #[trigger] lies(k) == #[trigger] roots[i] by {
        assert(roots.contains(roots[i]));
        assert(found.contains(roots[i]));
        let k = choose|k: int| 0 <= k < found.len() && found[k] == roots[i];
        assert(lies(k) == roots[i]);
    }
    assert forall|i: int, j: int| 0 <= i < j < roots.len() implies roots[i] != roots[j] && exists|
        k: int,
    |
        0 <= k < list.len() && #[trigger] lies(k) == #[trigger] roots[i] && forall|m: int|
            0 <= m <= k ==> #[trigger] lies(m) != #[trigger] roots[j] by {
        assert(comes_first(found, roots[i], roots[j]));
        let k = choose|k: int|
            0 <= k < found.len() && #[trigger] found[k] == roots[i] && forall|m: int|
                0 <= m <= k ==> #[trigger] found[m] != roots[j];
        assert(lies(k) == roots[i]);
        assert forall|m: int| 0 <= m <= k implies #[trigger] lies(m) != #[trigger] roots[j] by {
            assert(found[m] != roots[j]);
        }
    }
}

/// Whether a remote is one of CodeCommit, as it was given or as it is kept.
pub open spec fn is_codecommit_remote(url: Seq<char>) -> bool {
    has_prefix(url, "codecommit://"@) || is_codecommit(url)
}

/// Whether the root of a URL has to be asked of git: where no variable names
/// it, the URL is not one of CodeCommit, and there are roots of particular
/// URLs.
pub open spec fn asks_git(v: SnapshotView, url: Seq<char>) -> bool {
    env_roots_of(v.env) is None && !is_codecommit_remote(url) && v.url_scoped_roots.len() > 0
}

/// The root of a URL, given what git answered, where it was asked and had an
/// answer: the first that the environment names; for CodeCommit the first of
/// all roots; git's answer; the last plain root as it is; else the first of
/// all roots.
pub open spec fn url_root(
    v: SnapshotView,
    url: Seq<char>,
    answer: Option<Seq<u8>>,
    canonical: Seq<Option<Vec<u8>>>,
) -> Option<Seq<u8>> {
    let primary = match roots_of(v, false, canonical) {
        Some(roots) => Some(roots[0]),
        None => None,
    };
    match env_roots_of(v.env) {
        Some(list) => Some(cleaned(list[0])),
        None => if is_codecommit_remote(url) {
            primary
        } else if v.url_scoped_roots.len() > 0 && answer is Some {
            Some(cleaned(answer->0))
        } else if v.roots.len() > 0 {
            Some(cleaned(v.roots.last()))
        } else {
            primary
        },
    }
}

fn codecommit_remote(url: &str) -> (r: bool)
    ensures
        r == is_codecommit_remote(url@),
{
    let cs = chars(url);
    chars_start_with(cs.as_slice(), chars("codecommit://").as_slice()) || is_codecommit_input(url)
}

impl ConfigSnapshot {
    /// Whether the root of a URL has to be asked of git.
    pub fn needs_urlmatch(&self, url: &str) -> (r: bool)
        ensures
            r == asks_git(self@, url@),
    {
        self.env_roots().is_none() && !codecommit_remote(url) && self.url_scoped_roots.len() > 0
    }
}

/// The first of all roots.
fn primary_root(snapshot: &ConfigSnapshot, canonical: &[Option<Vec<u8>>]) -> (r: Result<
    Vec<u8>,
    ConfigError,
>)
    ensures
        match roots_of(snapshot@, false, canonical@) {
            Some(list) => r is Ok && (r->Ok_0)@ == list[0],
            None => r is Err && (r->Err_0)@ == ConfigErrorView::NoHomeDir,
        },
{
    proof {
        law_roots_are_distinct(snapshot@, false, canonical@);
    }
    match resolve_roots(snapshot, false, canonical) {
        Ok(roots) => {
            if roots.len() == 0 {
                assert(views(roots@).len() == 0);
                return Err(ConfigError::NoHomeDir);
            }
            assert(views(roots@)[0] == roots@[0]@);
            Ok(slice_to_vec(roots[0].as_slice()))
        },
        Err(e) => Err(e),
    }
}

/// The root of a URL, given what git answered where it was asked, and where
/// the candidates really lie.
pub fn root_for_url(
    snapshot: &ConfigSnapshot,
    url: &str,
    answer: Option<&[u8]>,
    canonical: &[Option<Vec<u8>>],
) -> (r: Result<Vec<u8>, ConfigError>)
    ensures
        match url_root(
            snapshot@,
            url@,
            match answer {
                Some(a) => Some(a@),
                None => None,
            },
            canonical@,
        ) {
            Some(root) => r is Ok && (r->Ok_0)@ == root,
            None => r is Err && (r->Err_0)@ == ConfigErrorView::NoHomeDir,
        },
{
    if let Some(list) = snapshot.env_roots() {
        proof {
            crate::bytes::lemma_split_nonempty(if_set(snapshot@.env.scap_root)->0, 0x3au8);
            assert(views(list@).len() > 0);
            assert(views(list@)[0] == list@[0]@);
        }
        return Ok(clean_path(list[0].as_slice()));
    }
    if codecommit_remote(url) {
        return primary_root(snapshot, canonical);
    }
    if snapshot.has_url_sections() {
        if let Some(a) = answer {
            return Ok(clean_path(a));
        }
    }
    let n: usize = snapshot.roots.len();
    if n > 0 {
        assert(views(snapshot.roots@).last() == snapshot.roots@[n - 1]@);
        return Ok(clean_path(snapshot.roots[n - 1].as_slice()));
    }
    primary_root(snapshot, canonical)
}

/// Git's answer counts only where git has to be asked.
pub proof fn law_answer_counts_only_when_asked(
    v: SnapshotView,
    url: Seq<char>,
    a: Option<Seq<u8>>,
    b: Option<Seq<u8>>,
    canonical: Seq<Option<Vec<u8>>>,
)
    requires
        !asks_git(v, url),
    ensures
        url_root(v, url, a, canonical) == url_root(v, url, b, canonical),
{
}

/// What names the root of a URL, in order: the environment, by its first
/// path; git, where it is asked and knows; else the plain root that was
/// configured last, as it is. For CodeCommit it is the first of all roots, as
/// it is for any URL where nothing is known of where they lie. The URL itself plays no other
/// part than to tell whether it is one of CodeCommit.
pub proof fn law_root_of_a_url(
    v: SnapshotView,
    url: Seq<char>,
    answer: Option<Seq<u8>>,
    canonical: Seq<Option<Vec<u8>>>,
)
    ensures
        names_roots(v.env) ==> url_root(v, url, answer, canonical) == Some(
            cleaned((raw_roots(v, false)->0)[0]),
        ),
        asks_git(v, url) <==> !names_roots(v.env) && v.url_scoped_roots.len() > 0
            && !is_codecommit_remote(url),
        asks_git(v, url) && answer is Some ==> url_root(v, url, answer, canonical) == Some(
            cleaned(answer->0),
        ),
        !asks_git(v, url) || answer is None ==> ({
            let none = Seq::<Option<Vec<u8>>>::empty();
            match roots_of(v, false, none) {
                Some(roots) => url_root(v, url, answer, none) == Some(roots[0]),
                None => url_root(v, url, answer, none) is None,
            }
        }),
        !names_roots(v.env) && !is_codecommit_remote(url) && v.roots.len() > 0 && !(asks_git(v, url)
            && answer is Some) ==> url_root(v, url, answer, canonical) == Some(
            cleaned(v.roots.last()),
        ),
        !names_roots(v.env) && is_codecommit_remote(url) ==> (match roots_of(v, false, canonical) {
            Some(roots) => url_root(v, url, answer, canonical) == Some(roots[0]),
            None => url_root(v, url, answer, canonical) is None,
        }),
        !is_codecommit_remote(url) ==> forall|other: Seq<char>|
            !is_codecommit_remote(other) ==> #[trigger] url_root(v, other, answer, canonical)
                == url_root(v, url, answer, canonical),
{
    let none = Seq::<Option<Vec<u8>>>::empty();
    law_roots_are_distinct(v, false, none);
    if raw_roots(v, false) is Some {
        let list = all_cleaned(raw_roots(v, false)->0);
        assert(all_resolved(list, none) =~= list);
    }
}

/// The default owner.
pub fn user(snapshot: &ConfigSnapshot) -> (r: Result<Option<String>, ConfigError>)
    ensures
        r is Ok && opt_string(r->Ok_0) == snapshot@.user,
{
    match snapshot.user() {
        Some(u) => Ok(Some(String::from_str(u))),
        None => Ok(None),
    }
}

/// Whether a repository that is named alone belongs to the default owner.
pub fn complete_user(snapshot: &ConfigSnapshot) -> (r: Result<bool, ConfigError>)
    ensures
        r == Ok::<bool, ConfigError>(snapshot@.complete_user),
{
    Ok(snapshot.complete_user())
}

/// What git's answer to a question is: nothing where it ends with status 1 or
/// prints nothing; any other failure is an error.
pub open spec fn urlmatch_answer(
    status: Option<i32>,
    stdout: Seq<u8>,
    stderr: Seq<u8>,
) -> Result<Option<Seq<u8>>, ConfigErrorView> {
    let line = stripped(vstd::utf8::decode_utf8(stdout));
    match status {
        Some(0) => if !vstd::utf8::valid_utf8(stdout) {
            Err(ConfigErrorView::InvalidUtf8)
        } else if line.len() == 0 {
            Ok(None)
        } else {
            Ok(Some(encode_utf8(line)))
        },
        Some(1) => Ok(None),
        _ => Err(
            ConfigErrorView::GitConfigFailed {
                key: "scap.root"@,
                status: match status {
                    Some(n) => n,
                    None => -1i32,
                },
                stderr: shown_path(stderr),
            },
        ),
    }
}

/// What git's answer to the question for the root of a URL is, given how it
/// ended and what it printed.
pub fn urlmatch_outcome(status: Option<i32>, stdout: &[u8], stderr: &[u8]) -> (r: Result<
    Option<Vec<u8>>,
    ConfigError,
>)
    ensures
        match r {
            Ok(a) => urlmatch_answer(status, stdout@, stderr@) == Ok::<
                Option<Seq<u8>>,
                ConfigErrorView,
            >(opt_view(a)),
            Err(e) => urlmatch_answer(status, stdout@, stderr@) == Err::<
                Option<Seq<u8>>,
                ConfigErrorView,
            >(e@),
        },
{
    let code: i32 = match status {
        Some(n) => n,
        None => -1,
    };
    if status.is_some() && code == 0 {
        return match utf8_text(stdout) {
            None => Err(ConfigError::InvalidUtf8),
            Some(s) => {
                let line = strip(s);
                if is_empty(line.as_str()) {
                    Ok(None)
                } else {
                    Ok(Some(slice_to_vec(line.as_str().as_bytes())))
                }
            },
        };
    }
    if status.is_some() && code == 1 {
        return Ok(None);
    }
    Err(
        ConfigError::GitConfigFailed {
            key: String::from_str("scap.root"),
            status: code,
            stderr: lossy_text(stderr),
        },
    )
}

/// What git answered for URLs, so that each is asked at most once.
#[derive(Debug)]
pub struct UrlmatchMemo {
    cells: Vec<(String, Option<Vec<u8>>)>,
}

/// What is remembered.
pub open spec fn memo_of(cells: Seq<(Seq<char>, Option<Seq<u8>>)>) -> Map<
    Seq<char>,
    Option<Seq<u8>>,
>
    decreases cells.len(),
{
    if cells.len() == 0 {
        Map::empty()
    } else {
        memo_of(cells.drop_last()).insert(cells.last().0, cells.last().1)
    }
}

impl View for UrlmatchMemo {
    type V = Map<Seq<char>, Option<Seq<u8>>>;

    closed spec fn view(&self) -> Map<Seq<char>, Option<Seq<u8>>> {
        memo_of(git_backend::listed_views(self.cells@))
    }
}

impl Default for UrlmatchMemo {
    fn default() -> (r: UrlmatchMemo)
        ensures
            r@ == Map::<Seq<char>, Option<Seq<u8>>>::empty(),
    {
        let cells: Vec<(String, Option<Vec<u8>>)> = Vec::new();
        assert(git_backend::listed_views(cells@) =~= Seq::empty());
        UrlmatchMemo { cells }
    }
}

/// What is remembered once git answered for a URL.
pub open spec fn learned(
    memo: Map<Seq<char>, Option<Seq<u8>>>,
    url: Seq<char>,
    answer: Option<Seq<u8>>,
) -> Map<Seq<char>, Option<Seq<u8>>> {
    if memo.contains_key(url) {
        memo
    } else {
        memo.insert(url, answer)
    }
}

/// What is remembered after every answer of a list.
pub open spec fn all_learned(
    memo: Map<Seq<char>, Option<Seq<u8>>>,
    answers: Seq<(Seq<char>, Option<Seq<u8>>)>,
) -> Map<Seq<char>, Option<Seq<u8>>>
    decreases answers.len(),
{
    if answers.len() == 0 {
        memo
    } else {
        learned(all_learned(memo, answers.drop_last()), answers.last().0, answers.last().1)
    }
}

/// Git is asked about a URL at most once: an answer is remembered, whatever
/// else is asked later, and stays the one that was given.
pub proof fn law_answer_is_remembered(
    memo: Map<Seq<char>, Option<Seq<u8>>>,
    url: Seq<char>,
    answer: Option<Seq<u8>>,
    later: Seq<(Seq<char>, Option<Seq<u8>>)>,
)
    requires
        !memo.contains_key(url),
    ensures
        all_learned(learned(memo, url, answer), later).contains_key(url),
        all_learned(learned(memo, url, answer), later)[url] == answer,
    decreases later.len(),
{
    if later.len() > 0 {
        law_answer_is_remembered(memo, url, answer, later.drop_last());
    }
}

impl UrlmatchMemo {
    /// What git answered for a URL, where it was asked.
    pub fn recall(&self, url: &str) -> (r: Option<Option<Vec<u8>>>)
        ensures
            match r {
                Some(a) => self@.contains_key(url@) && self@[url@] == opt_view(a),
                None => !self@.contains_key(url@),
            },
    {
        let ghost all = git_backend::listed_views(self.cells@);
        let mut n: usize = self.cells.len();
        assert(all.take(n as int) =~= all);
        while n > 0
            invariant
                n <= self.cells@.len(),
                all == git_backend::listed_views(self.cells@),
                memo_of(all).contains_key(url@) == memo_of(all.take(n as int)).contains_key(url@),
                memo_of(all)[url@] == memo_of(all.take(n as int))[url@] || !memo_of(
                    all,
                ).contains_key(url@),
            decreases n,
        {
            proof {
                assert(all.take(n as int).drop_last() =~= all.take(n - 1));
                assert(all.take(n as int).last() == all[n - 1]);
            }
            if text_eq(self.cells[n - 1].0.as_str(), url) {
                return Some(copy_opt(&self.cells[n - 1].1));
            }
            n = n - 1;
        }
        None
    }

    /// Remembers what git answered for a URL. What is remembered already
    /// stands.
    pub fn learn(&mut self, url: &str, answer: &Option<Vec<u8>>)
        ensures
            final(self)@ == learned(old(self)@, url@, opt_view(*answer)),
    {
        if self.recall(url).is_some() {
            return ;
        }
        let ghost before = git_backend::listed_views(self.cells@);
        self.cells.push((String::from_str(url), copy_opt(answer)));
        proof {
            let after = git_backend::listed_views(self.cells@);
            assert(after =~= before.push((url@, opt_view(*answer))));
            assert(after.drop_last() =~= before);
        }
    }
}

/// Each thing that asks for git does so whatever the others are, and nothing
/// else does: the variable that asks for it by name, settings that other
/// variables hold, more than one system file, an inclusion that only git can
/// evaluate. The one that asks first is the reason.
pub proof fn law_what_asks_for_git(env: EnvView, matches: int, unevaluated: bool)
    ensures
        ({
            let named = env.scap_config_backend == Some(encode_utf8("git"@));
            let counted = env.git_config_count matches Some(v) && v.len() > 0 && !(crate::walk::is_decimal(
                values::unplussed(v),
            ) && crate::walk::decimal_value(values::unplussed(v)) == 0);
            let given = env.git_config_parameters is Some;
            let reason = trigger(env, matches, unevaluated);
            &&& reason is Some <==> named || counted || given || matches > 1 || unevaluated
            &&& reason == Some(Reason::EnvOverride) <==> named
            &&& reason == Some(Reason::GitConfigCount) <==> counted && !named
            &&& reason == Some(Reason::GitConfigParameters) <==> given && !named && !counted
            &&& reason == Some(Reason::SystemProbeAmbiguous) <==> matches > 1 && !named && !counted
                && !given
        }),
{
    if let Some(v) = env.git_config_count {
        values::law_zero_count(v);
    }
}

/// The variable's patterns stand in place of the configured ones, all of
/// them, where it is set and not empty; and otherwise it has no say.
pub proof fn law_exclude_variable_wins(
    variable: Option<Seq<u8>>,
    a: Seq<Seq<char>>,
    b: Seq<Seq<char>>,
)
    ensures
        variable matches Some(v) && v.len() > 0 ==> effective_exclude(variable, a)
            == effective_exclude(variable, b),
        !(variable matches Some(v) && v.len() > 0) ==> effective_exclude(variable, a)
            == effective_exclude(None, a),
{
}

/// Every configured pattern counts, without the one slash that it may end in
/// and without the empty ones, in order; no other does.
pub proof fn law_patterns_count_in_order(
    a: Seq<Seq<char>>,
    pattern: Seq<char>,
    b: Seq<Seq<char>>,
)
    requires
        pattern.len() > 0,
    ensures
        effective_exclude(None, a + b) == effective_exclude(None, a) + effective_exclude(None, b),
        effective_exclude(None, seq![pattern.push('/')]) == seq![pattern],
        pattern.last() != '/' ==> effective_exclude(None, seq![pattern]) == seq![pattern],
        effective_exclude(None, seq![Seq::empty()]).len() == 0,
        effective_exclude(None, seq![seq!['/']]).len() == 0,
        effective_exclude(None, Seq::empty()).len() == 0,
    decreases b.len(),
{
    if b.len() > 0 {
        law_patterns_count_in_order(a, pattern, b.drop_last());
        assert((a + b).drop_last() =~= a + b.drop_last());
        assert((a + b).last() == b.last());
        assert(folded_patterns(a + b) =~= folded_patterns(a) + folded_patterns(b));
    } else {
        assert(a + b =~= a);
        assert(folded_patterns(a) + folded_patterns(b) =~= folded_patterns(a));
    }
    let none = Seq::<Seq<char>>::empty();
    assert(folded_patterns(none) =~= none);
    let slashed = seq![pattern.push('/')];
    assert(slashed.drop_last() =~= none);
    assert(pattern.push('/').drop_last() =~= pattern);
    assert(folded(slashed.last()) == pattern);
    assert(folded_patterns(slashed) =~= seq![pattern]);
    let one = seq![pattern];
    assert(one.drop_last() =~= none);
    if pattern.last() != '/' {
        assert(folded(one.last()) == pattern);
        assert(folded_patterns(one) =~= seq![pattern]);
    }
    let empty = seq![Seq::<char>::empty()];
    assert(empty.drop_last() =~= none);
    assert(folded(empty.last()).len() == 0);
    assert(folded_patterns(empty) =~= none);
    let slash = seq![seq!['/']];
    assert(slash.drop_last() =~= none);
    assert(folded(slash.last()).len() == 0);
    assert(folded_patterns(slash) =~= none);
}

/// What git prints for the root of a URL is its answer, without the line feed
/// behind it; ending with status 1 means that it has none, and any other
/// failure is one.
pub proof fn law_answer_is_what_git_printed(
    answer: Seq<char>,
    stdout: Seq<u8>,
    stderr: Seq<u8>,
    status: Option<i32>,
)
    requires
        answer.len() > 0,
        !crate::text::is_space(answer[0]),
        !crate::text::is_space(answer.last()),
    ensures
        urlmatch_answer(Some(0), encode_utf8(answer.push('\n')), stderr) == Ok::<
            Option<Seq<u8>>,
            ConfigErrorView,
        >(Some(encode_utf8(answer))),
        urlmatch_answer(Some(0), encode_utf8(answer), stderr) == Ok::<
            Option<Seq<u8>>,
            ConfigErrorView,
        >(Some(encode_utf8(answer))),
        urlmatch_answer(Some(1), stdout, stderr) == Ok::<Option<Seq<u8>>, ConfigErrorView>(None),
        status != Some(0i32) && status != Some(1i32) ==> urlmatch_answer(status, stdout, stderr)
            is Err,
{
    let line = answer.push('\n');
    vstd::utf8::encode_utf8_decode_utf8(line);
    vstd::utf8::encode_utf8_decode_utf8(answer);
    vstd::utf8::encode_utf8_valid_utf8(line);
    vstd::utf8::encode_utf8_valid_utf8(answer);
    assert(line[0] == answer[0]);
    assert(line.drop_last() =~= answer);
    assert(crate::text::is_space('\n'));
    assert(stripped(answer) == answer);
    assert(stripped(line) == answer);
}

/// Where all roots are asked for and the environment names none, the roots of
/// the program hold every one that is configured, where nothing is known of
/// where they lie; and where not all are asked for, none that is only one of
/// a particular URL.
pub proof fn law_all_roots_are_resolved(
    snapshot: &ConfigSnapshot,
    every: Result<Vec<Vec<u8>>, ConfigError>,
    plain: Result<Vec<Vec<u8>>, ConfigError>,
    canonical: &[Option<Vec<u8>>],
    i: int,
)
    requires
        !names_roots(snapshot@.env),
        snapshot@.roots.len() > 0,
        canonical@.len() == 0,
        call_ensures(resolve_roots, (snapshot, true, canonical), every),
        call_ensures(resolve_roots, (snapshot, false, canonical), plain),
    ensures
        every is Ok && plain is Ok,
        0 <= i < snapshot@.roots.len() ==> views((every->Ok_0)@).contains(
            cleaned(snapshot@.roots[i]),
        ) && views((plain->Ok_0)@).contains(cleaned(snapshot@.roots[i])),
        0 <= i < snapshot@.url_scoped_roots.len() ==> views((every->Ok_0)@).contains(
            cleaned(snapshot@.url_scoped_roots[i]),
        ),
        0 <= i < snapshot@.url_scoped_roots.len() && (forall|j: int|
            0 <= j < snapshot@.roots.len() ==> cleaned(#[trigger] snapshot@.roots[j]) != cleaned(
                snapshot@.url_scoped_roots[i],
            )) ==> !views((plain->Ok_0)@).contains(cleaned(snapshot@.url_scoped_roots[i])),
{
    let v = snapshot@;
    law_every_configured_root_is_a_candidate(v);
    let all = all_cleaned(raw_roots(v, true)->0);
    let some = all_cleaned(raw_roots(v, false)->0);
    assert(all_resolved(all, canonical@) =~= all);
    assert(all_resolved(some, canonical@) =~= some);
    lemma_deduped(all);
    lemma_deduped(some);
    if 0 <= i < v.roots.len() {
        assert(all.contains(cleaned(v.roots[i])));
        assert(some.contains(cleaned(v.roots[i])));
    }
    if 0 <= i < v.url_scoped_roots.len() {
        assert(all.contains(cleaned(v.url_scoped_roots[i])));
        let x = cleaned(v.url_scoped_roots[i]);
        assert(deduped(some).contains(x) == some.contains(x));
    }
}

/// An empty variable is none where git takes it so, and what it is everywhere
/// else.
pub proof fn law_empty_variables(read: Env, r: Env)
    requires
        call_ensures(Env::from_process, (read,), r),
    ensures
        !(r@.git_dir matches Some(v) && v.len() == 0),
        !(r@.xdg_config_home matches Some(v) && v.len() == 0),
        !(r@.git_config_parameters matches Some(v) && v.len() == 0),
        !(r@.git_ceiling_directories matches Some(v) && v.len() == 0),
        read@.git_dir matches Some(v) ==> (v.len() > 0 ==> r@.git_dir == Some(v)),
        read@.xdg_config_home matches Some(v) ==> (v.len() > 0 ==> r@.xdg_config_home == Some(v)),
        read@.git_config_parameters matches Some(v) ==> (v.len() > 0 ==> r@.git_config_parameters
            == Some(v)),
        r@.home == read@.home,
        r@.git_config_global == read@.git_config_global,
        r@.git_config_system == read@.git_config_system,
        r@.git_config_nosystem == read@.git_config_nosystem,
        r@.git_config_count == read@.git_config_count,
        r@.scap_root == read@.scap_root,
        r@.scap_list_exclude == read@.scap_list_exclude,
        r@.path == read@.path,
        r@.cwd == read@.cwd,
{
}

} // verus!
