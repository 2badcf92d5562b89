//! What a walk promises of single directories and of its settings.

use vstd::prelude::*;
use vstd::utf8::encode_utf8;

use super::pool::{others, search_order, work_after, Source, Work};
use super::sys::{
    below, dir_questions, entry_questions, excluded_count, holds_git, is_denied, is_git_name, leaves_gap, out_of_descriptors,
    printed, printed_repos, questions, queued, repo_records, shortens, type_of_mode, verdict, DirFacts, EntView,
    EntryFacts, Errno, EventView, JobView, Kind, Opened, Request, Rules, Verdict,
};
use super::{
    asked_threads, excluded_by, is_bare_root, mtime_of, parse_detect_strategy, parse_threads,
    recorded_repos, root_fate, threads_rejected, wildmatch, DetectStrategy, Pattern, RecordView,
};
use crate::bytes::{lemma_around_last, SLASH};
use crate::cmd::get::lemma_decimal_digits;
use crate::index::assemble::{base_name, parent_path};
use crate::paths::laws::law_joined_path_comes_apart;
use crate::paths::{cut, is_name, joined_path};
use crate::text::decimal;

verus! {

/// `.git`.
pub open spec fn dot_git() -> Seq<u8> {
    seq![0x2eu8, 0x67, 0x69, 0x74]
}

/// A name is that of a bare repository if and only if it ends in `.git`,
/// whatever comes before.
pub proof fn law_git_names(name: Seq<u8>)
    ensures
        is_git_name(name + dot_git()),
        is_git_name(name) ==> name.len() >= 4 && name == name.take(name.len() - 4) + dot_git(),
        is_git_name(dot_git()),
{
    let with = name + dot_git();
    assert(with.skip(with.len() - 4) =~= super::sys::GIT_NAME@);
    assert(dot_git().skip(0) =~= super::sys::GIT_NAME@);
    if is_git_name(name) {
        assert(name =~= name.take(name.len() - 4) + name.skip(name.len() - 4));
        assert(name.skip(name.len() - 4) =~= dot_git());
    }
}

/// A directory is a repository by its own entries only where one of them is
/// called `.git`. A directory or a file of that name is enough; a link, or
/// what has no type, has to lead somewhere.
pub proof fn law_repository_holds_git(ents: Seq<EntView>, git: bool, i: int)
    requires
        0 <= i <= ents.len(),
        forall|j: int| 0 <= j < i ==> (#[trigger] ents[j]).name != dot_git(),
    ensures
        i == ents.len() ==> !holds_git(ents, git, 0),
        i < ents.len() && ents[i].name == dot_git() && (ents[i].kind is Dir || ents[i].kind is Other)
            ==> holds_git(ents, git, 0),
        i < ents.len() && ents[i].name == dot_git() && (ents[i].kind is Symlink
            || ents[i].kind is Unknown) ==> holds_git(ents, git, 0) == git,
{
    assert(super::sys::GIT_NAME@ =~= dot_git());
    lemma_no_git_before(ents, git, 0, i);
}

proof fn lemma_no_git_before(ents: Seq<EntView>, git: bool, from: int, i: int)
    requires
        0 <= from <= i <= ents.len(),
        forall|j: int| 0 <= j < i ==> (#[trigger] ents[j]).name != super::sys::GIT_NAME@,
    ensures
        holds_git(ents, git, from) == holds_git(ents, git, i),
    decreases i - from,
{
    if from < i {
        assert(ents[from].name != super::sys::GIT_NAME@);
        lemma_no_git_before(ents, git, from + 1, i);
    }
}

/// What kind of thing an entry is: what the directory says of it, and where
/// that says nothing, what looking at it says.
pub open spec fn kind_seen(ent: EntView, facts: EntryFacts) -> Option<Kind> {
    if ent.kind is Unknown {
        facts.lstat
    } else {
        Some(ent.kind)
    }
}

/// What an entry means. A pattern takes out directories and links, before
/// anything else is asked, and nothing else. Only a directory is ever gone
/// into. A directory whose name ends in `.git` is a repository, and so is a
/// link that leads to a directory and ends so or holds a `.git`. A link that
/// leads nowhere is reported, one that leads to something else means nothing,
/// and neither does any other kind of entry.
pub proof fn law_what_an_entry_means(ent: EntView, path: Seq<u8>, rules: Rules, facts: EntryFacts)
    ensures
        ({
            let v = verdict(ent, path, rules, facts);
            let kind = kind_seen(ent, facts);
            let dir = kind == Some(Kind::Dir);
            let link = kind == Some(Kind::Symlink);
            let out = excluded_by(rules.exclude@, path);
            &&& v is Excluded <==> out && (dir || link)
            &&& !dir && !link ==> v is Nothing
            &&& v is Queue ==> dir && !out && !is_git_name(ent.name)
            &&& dir && !out && is_git_name(ent.name) ==> v is Repo
            &&& dir && !out && facts.git && rules.detect is StatFirst ==> v is Repo
            &&& v is Repo ==> !out && (is_git_name(ent.name) || facts.git)
            &&& link && !out && facts.target == Ok::<bool, Errno>(true) ==> (v is Repo
                <==> is_git_name(ent.name) || facts.git)
            &&& link && !out && facts.target == Ok::<bool, Errno>(false) ==> v is Nothing
            &&& v is Unresolved <==> link && !out && facts.target is Err
        }),
{
}

/// No directory is lost for want of a handle: one that is open is read by its
/// handle, and one that cannot be opened now is read later by its path. One
/// that may not be read is a repository where its `.git` can be seen, and
/// every other failure is reported as it is.
pub proof fn law_no_directory_is_lost(ent: EntView, path: Seq<u8>, rules: Rules, facts: EntryFacts)
    requires
        kind_seen(ent, facts) == Some(Kind::Dir),
        !excluded_by(rules.exclude@, path),
        !is_git_name(ent.name),
        !(rules.detect is StatFirst && facts.git),
    ensures
        ({
            let v = verdict(ent, path, rules, facts);
            match facts.open {
                Opened::Handle(h) => v == Verdict::Queue(Some(h)),
                Opened::OverBudget => v == Verdict::Queue(None),
                Opened::Failed(Errno::MFILE) => v == Verdict::Queue(None),
                Opened::Failed(Errno::NFILE) => v == Verdict::Queue(None),
                Opened::Failed(e) => if facts.git && (e is ACCESS || e is PERM) {
                    v is Repo
                } else {
                    v == Verdict::Unread(e)
                },
            }
        }),
{
}

/// A failure leaves nothing unseen only where the path is gone, is no
/// directory or leads in a circle.
pub proof fn law_failures_that_lose_nothing(e: Errno)
    ensures
        !shortens(e) <==> e is NOENT || e is NOTDIR || e is LOOP,
        is_denied(e) ==> shortens(e) && !out_of_descriptors(e),
        out_of_descriptors(e) ==> shortens(e),
        shortens(Errno::IO) && !is_denied(Errno::IO) && !out_of_descriptors(Errno::IO),
{
}

/// A path is excluded if and only if one of the patterns matches it: more
/// patterns exclude more, and none excludes nothing.
pub proof fn law_patterns_add_up(a: Seq<Pattern>, b: Seq<Pattern>, one: Pattern, rel: Seq<u8>)
    ensures
        excluded_by(a + b, rel) == (excluded_by(a, rel) || excluded_by(b, rel)),
        excluded_by(seq![one], rel) == wildmatch(one@, rel),
        !excluded_by(Seq::empty(), rel),
{
    let both = a + b;
    if excluded_by(a, rel) {
        let i = choose|i: int| 0 <= i < a.len() && wildmatch(#[trigger] a[i]@, rel);
        assert(wildmatch(both[i]@, rel));
    }
    if excluded_by(b, rel) {
        let i = choose|i: int| 0 <= i < b.len() && wildmatch(#[trigger] b[i]@, rel);
        assert(wildmatch(both[a.len() + i]@, rel));
    }
    if excluded_by(both, rel) {
        let i = choose|i: int| 0 <= i < both.len() && wildmatch(#[trigger] both[i]@, rel);
        if i < a.len() {
            assert(wildmatch(a[i]@, rel));
        } else {
            assert(wildmatch(b[i - a.len()]@, rel));
        }
    }
    if wildmatch(one@, rel) {
        assert(wildmatch(seq![one][0]@, rel));
    }
}

/// The path of an entry gives back the directory and the name: what stands
/// before its last slash and what stands behind it.
pub proof fn law_path_of_an_entry(dir: Seq<u8>, name: Seq<u8>)
    requires
        name.len() > 0,
        !name.contains(SLASH),
    ensures
        parent_path(below(dir, name)) == dir,
        base_name(below(dir, name)) == name,
{
    let p = below(dir, name);
    if dir.len() == 0 {
        assert forall|j: int| -1 < j < p.len() implies p[j] != SLASH by {
            assert(name.contains(name[j]));
        }
        lemma_around_last(p, SLASH, -1);
        assert(p.skip(0) =~= name);
        assert(dir =~= Seq::<u8>::empty());
    } else {
        let at = dir.len() as int;
        assert(p[at] == SLASH);
        assert forall|j: int| at < j < p.len() implies p[j] != SLASH by {
            assert(p[j] == name[j - at - 1]);
            assert(name.contains(name[j - at - 1]));
        }
        lemma_around_last(p, SLASH, at);
        assert(p.take(at) =~= dir);
        assert(p.skip(at + 1) =~= name);
    }
}

/// What a walk keeps of its events adds up in order: the repositories that it
/// prints, the records of them, the directories that it queues, the count of
/// what was excluded, and whether anything went unseen.
pub proof fn law_events_add_up(a: Seq<EventView>, b: Seq<EventView>)
    ensures
        printed_repos(a + b) == printed_repos(a) + printed_repos(b),
        repo_records(a + b) == repo_records(a) + repo_records(b),
        queued(a + b) == queued(a) + queued(b),
        excluded_count(a + b) == excluded_count(a) + excluded_count(b),
        leaves_gap(a + b) == (leaves_gap(a) || leaves_gap(b)),
    decreases b.len(),
{
    let all = a + b;
    if leaves_gap(a) {
        let i = choose|i: int|
            0 <= i < a.len() && (#[trigger] a[i] matches EventView::Unread(_, e) && shortens(e));
        assert(all[i] == a[i]);
    }
    if leaves_gap(b) {
        let i = choose|i: int|
            0 <= i < b.len() && (#[trigger] b[i] matches EventView::Unread(_, e) && shortens(e));
        assert(all[a.len() + i] == b[i]);
    }
    if leaves_gap(all) {
        let i = choose|i: int|
            0 <= i < all.len() && (#[trigger] all[i] matches EventView::Unread(_, e) && shortens(
                e,
            ));
        if i < a.len() {
            assert(a[i] == all[i]);
        } else {
            assert(b[i - a.len()] == all[i]);
        }
    }
    if b.len() == 0 {
        assert(all =~= a);
        assert(printed_repos(a) + printed_repos(b) =~= printed_repos(a));
        assert(repo_records(a) + repo_records(b) =~= repo_records(a));
        assert(queued(a) + queued(b) =~= queued(a));
    } else {
        let shorter = b.drop_last();
        law_events_add_up(a, shorter);
        assert(all.drop_last() =~= a + shorter);
        assert(all.last() == b.last());
        assert(printed_repos(all) =~= printed_repos(a) + printed_repos(b));
        assert(repo_records(all) =~= repo_records(a) + repo_records(b));
        assert(queued(all) =~= queued(a) + queued(b));
    }
}

/// What one event adds: a repository is printed, under its path or as `.`
/// where it is the root, and recorded; a directory is queued; an exclusion is
/// counted; and nothing adds to what is not its own.
pub proof fn law_what_an_event_adds(e: EventView)
    ensures
        ({
            let one = seq![e];
            &&& e matches EventView::Repo(p) ==> printed_repos(one) == seq![
                if p.len() == 0 {
                    seq![0x2eu8]
                } else {
                    p
                },
            ] && repo_records(one) == seq![(RecordView { rel: p, mtime_ns: None })]
            &&& !(e is Repo) ==> printed_repos(one).len() == 0 && repo_records(one).len() == 0
            &&& e matches EventView::Queue(p, h) ==> queued(one) == seq![
                (JobView { rel: p, handle: h }),
            ]
            &&& !(e is Queue) ==> queued(one).len() == 0
            &&& excluded_count(one) == (if e is Excluded {
                1nat
            } else {
                0
            })
            &&& leaves_gap(one) <==> (e matches EventView::Unread(_, err) && shortens(err))
        }),
{
    let one = seq![e];
    let none = Seq::<EventView>::empty();
    assert(one.drop_last() =~= none);
    assert(one.last() == e);
    assert(printed_repos(none) =~= Seq::empty());
    assert(repo_records(none) =~= Seq::empty());
    assert(queued(none) =~= Seq::empty());
    assert(excluded_count(none) == 0);
    match e {
        EventView::Repo(p) => {
            assert(printed_repos(one) =~= seq![printed(p)]);
            assert(repo_records(one) =~= seq![RecordView { rel: p, mtime_ns: None }]);
        },
        EventView::Queue(p, h) => {
            assert(queued(one) =~= seq![JobView { rel: p, handle: h }]);
        },
        EventView::Unread(p, err) => {
            assert(one[0] == e);
        },
        _ => {},
    }
}

/// The repositories of a listing are its records without a time, in order.
pub proof fn law_records_add_up(a: Seq<RecordView>, r: RecordView, b: Seq<RecordView>)
    ensures
        recorded_repos(a + b) == recorded_repos(a) + recorded_repos(b),
        r.mtime_ns is None && r.rel.len() > 0 ==> recorded_repos(seq![r]) == seq![r.rel],
        r.mtime_ns is None && r.rel.len() == 0 ==> recorded_repos(seq![r]) == seq![seq![0x2eu8]],
        r.mtime_ns is Some ==> recorded_repos(seq![r]).len() == 0,
    decreases b.len(),
{
    let all = a + b;
    if b.len() == 0 {
        assert(all =~= a);
        assert(recorded_repos(a) + recorded_repos(b) =~= recorded_repos(a));
    } else {
        law_records_add_up(a, r, b.drop_last());
        assert(all.drop_last() =~= a + b.drop_last());
        assert(all.last() == b.last());
        assert(recorded_repos(all) =~= recorded_repos(a) + recorded_repos(b));
    }
    let one = seq![r];
    assert(one.drop_last() =~= Seq::<RecordView>::empty());
    assert(recorded_repos(one.drop_last()) =~= Seq::empty());
    assert(one.last() == r);
    if r.mtime_ns is None {
        assert(recorded_repos(one) =~= seq![printed(r.rel)]);
    }
}

/// A number of threads is honoured as it is written, with a plus or without,
/// from 1 to 64; any other asks for nothing.
pub proof fn law_threads_as_written(n: nat)
    ensures
        ({
            let spelled = encode_utf8(decimal(n));
            &&& asked_threads(Some(spelled)) == (if 1 <= n <= 64 {
                Some(n)
            } else {
                None
            })
            &&& asked_threads(Some(seq![0x2bu8] + spelled)) == asked_threads(Some(spelled))
            &&& asked_threads(Some(seq![0x2du8] + spelled)) is None
            &&& asked_threads(Some(Seq::empty())) is None
            &&& asked_threads(None) is None
        }),
{
    lemma_decimal_digits(n);
    let spelled = encode_utf8(decimal(n));
    assert((seq![0x2bu8] + spelled).skip(1) =~= spelled);
    let minus = seq![0x2du8] + spelled;
    assert(!super::is_digit(minus[0]));
}

/// What becomes of a root: one that is missing, or is no directory, is passed
/// over in silence; one that cannot be asked about, or that nobody may read,
/// is reported; and any one permission to read is enough.
pub proof fn law_fate_of_a_root(e: Errno, mode: u32)
    ensures
        root_fate(Err(e)) is None <==> e is NOENT,
        !(e is NOENT) ==> root_fate(Err(e)) == Some(Err::<(), Errno>(e)),
        root_fate(Ok(mode)) is None <==> !(type_of_mode(mode) is Directory),
        type_of_mode(mode) is Directory && (mode & 0o400 != 0 || mode & 0o040 != 0 || mode & 0o004
            != 0) ==> root_fate(Ok(mode)) == Some(Ok::<(), Errno>(())),
        type_of_mode(mode) is Directory && mode & 0o400 == 0 && mode & 0o040 == 0 && mode & 0o004
            == 0 ==> root_fate(Ok(mode)) == Some(Err::<(), Errno>(Errno::ACCESS)),
{
    assert((mode & 0o444 == 0) == (mode & 0o400 == 0 && mode & 0o040 == 0 && mode & 0o004 == 0))
        by (bit_vector);
}

/// A root is a repository by its name alone if and only if that name ends in
/// `.git`.
pub proof fn law_root_that_is_a_repository(dir: Seq<u8>, name: Seq<u8>)
    requires
        dir.len() > 0,
        cut(dir) == dir,
        is_name(name),
    ensures
        is_bare_root(joined_path(dir, name)) <==> name.len() >= 4 && name.skip(name.len() - 4)
            == dot_git(),
{
    law_joined_path_comes_apart(dir, name);
    assert(super::sys::GIT_NAME@ =~= dot_git());
}

/// Times keep their order, and where they have a place in 64 bits, their
/// distance to the nanosecond.
pub proof fn law_times_keep_their_order(s: i64, n: i64, t: i64, m: i64)
    requires
        0 <= n < 1_000_000_000,
        0 <= m < 1_000_000_000,
    ensures
        s < t || (s == t && n <= m) ==> mtime_of(s, n) <= mtime_of(t, m),
        -9_000_000_000 < s < 9_000_000_000 && -9_000_000_000 < t < 9_000_000_000 ==> mtime_of(t, m)
            - mtime_of(s, n) == (t - s) * 1_000_000_000 + (m - n),
        i64::MIN <= mtime_of(s, n) <= i64::MAX,
{
}

/// A worker looks into its own queue first, then into the one that the walk
/// began with, then into that of every other worker, each once.
pub proof fn law_every_queue_is_searched(me: usize, workers: usize, k: usize)
    ensures
        search_order(me as int, workers as int)[0] == Source::Own,
        search_order(me as int, workers as int)[1] == Source::Seed,
        search_order(me as int, workers as int).contains(Source::Worker(k)) <==> k < workers && k
            != me,
        search_order(me as int, workers as int).no_duplicates(),
{
    let rest = others(me as int, workers as int);
    let all = search_order(me as int, workers as int);
    lemma_others(me as int, workers as int, k);
    if rest.contains(Source::Worker(k)) {
        let i = choose|i: int| 0 <= i < rest.len() && rest[i] == Source::Worker(k);
        assert(all[i + 2] == rest[i]);
    }
    if all.contains(Source::Worker(k)) {
        let i = choose|i: int| 0 <= i < all.len() && all[i] == Source::Worker(k);
        assert(rest[i - 2] == all[i]);
    }
    assert forall|i: int, j: int| 0 <= i < all.len() && 0 <= j < all.len() && i != j implies all[i]
        != all[j] by {
        if i >= 2 {
            assert(all[i] == rest[i - 2]);
        }
        if j >= 2 {
            assert(all[j] == rest[j - 2]);
        }
    }
}

proof fn lemma_others(me: int, workers: int, k: usize)
    requires
        0 <= workers <= usize::MAX,
    ensures
        others(me, workers).contains(Source::Worker(k)) <==> k < workers && k != me,
        forall|i: int|
            0 <= i < others(me, workers).len() ==> (#[trigger] others(me, workers)[i] matches
                Source::Worker(w) && w < workers),
        others(me, workers).no_duplicates(),
    decreases workers,
{
    if workers > 0 {
        lemma_others(me, workers - 1, k);
        let before = others(me, workers - 1);
        let all = others(me, workers);
        if workers - 1 != me {
            assert(all.last() == Source::Worker((workers - 1) as usize));
            if before.contains(Source::Worker(k)) {
                let i = choose|i: int| 0 <= i < before.len() && before[i] == Source::Worker(k);
                assert(all[i] == before[i]);
            }
            if k == workers - 1 {
                assert(all[before.len() as int] == Source::Worker(k));
            }
            if all.contains(Source::Worker(k)) {
                let i = choose|i: int| 0 <= i < all.len() && all[i] == Source::Worker(k);
                if i < before.len() {
                    assert(before[i] == all[i]);
                }
            }
        }
    } else {
        assert(others(me, workers) =~= Seq::empty());
    }
}

/// A worker reads what it finds. It stops only when nothing is outstanding,
/// and sleeps only when something still is; while something is, it goes on
/// looking, and sleeps after thirty-two rounds in vain at the latest.
pub proof fn law_workers_keep_looking(state: Work, found: bool, in_flight: nat)
    ensures
        ({
            let next = work_after(state, found, in_flight as int);
            &&& next is Read <==> state is Look && found
            &&& next is Finish <==> state is Finish || (in_flight == 0 && (state is Park || (
            state is Look && !found)))
            &&& next is Sleep <==> state is Park && in_flight > 0
            &&& state is Read || state is Sleep ==> next == Work::Look(0)
            &&& state matches Work::Look(n) ==> (!found && in_flight > 0 ==> next == (if n + 1 < 32 {
                Work::Look((n + 1) as u32)
            } else {
                Work::Park
            }))
        }),
{
}

/// A walk runs between one and sixty-four threads whatever is asked for, four
/// where nothing is, and what is not honoured is reported.
pub proof fn law_threads_of_a_walk(value: Option<&[u8]>, n: usize, rejected: bool)
    requires
        call_ensures(parse_threads, (value,), n),
        call_ensures(threads_rejected, (value,), rejected),
    ensures
        1 <= n <= 64,
        value is None ==> n == 4 && !rejected,
        rejected ==> n == 4,
        value matches Some(v) ==> (v@.len() > 0 && !rejected ==> asked_threads(Some(v@)) == Some(
            n as nat,
        )),
{
}

/// Directories are opened to be looked into unless `stat` is asked for, by
/// that very word.
pub proof fn law_detection_by_default(value: Option<&[u8]>, r: DetectStrategy)
    requires
        call_ensures(parse_detect_strategy, (value,), r),
    ensures
        value is None ==> r is OpenScan,
        r is StatFirst <==> (value matches Some(v) && v@ == seq![0x73u8, 0x74, 0x61, 0x74]),
{
    assert(super::STAT_WORD@ =~= seq![0x73u8, 0x74, 0x61, 0x74]);
}

/// A directory that is a repository by its own entries is asked nothing more,
/// and its own `.git` only where a link or an untyped entry leaves it open.
/// Where `.git` is looked at first, no directory that holds one is opened;
/// and only directories are ever opened.
pub proof fn law_repositories_are_not_opened(
    rel: Seq<u8>,
    ents: Seq<EntView>,
    rules: Rules,
    facts: DirFacts,
    k: int,
)
    requires
        ents.len() <= usize::MAX,
        0 <= k < dir_questions(rel, ents, rules, facts).len(),
    ensures
        ({
            let asked = dir_questions(rel, ents, rules, facts)[k];
            &&& holds_git(ents, facts.git, 0) ==> asked is StatGit
            &&& asked is StatGit <==> k == 0 && holds_git(ents, true, 0) && !holds_git(
                ents,
                false,
                0,
            )
            &&& asked matches Request::Open(i) ==> i < ents.len() && kind_seen(
                ents[i as int],
                facts.entries[i as int],
            ) == Some(Kind::Dir) && !(rules.detect is StatFirst && facts.entries[i as int].git)
        }),
{
    let own: int = if holds_git(ents, true, 0) && !holds_git(ents, false, 0) {
        1
    } else {
        0
    };
    let all = dir_questions(rel, ents, rules, facts);
    if k >= own {
        assert(all[k] == entry_questions(rel, ents, rules, facts, 0)[k - own]);
        lemma_opened_entries(rel, ents, rules, facts, 0, k - own);
    }
}

proof fn lemma_opened_entries(
    rel: Seq<u8>,
    ents: Seq<EntView>,
    rules: Rules,
    facts: DirFacts,
    from: int,
    k: int,
)
    requires
        ents.len() <= usize::MAX,
        0 <= from <= ents.len(),
        0 <= k < entry_questions(rel, ents, rules, facts, from).len(),
    ensures
        !(entry_questions(rel, ents, rules, facts, from)[k] is StatGit),
        entry_questions(rel, ents, rules, facts, from)[k] matches Request::Open(i) ==> i
            < ents.len() && kind_seen(ents[i as int], facts.entries[i as int]) == Some(Kind::Dir)
            && !(rules.detect is StatFirst && facts.entries[i as int].git),
    decreases ents.len() - from,
{
    let here = questions(ents[from], below(rel, ents[from].name), rules, facts.entries[from], from);
    let all = entry_questions(rel, ents, rules, facts, from);
    if k < here.len() {
        assert(all[k] == here[k]);
    } else {
        let rest = entry_questions(rel, ents, rules, facts, from + 1);
        assert(all[k] == rest[k - here.len()]);
        lemma_opened_entries(rel, ents, rules, facts, from + 1, k - here.len());
    }
}

} // verus!
