//! What git's own listing of the configuration says.

use vstd::prelude::*;
use vstd::slice::{slice_subrange, slice_to_vec};
use vstd::utf8::{decode_utf8, valid_utf8};

use crate::bytes::{
    after_last, before_first, find_byte, has_prefix, kept, lemma_around_last, lemma_before_first,
    lemma_before_none, lemma_split_appended, lemma_split_nonempty, lemma_split_whole, opt_view,
    split, split_on, views,
};
use crate::config::settings::{
    file_settings, is_called, nonempty, same_name, section_values, value_texts, values_of,
    EntryView, SectionView, Settings, SettingsView,
};
use crate::config::values::{git_boolean, is_on};
use crate::config::{ConfigError, ConfigErrorView, Env, EnvView};
use crate::text::{
    ascii_lower, chars, chars_eq, chars_start_with, lossy_text, path_str, path_text, rfind_char,
    shown_path, strip, stripped, texts, utf8_text,
};

verus! {

/// One entry of a listing: a key, and its value unless it has none.
pub type Listed = (Seq<char>, Option<Seq<u8>>);

/// What a list of entries holds.
pub open spec fn listed_views(v: Seq<(String, Option<Vec<u8>>)>) -> Seq<Listed> {
    Seq::new(v.len(), |i: int| (v[i].0@, opt_view(v[i].1)))
}

/// The records of a listing: every second of its fields.
pub open spec fn records(fields: Seq<Seq<u8>>) -> Seq<Seq<u8>> {
    Seq::new(fields.len() / 2, |i: int| fields[2 * i + 1])
}

/// The entry that a record holds: a key that is UTF-8, and what follows the
/// first line feed as its value.
pub open spec fn entry_of(record: Seq<u8>) -> Option<Listed> {
    let key = before_first(record, 0x0a);
    if record.len() == 0 || !valid_utf8(key) {
        None
    } else if record.contains(0x0a) {
        Some((decode_utf8(key), Some(record.skip(key.len() as int + 1))))
    } else {
        Some((decode_utf8(key), None))
    }
}

/// The entries of records.
pub open spec fn entries_of(records: Seq<Seq<u8>>) -> Seq<Listed>
    decreases records.len(),
{
    if records.len() == 0 {
        Seq::empty()
    } else {
        match entry_of(records.last()) {
            Some(e) => entries_of(records.drop_last()).push(e),
            None => entries_of(records.drop_last()),
        }
    }
}

/// The entry that a record holds.
fn entry(record: &[u8]) -> (r: Option<(String, Option<Vec<u8>>)>)
    ensures
        match r {
            Some(e) => entry_of(record@) == Some((e.0@, opt_view(e.1))),
            None => entry_of(record@) is None,
        },
{
    if record.len() == 0 {
        return None;
    }
    let end: usize = record.len();
    match find_byte(0x0a, record) {
        Some(at) => {
            let key = slice_subrange(record, 0, at);
            let value = slice_subrange(record, at + 1, end);
            proof {
                lemma_before_first(record@, 0x0a, at as int);
                assert(record@[at as int] == 0x0a);
                assert(key@ =~= before_first(record@, 0x0a));
                assert(value@ =~= record@.skip(at + 1));
            }
            match utf8_text(key) {
                Some(k) => Some((String::from_str(k), Some(slice_to_vec(value)))),
                None => None,
            }
        },
        None => {
            proof {
                lemma_before_none(record@, 0x0a);
            }
            match utf8_text(record) {
                Some(k) => Some((String::from_str(k), None)),
                None => None,
            }
        },
    }
}

/// The entries of a listing whose fields end in a zero byte, alternating
/// between origins and records. A last origin without a record is dropped.
pub fn entries(listing: &[u8]) -> (r: Vec<(String, Option<Vec<u8>>)>)
    ensures
        listed_views(r@) == entries_of(records(split_on(listing@, 0u8))),
{
    let fields = split(listing, 0);
    let ghost all = records(split_on(listing@, 0u8));
    let count: usize = fields.len() / 2;
    let mut out: Vec<(String, Option<Vec<u8>>)> = Vec::new();
    let mut i: usize = 0;
    assert(all.take(0) =~= Seq::empty());
    assert(listed_views(out@) =~= entries_of(all.take(0)));
    while i < count
        invariant
            i <= count == fields@.len() / 2,
            views(fields@) == split_on(listing@, 0u8),
            all == records(split_on(listing@, 0u8)),
            listed_views(out@) == entries_of(all.take(i as int)),
        decreases count - i,
    {
        let record = fields[2 * i + 1].as_slice();
        let ghost before = listed_views(out@);
        proof {
            assert(split_on(listing@, 0u8)[2 * i + 1] == fields@[2 * i + 1]@);
            assert(all[i as int] == record@);
            assert(all.take(i + 1).drop_last() =~= all.take(i as int));
            assert(all.take(i + 1).last() == record@);
        }
        if let Some(e) = entry(record) {
            let ghost seen = (e.0@, opt_view(e.1));
            out.push(e);
            assert(listed_views(out@) =~= before.push(seen));
        }
        i += 1;
    }
    assert(all.take(i as int) =~= all);
    out
}

/// No settings.
pub open spec fn no_settings() -> SettingsView {
    SettingsView {
        roots: Seq::empty(),
        url_scoped_roots: Seq::empty(),
        user: None,
        complete_user: false,
        list_exclude: Seq::empty(),
        list_cache: false,
    }
}

/// A list with a value behind it, unless that is missing or empty.
pub open spec fn with_root(roots: Seq<Seq<u8>>, value: Option<Seq<u8>>) -> Seq<Seq<u8>> {
    match value {
        Some(v) if v.len() > 0 => roots.push(v),
        _ => roots,
    }
}

/// The settings after one more entry. Keys are in lower case but for their
/// subsection, which stands between the first and the last dot.
pub open spec fn with_entry(s: SettingsView, e: Listed) -> SettingsView {
    let (key, value) = e;
    let rest = key.skip("scap."@.len() as int);
    if !has_prefix(key, "scap."@) {
        s
    } else if rest.contains('.') {
        if after_last(rest, '.') == "root"@ {
            SettingsView { url_scoped_roots: with_root(s.url_scoped_roots, value), ..s }
        } else {
            s
        }
    } else if rest == "root"@ {
        SettingsView { roots: with_root(s.roots, value), ..s }
    } else if rest == "user"@ {
        SettingsView {
            user: Some(
                match value {
                    Some(v) => stripped(path_text(v)),
                    None => Seq::empty(),
                },
            ),
            ..s
        }
    } else if rest == "completeuser"@ {
        SettingsView { complete_user: is_on(value), ..s }
    } else if rest == "listexclude"@ {
        SettingsView {
            list_exclude: match value {
                Some(v) => s.list_exclude.push(path_text(v)),
                None => s.list_exclude,
            },
            ..s
        }
    } else if rest == "listcache"@ {
        SettingsView { list_cache: is_on(value), ..s }
    } else {
        s
    }
}

/// The settings that entries make.
pub open spec fn listed_settings(entries: Seq<Listed>) -> SettingsView
    decreases entries.len(),
{
    if entries.len() == 0 {
        no_settings()
    } else {
        with_entry(listed_settings(entries.drop_last()), entries.last())
    }
}

fn push_root(roots: &mut Vec<Vec<u8>>, value: &Option<Vec<u8>>)
    ensures
        views(final(roots)@) == with_root(views(old(roots)@), opt_view(*value)),
{
    if let Some(v) = value {
        if v.len() > 0 {
            let ghost before = views(roots@);
            roots.push(slice_to_vec(v.as_slice()));
            assert(views(roots@) =~= before.push(v@));
        }
    }
}

/// The settings after one more entry.
fn apply(s: Settings, key: &str, value: &Option<Vec<u8>>) -> (r: Settings)
    ensures
        r@ == with_entry(s@, (key@, opt_view(*value))),
{
    let mut s = s;
    let cs = chars(key);
    let prefix = chars("scap.");
    if !chars_start_with(cs.as_slice(), prefix.as_slice()) {
        return s;
    }
    let end: usize = cs.len();
    let rest = slice_subrange(cs.as_slice(), prefix.len(), end);
    assert(rest@ =~= key@.skip("scap."@.len() as int));
    let given = match value {
        Some(v) => Some(v.as_slice()),
        None => None,
    };
    if let Some(at) = rfind_char(rest, '.') {
        proof {
            lemma_around_last(rest@, '.', at as int);
            assert(rest@[at as int] == '.');
        }
        let width: usize = rest.len();
        let name = slice_subrange(rest, at + 1, width);
        assert(name@ =~= after_last(rest@, '.'));
        if chars_eq(name, chars("root").as_slice()) {
            push_root(&mut s.url_scoped_roots, value);
        }
        return s;
    }
    if chars_eq(rest, chars("root").as_slice()) {
        push_root(&mut s.roots, value);
    } else if chars_eq(rest, chars("user").as_slice()) {
        let user = match value {
            Some(v) => strip(path_str(v.as_slice()).as_str()),
            None => String::new(),
        };
        proof {
            if value is None {
                assert(user@ =~= Seq::<char>::empty());
            }
        }
        s.user = Some(user);
    } else if chars_eq(rest, chars("completeuser").as_slice()) {
        s.complete_user = git_boolean(given);
    } else if chars_eq(rest, chars("listexclude").as_slice()) {
        if let Some(v) = value {
            let ghost before = texts(s.list_exclude@);
            s.list_exclude.push(path_str(v.as_slice()));
            assert(texts(s.list_exclude@) =~= before.push(path_text(v@)));
        }
    } else if chars_eq(rest, chars("listcache").as_slice()) {
        s.list_cache = git_boolean(given);
    }
    s
}

/// The settings that a listing makes.
pub fn settings_of_listing(listing: &[u8]) -> (r: Settings)
    ensures
        r@ == listed_settings(entries_of(records(split_on(listing@, 0u8)))),
{
    let found = entries(listing);
    let ghost all = listed_views(found@);
    let mut s = Settings {
        roots: Vec::new(),
        url_scoped_roots: Vec::new(),
        user: None,
        complete_user: false,
        list_exclude: Vec::new(),
        list_cache: false,
    };
    let mut i: usize = 0;
    proof {
        assert(all.take(0) =~= Seq::empty());
        assert(s@ =~= no_settings());
    }
    while i < found.len()
        invariant
            i <= found@.len(),
            all == listed_views(found@),
            s@ == listed_settings(all.take(i as int)),
        decreases found@.len() - i,
    {
        proof {
            assert(all.take(i + 1).drop_last() =~= all.take(i as int));
            assert(all.take(i + 1).last() == all[i as int]);
        }
        s = apply(s, found[i].0.as_str(), &found[i].1);
        i += 1;
    }
    assert(all.take(i as int) =~= all);
    s
}

/// The entry that git lists for a setting: the names of the section and of
/// the setting in lower case, the subsection as it is.
pub open spec fn listed_entry(section: SectionView, e: EntryView) -> Listed {
    let scope = match section.subsection {
        Some(sub) => decode_utf8(sub) + "."@,
        None => Seq::empty(),
    };
    (
        ascii_lower(section.name) + "."@ + scope + ascii_lower(e.name),
        if e.bare() {
            None
        } else {
            Some(e.value)
        },
    )
}

/// The entries that git lists for the settings of a section.
pub open spec fn listed_section(section: SectionView) -> Seq<Listed> {
    Seq::new(section.entries.len(), |i: int| listed_entry(section, section.entries[i]))
}

/// The entries that git lists for sections.
pub open spec fn listing_of(sections: Seq<SectionView>) -> Seq<Listed>
    decreases sections.len(),
{
    if sections.len() == 0 {
        Seq::empty()
    } else {
        listing_of(sections.drop_last()) + listed_section(sections.last())
    }
}

/// Whether git lists a section's settings as they are: names hold no dot, as
/// git's grammar has it, and no text among the settings read here is written
/// without `=`.
pub open spec fn is_listable(section: SectionView) -> bool {
    &&& !section.name.contains('.')
    &&& forall|i: int|
        0 <= i < section.entries.len() ==> {
            let e = #[trigger] section.entries[i];
            &&& !e.name.contains('.')
            &&& is_called(section, "scap"@, false) && (same_name(e.name, "user"@) || same_name(
                e.name,
                "listExclude"@,
            )) ==> !e.bare()
        }
}

/// Lowering does not make dots, nor loses them.
proof fn lemma_lower_dots(s: Seq<char>)
    requires
        !s.contains('.'),
    ensures
        !ascii_lower(s).contains('.'),
{
    let low = ascii_lower(s);
    if low.contains('.') {
        let k = choose|k: int| 0 <= k < low.len() && low[k] == '.';
        assert(s[k] == '.');
    }
}

/// The keys that are read, in lower case.
proof fn lemma_lower_keys()
    ensures
        ascii_lower("scap"@) == "scap"@,
        ascii_lower("root"@) == "root"@,
        ascii_lower("user"@) == "user"@,
        ascii_lower("completeUser"@) == "completeuser"@,
        ascii_lower("listExclude"@) == "listexclude"@,
        ascii_lower("listCache"@) == "listcache"@,
        "root"@ != "user"@,
        "root"@ != "completeuser"@,
        "root"@ != "listexclude"@,
        "root"@ != "listcache"@,
        "user"@ != "completeuser"@,
        "user"@ != "listexclude"@,
        "user"@ != "listcache"@,
        "completeuser"@ != "listexclude"@,
        "completeuser"@ != "listcache"@,
        "listexclude"@ != "listcache"@,
{
    reveal_strlit("scap");
    reveal_strlit("root");
    reveal_strlit("user");
    reveal_strlit("completeUser");
    reveal_strlit("completeuser");
    reveal_strlit("listExclude");
    reveal_strlit("listexclude");
    reveal_strlit("listCache");
    reveal_strlit("listcache");
    assert(ascii_lower("scap"@) =~= "scap"@);
    assert(ascii_lower("root"@) =~= "root"@);
    assert(ascii_lower("user"@) =~= "user"@);
    assert(ascii_lower("completeUser"@) =~= "completeuser"@);
    assert(ascii_lower("listExclude"@) =~= "listexclude"@);
    assert(ascii_lower("listCache"@) =~= "listcache"@);
    assert("root"@[0] == 'r' && "user"@[0] == 'u');
    assert("completeuser"@.len() == 12);
    assert("listexclude"@.len() == 11);
    assert("listcache"@.len() == 9);
}

/// What the parts of a listed key are.
proof fn lemma_listed_key(section: SectionView, e: EntryView)
    requires
        !section.name.contains('.'),
        !e.name.contains('.'),
    ensures
        ({
            let key = listed_entry(section, e).0;
            let rest = key.skip("scap."@.len() as int);
            &&& has_prefix(key, "scap."@) == same_name(section.name, "scap"@)
            &&& same_name(section.name, "scap"@) ==> {
                &&& rest.contains('.') == (section.subsection is Some)
                &&& section.subsection is Some ==> after_last(rest, '.') == ascii_lower(e.name)
                &&& section.subsection is None ==> rest == ascii_lower(e.name)
            }
        }),
{
    lemma_lower_keys();
    lemma_lower_dots(section.name);
    lemma_lower_dots(e.name);
    reveal_strlit("scap.");
    reveal_strlit("scap");
    reveal_strlit(".");
    let low = ascii_lower(section.name);
    let name = ascii_lower(e.name);
    let scope = match section.subsection {
        Some(sub) => decode_utf8(sub) + "."@,
        None => Seq::empty(),
    };
    let key = listed_entry(section, e).0;
    assert(key =~= low + "."@ + scope + name);
    assert(key[low.len() as int] == '.');
    if has_prefix(key, "scap."@) {
        let head = key.subrange(0, 5);
        assert(head =~= "scap."@);
        assert(key[0] == head[0] && key[1] == head[1] && key[2] == head[2] && key[3] == head[3]
            && key[4] == head[4]);
        if low.len() > 4 {
            assert(low[4] == key[4]);
            assert(low.contains('.'));
        }
        assert(low.len() == 4);
        assert forall|j: int| 0 <= j < 4 implies low[j] == "scap"@[j] by {
            assert(low[j] == key[j]);
        }
        assert(low =~= "scap"@);
    }
    if low == "scap"@ {
        assert(key.subrange(0, 5) =~= "scap."@);
        let rest = key.skip(5);
        assert(rest =~= scope + name);
        match section.subsection {
            Some(sub) => {
                let text = decode_utf8(sub);
                assert(rest =~= text + "."@ + name);
                assert(rest[text.len() as int] == '.');
                assert forall|j: int| text.len() < j < rest.len() implies rest[j] != '.' by {
                    assert(rest[j] == name[j - text.len() - 1]);
                }
                lemma_around_last(rest, '.', text.len() as int);
                assert(rest.skip(text.len() as int + 1) =~= name);
            },
            None => {
                assert(rest =~= name);
            },
        }
    }
}

/// A section with only the first of its settings.
pub open spec fn shortened(section: SectionView, n: int) -> SectionView {
    SectionView { entries: section.entries.take(n), ..section }
}

/// One more value behind those that are not empty.
proof fn lemma_nonempty_push(values: Seq<Seq<u8>>, v: Seq<u8>)
    ensures
        nonempty(values.push(v)) == with_root(nonempty(values), Some(v)),
{
    assert(values.push(v).drop_last() =~= values);
}

/// One more setting of a section changes what sections say as its listed
/// entry does.
proof fn lemma_one_more_setting(before: Seq<SectionView>, section: SectionView, n: int)
    requires
        is_listable(section),
        0 <= n < section.entries.len(),
    ensures
        file_settings(before.push(shortened(section, n + 1))) == with_entry(
            file_settings(before.push(shortened(section, n))),
            listed_entry(section, section.entries[n]),
        ),
{
    let e = section.entries[n];
    let a = before.push(shortened(section, n));
    let b = before.push(shortened(section, n + 1));
    let short = section.entries.take(n);
    let long = section.entries.take(n + 1);
    lemma_listed_key(section, e);
    lemma_lower_keys();
    assert(a.drop_last() =~= before);
    assert(b.drop_last() =~= before);
    assert(long.drop_last() =~= short);
    assert(long.last() == e);
    let listed = listed_entry(section, e);
    let x = file_settings(a);
    let y = file_settings(b);
    let z = with_entry(x, listed);
    assert forall|scoped: bool, name: Seq<char>| #[trigger]
        section_values(b, "scap"@, scoped, name) == (if is_called(section, "scap"@, scoped)
            && same_name(e.name, name) {
            section_values(a, "scap"@, scoped, name).push(e.value)
        } else {
            section_values(a, "scap"@, scoped, name)
        }) by {
        let head = section_values(before, "scap"@, scoped, name);
        if is_called(section, "scap"@, scoped) && same_name(e.name, name) {
            assert(head + values_of(short, name).push(e.value) =~= (head + values_of(
                short,
                name,
            )).push(e.value));
        }
    }
    let roots_a = section_values(a, "scap"@, false, "root"@);
    let scoped_a = section_values(a, "scap"@, true, "root"@);
    lemma_nonempty_push(roots_a, e.value);
    lemma_nonempty_push(scoped_a, e.value);
    let _ = section_values(b, "scap"@, false, "root"@);
    let _ = section_values(b, "scap"@, true, "root"@);
    assert(y.roots =~= z.roots);
    assert(y.url_scoped_roots =~= z.url_scoped_roots);
    assert(y.list_exclude =~= z.list_exclude) by {
        let texts_a = section_values(a, "scap"@, false, "listExclude"@);
        assert(value_texts(texts_a.push(e.value)) =~= value_texts(texts_a).push(
            path_text(e.value),
        ));
        let _ = section_values(b, "scap"@, false, "listExclude"@);
    }
    assert(y.user == z.user);
    assert(y.complete_user == z.complete_user);
    assert(y.list_cache == z.list_cache);
    assert(y =~= z);
}

/// A section without settings says nothing.
proof fn lemma_no_setting(before: Seq<SectionView>, section: SectionView)
    ensures
        file_settings(before.push(shortened(section, 0))) == file_settings(before),
{
    let a = before.push(shortened(section, 0));
    assert(a.drop_last() =~= before);
    assert(section.entries.take(0) =~= Seq::empty());
    assert forall|scoped: bool, name: Seq<char>| #[trigger]
        section_values(a, "scap"@, scoped, name) == section_values(before, "scap"@, scoped, name) by {
        assert(section_values(a, "scap"@, scoped, name) =~= section_values(
            before,
            "scap"@,
            scoped,
            name,
        ));
    }
    assert(file_settings(a) =~= file_settings(before));
}

/// The first settings of a section change what sections say as their listed
/// entries do.
proof fn lemma_settings_of_a_section(
    before: Seq<SectionView>,
    section: SectionView,
    listed: Seq<Listed>,
    n: int,
)
    requires
        is_listable(section),
        0 <= n <= section.entries.len(),
        listed_settings(listed) == file_settings(before),
    ensures
        listed_settings(listed + listed_section(section).take(n)) == file_settings(
            before.push(shortened(section, n)),
        ),
    decreases n,
{
    let here = listed_section(section);
    if n == 0 {
        assert(listed + here.take(0) =~= listed);
        lemma_no_setting(before, section);
    } else {
        lemma_settings_of_a_section(before, section, listed, n - 1);
        lemma_one_more_setting(before, section, n - 1);
        let whole = listed + here.take(n);
        assert(whole.drop_last() =~= listed + here.take(n - 1));
        assert(whole.last() == here[n - 1]);
    }
}

/// A setting that git lists without a value switches on what can be switched,
/// empties the user's name, and adds neither a root nor a pattern. What it
/// does not name stays.
pub proof fn law_setting_without_a_value(entries: Seq<Listed>, name: Seq<char>)
    requires
        !name.contains('.'),
    ensures
        ({
            let before = listed_settings(entries);
            let after = listed_settings(entries.push(("scap."@ + name, None)));
            &&& after.roots == before.roots
            &&& after.url_scoped_roots == before.url_scoped_roots
            &&& after.list_exclude == before.list_exclude
            &&& name == "user"@ ==> after.user == Some(Seq::<char>::empty())
            &&& name != "user"@ ==> after.user == before.user
            &&& after.complete_user == (name == "completeuser"@ || before.complete_user)
            &&& after.list_cache == (name == "listcache"@ || before.list_cache)
        }),
{
    reveal_strlit("root");
    reveal_strlit("user");
    reveal_strlit("completeuser");
    reveal_strlit("listexclude");
    reveal_strlit("listcache");
    let key = "scap."@ + name;
    let more = entries.push((key, None));
    assert(more.drop_last() =~= entries);
    assert(has_prefix(key, "scap."@)) by {
        assert(key.take("scap."@.len() as int) =~= "scap."@);
    }
    assert(key.skip("scap."@.len() as int) =~= name);
    assert("root"@[0] != "user"@[0] && "user"@.len() == 4 && "completeuser"@.len() == 12
        && "listexclude"@.len() == 11 && "listcache"@.len() == 9);
}

/// Both readers of the configuration see the same settings: what git lists
/// for sections says what the sections say.
pub proof fn law_both_readers_agree(sections: Seq<SectionView>)
    requires
        forall|i: int| 0 <= i < sections.len() ==> is_listable(#[trigger] sections[i]),
    ensures
        listed_settings(listing_of(sections)) == file_settings(sections),
    decreases sections.len(),
{
    if sections.len() == 0 {
        assert(file_settings(sections) =~= no_settings()) by {
            reveal_with_fuel(kept, 2);
        }
    } else {
        let before = sections.drop_last();
        let section = sections.last();
        assert forall|i: int| 0 <= i < before.len() implies is_listable(#[trigger] before[i]) by {
            assert(before[i] == sections[i]);
        }
        law_both_readers_agree(before);
        assert(is_listable(sections[sections.len() - 1]));
        let n = section.entries.len() as int;
        lemma_settings_of_a_section(before, section, listing_of(before), n);
        assert(listed_section(section).take(n) =~= listed_section(section));
        assert(shortened(section, n) =~= section) by {
            assert(section.entries.take(n) =~= section.entries);
        }
        assert(before.push(section) =~= sections);
    }
}

/// A git that was found, or the error that it is needed.
pub fn required_git(program: Option<Vec<u8>>, reason: &'static str) -> (r: Result<
    Vec<u8>,
    ConfigError,
>)
    ensures
        match program {
            Some(p) => r is Ok && (r->Ok_0)@ == p@,
            None => r is Err && (r->Err_0)@ == (ConfigErrorView::GitRequired { reason: reason@ }),
        },
{
    match program {
        Some(p) => Ok(p),
        None => Err(ConfigError::GitRequired { reason }),
    }
}

/// Why git is needed for the root of a URL.
pub fn urlmatch_reason() -> (r: &'static str)
    ensures
        r@ == "url-scoped [scap \"<url>\"] sections require `git config --get-urlmatch`"@,
{
    "url-scoped [scap \"<url>\"] sections require `git config --get-urlmatch`"
}

/// The arguments with which git lists the settings.
pub fn listing_args() -> (r: Vec<String>)
    ensures
        texts(r@) == seq!["config"@, "--list"@, "-z"@, "--show-origin"@],
{
    let mut out: Vec<String> = Vec::new();
    out.push(String::from_str("config"));
    out.push(String::from_str("--list"));
    out.push(String::from_str("-z"));
    out.push(String::from_str("--show-origin"));
    assert(texts(out@) =~= seq!["config"@, "--list"@, "-z"@, "--show-origin"@]);
    out
}

/// The arguments with which git is asked for the root of a URL.
pub fn urlmatch_args(url: &str) -> (r: Vec<String>)
    ensures
        texts(r@) == seq!["config"@, "--path"@, "--get-urlmatch"@, "scap.root"@, url@],
{
    let mut out: Vec<String> = Vec::new();
    out.push(String::from_str("config"));
    out.push(String::from_str("--path"));
    out.push(String::from_str("--get-urlmatch"));
    out.push(String::from_str("scap.root"));
    out.push(String::from_str(url));
    assert(texts(out@) =~= seq!["config"@, "--path"@, "--get-urlmatch"@, "scap.root"@, url@]);
    out
}

/// What git listed, given how it ended and what it printed. It ends with
/// status 1 where nothing is configured.
pub fn listing_outcome(status: Option<i32>, stdout: Vec<u8>, stderr: &[u8]) -> (r: Result<
    Vec<u8>,
    ConfigError,
>)
    ensures
        match status {
            Some(0) => r is Ok && (r->Ok_0)@ == stdout@,
            Some(1) => r is Ok && (r->Ok_0)@ == Seq::<u8>::empty(),
            _ => r is Err && (r->Err_0)@ == (ConfigErrorView::GitConfigFailed {
                key: "--list"@,
                status: match status {
                    Some(n) => n,
                    None => -1i32,
                },
                stderr: shown_path(stderr@),
            }),
        },
{
    let code: i32 = match status {
        Some(n) => n,
        None => -1,
    };
    if status.is_some() && code == 0 {
        return Ok(stdout);
    }
    if status.is_some() && code == 1 {
        return Ok(Vec::new());
    }
    Err(
        ConfigError::GitConfigFailed {
            key: String::from_str("--list"),
            status: code,
            stderr: lossy_text(stderr),
        },
    )
}

/// What a variable is set to for git; unset where there is no value.
pub type Variable = (Seq<char>, Option<Seq<u8>>);

/// The variables that git sees as the configuration does. Every other one it
/// has from the process.
pub open spec fn git_variables(env: EnvView) -> Seq<Variable> {
    let named = seq![
        ("HOME"@, env.home),
        ("XDG_CONFIG_HOME"@, env.xdg_config_home),
        ("GIT_CONFIG_GLOBAL"@, env.git_config_global),
        ("GIT_CONFIG_SYSTEM"@, env.git_config_system),
        ("GIT_CONFIG_NOSYSTEM"@, env.git_config_nosystem),
        ("GIT_CONFIG_COUNT"@, env.git_config_count),
        ("GIT_CONFIG_PARAMETERS"@, env.git_config_parameters),
        ("GIT_DIR"@, env.git_dir),
        ("GIT_CEILING_DIRECTORIES"@, env.git_ceiling_directories),
    ];
    if env.path is Some {
        named.push(("PATH"@, env.path))
    } else {
        named
    }
}

fn variable(key: &str, value: &Option<Vec<u8>>) -> (r: (String, Option<Vec<u8>>))
    ensures
        (r.0@, opt_view(r.1)) == (key@, opt_view(*value)),
{
    let copy = match value {
        Some(v) => Some(slice_to_vec(v.as_slice())),
        None => None,
    };
    (String::from_str(key), copy)
}

/// The variables that git sees as the configuration does.
pub fn apply_env(env: &Env) -> (r: Vec<(String, Option<Vec<u8>>)>)
    ensures
        listed_views(r@) == git_variables(env@),
{
    let mut out: Vec<(String, Option<Vec<u8>>)> = Vec::new();
    out.push(variable("HOME", &env.home));
    out.push(variable("XDG_CONFIG_HOME", &env.xdg_config_home));
    out.push(variable("GIT_CONFIG_GLOBAL", &env.git_config_global));
    out.push(variable("GIT_CONFIG_SYSTEM", &env.git_config_system));
    out.push(variable("GIT_CONFIG_NOSYSTEM", &env.git_config_nosystem));
    out.push(variable("GIT_CONFIG_COUNT", &env.git_config_count));
    out.push(variable("GIT_CONFIG_PARAMETERS", &env.git_config_parameters));
    out.push(variable("GIT_DIR", &env.git_dir));
    out.push(variable("GIT_CEILING_DIRECTORIES", &env.git_ceiling_directories));
    if env.path.is_some() {
        out.push(variable("PATH", &env.path));
    }
    assert(listed_views(out@) =~= git_variables(env@));
    out
}

/// How a setting is written in a listing: where it comes from, and the key
/// with its value behind a line feed, each ended by a zero byte.
pub open spec fn framed(origin: Seq<u8>, key: Seq<u8>, value: Option<Seq<u8>>) -> Seq<u8> {
    let record = match value {
        Some(v) => key.push(0x0a) + v,
        None => key,
    };
    (origin.push(0) + record).push(0)
}

/// Whether a setting can be written in a listing.
pub open spec fn is_frameable(origin: Seq<u8>, key: Seq<u8>, value: Option<Seq<u8>>) -> bool {
    &&& !origin.contains(0)
    &&& !key.contains(0)
    &&& !key.contains(0x0a)
    &&& key.len() > 0
    &&& valid_utf8(key)
    &&& value matches Some(v) ==> !v.contains(0)
}

/// What is read back of a listing: one more setting behind it adds exactly
/// that setting.
#[verifier::rlimit(50)]
#[verifier::spinoff_prover]
pub proof fn law_listing_gives_back_what_was_written(
    listing: Seq<u8>,
    origin: Seq<u8>,
    key: Seq<u8>,
    value: Option<Seq<u8>>,
)
    requires
        is_frameable(origin, key, value),
        listing.len() == 0 || listing.last() == 0,
        split_on(listing, 0u8).len() % 2 == 1,
    ensures
        entries_of(records(split_on(listing + framed(origin, key, value), 0u8))) == entries_of(
            records(split_on(listing, 0u8)),
        ).push((decode_utf8(key), value)),
        split_on(listing + framed(origin, key, value), 0u8).len() % 2 == 1,
{
    let record = match value {
        Some(v) => key.push(0x0a) + v,
        None => key,
    };
    let none = Seq::<u8>::empty();
    let before = split_on(listing, 0u8);
    assert(!record.contains(0)) by {
        if record.contains(0) {
            let k = choose|k: int| 0 <= k < record.len() && record[k] == 0;
            if k < key.len() {
                assert(key[k] == 0);
            } else if k > key.len() {
                assert((value->0)[k - key.len() - 1] == 0);
            }
        }
    }
    // The last field of the listing is empty; the origin takes its place.
    lemma_split_nonempty(listing, 0u8);
    assert(before.last() == none) by {
        if listing.len() > 0 {
            assert(before == split_on(listing.drop_last(), 0u8).push(none));
        }
    }
    let with_origin = listing + origin;
    let head = before.drop_last();
    assert(split_on(with_origin, 0u8) == head.push(origin)) by {
        if listing.len() == 0 {
            assert(with_origin =~= origin);
            lemma_split_whole(origin, 0u8);
            assert(head =~= Seq::empty());
        } else {
            let shorter = listing.drop_last();
            assert(with_origin =~= shorter.push(0) + origin);
            lemma_split_appended(shorter, origin, 0u8);
            assert(head =~= split_on(shorter, 0u8));
        }
    }
    lemma_split_appended(with_origin, record, 0u8);
    let with_record = with_origin.push(0) + record;
    assert(!none.contains(0u8));
    lemma_split_appended(with_record, none, 0u8);
    let whole = listing + framed(origin, key, value);
    assert(whole =~= with_record.push(0) + none);
    let after = split_on(whole, 0u8);
    assert(after == head.push(origin).push(record).push(none));
    assert(before.len() == head.len() + 1);
    assert(after.len() == before.len() + 2);
    let old_records = records(before);
    let new_records = records(after);
    assert(new_records =~= old_records.push(record)) by {
        assert forall|i: int| 0 <= i < old_records.len() implies new_records[i] == old_records[i] by {
            assert(2 * i + 1 < head.len());
        }
        let last = old_records.len() as int;
        assert(2 * last + 1 == head.len() + 1);
        assert(new_records[last] == after[2 * last + 1]);
    }
    assert(new_records.drop_last() =~= old_records);
    match value {
        Some(v) => {
            assert(record[key.len() as int] == 0x0a);
            assert forall|j: int| 0 <= j < key.len() implies record[j] != 0x0a by {
                assert(record[j] == key[j]);
            }
            lemma_before_first(record, 0x0a, key.len() as int);
            assert(record.take(key.len() as int) =~= key);
            assert(record.skip(key.len() as int + 1) =~= v);
        },
        None => {
            lemma_before_none(record, 0x0a);
        },
    }
}

/// Git is told everything that its configuration rests on: two environments
/// that it sees alike agree in each of these, and each is set under its name.
pub proof fn law_git_sees_the_environment(a: EnvView, b: EnvView)
    ensures
        git_variables(a) == git_variables(b) ==> a.home == b.home && a.xdg_config_home
            == b.xdg_config_home && a.git_config_global == b.git_config_global
            && a.git_config_system == b.git_config_system && a.git_config_nosystem
            == b.git_config_nosystem && a.git_config_count == b.git_config_count
            && a.git_config_parameters == b.git_config_parameters && a.git_dir == b.git_dir
            && a.git_ceiling_directories == b.git_ceiling_directories && a.path == b.path,
        git_variables(a).contains(("HOME"@, a.home)),
        git_variables(a).contains(("XDG_CONFIG_HOME"@, a.xdg_config_home)),
        git_variables(a).contains(("GIT_CONFIG_GLOBAL"@, a.git_config_global)),
        git_variables(a).contains(("GIT_CONFIG_SYSTEM"@, a.git_config_system)),
        git_variables(a).contains(("GIT_CONFIG_NOSYSTEM"@, a.git_config_nosystem)),
        git_variables(a).contains(("GIT_CONFIG_COUNT"@, a.git_config_count)),
        git_variables(a).contains(("GIT_CONFIG_PARAMETERS"@, a.git_config_parameters)),
        git_variables(a).contains(("GIT_DIR"@, a.git_dir)),
        git_variables(a).contains(("GIT_CEILING_DIRECTORIES"@, a.git_ceiling_directories)),
{
    let one = git_variables(a);
    let other = git_variables(b);
    if one == other {
        assert(one[0] == other[0]);
        assert(one[1] == other[1]);
        assert(one[2] == other[2]);
        assert(one[3] == other[3]);
        assert(one[4] == other[4]);
        assert(one[5] == other[5]);
        assert(one[6] == other[6]);
        assert(one[7] == other[7]);
        assert(one[8] == other[8]);
        if a.path is Some {
            assert(one[9] == other[9]);
        }
    }
    assert(one[0] == ("HOME"@, a.home));
    assert(one[1] == ("XDG_CONFIG_HOME"@, a.xdg_config_home));
    assert(one[2] == ("GIT_CONFIG_GLOBAL"@, a.git_config_global));
    assert(one[3] == ("GIT_CONFIG_SYSTEM"@, a.git_config_system));
    assert(one[4] == ("GIT_CONFIG_NOSYSTEM"@, a.git_config_nosystem));
    assert(one[5] == ("GIT_CONFIG_COUNT"@, a.git_config_count));
    assert(one[6] == ("GIT_CONFIG_PARAMETERS"@, a.git_config_parameters));
    assert(one[7] == ("GIT_DIR"@, a.git_dir));
    assert(one[8] == ("GIT_CEILING_DIRECTORIES"@, a.git_ceiling_directories));
}

} // verus!
