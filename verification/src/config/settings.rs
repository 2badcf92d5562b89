//! What the configuration files say.

use vstd::prelude::*;
use vstd::slice::slice_to_vec;
use vstd::utf8::{encode_utf8, is_ascii_chars_encode_utf8};

use crate::bytes::{
    has_prefix, kept, lemma_kept_appended, lower_byte, lower_bytes, same_ignoring_case, views,
};
use crate::config::values::{git_boolean, is_on};
use crate::text::{
    ascii_lower, ascii_lowercase, path_str, path_text, strip, stripped, text_eq, texts,
};
use crate::url::opt_string;

verus! {

/// One setting of a section.
#[derive(Debug)]
pub struct Entry {
    pub name: String,
    /// The value; empty for one without.
    pub value: Vec<u8>,
    /// Whether the last setting of this name in the section was written
    /// without `=`.
    pub implicit: bool,
}

/// A section of a configuration file: `[name]` or `[name "subsection"]`.
#[derive(Debug)]
pub struct Section {
    pub name: String,
    pub subsection: Option<Vec<u8>>,
    pub entries: Vec<Entry>,
}

/// What an [`Entry`] holds.
#[verifier::ext_equal]
pub struct EntryView {
    pub name: Seq<char>,
    pub value: Seq<u8>,
    pub implicit: bool,
}

/// What a [`Section`] holds.
#[verifier::ext_equal]
pub struct SectionView {
    pub name: Seq<char>,
    pub subsection: Option<Seq<u8>>,
    pub entries: Seq<EntryView>,
}

impl View for Entry {
    type V = EntryView;

    open spec fn view(&self) -> EntryView {
        EntryView { name: self.name@, value: self.value@, implicit: self.implicit }
    }
}

/// What a list of settings holds.
pub open spec fn entry_views(v: Seq<Entry>) -> Seq<EntryView> {
    Seq::new(v.len(), |i: int| v[i]@)
}

impl View for Section {
    type V = SectionView;

    open spec fn view(&self) -> SectionView {
        SectionView {
            name: self.name@,
            subsection: match self.subsection {
                Some(s) => Some(s@),
                None => None,
            },
            entries: entry_views(self.entries@),
        }
    }
}

/// What a list of sections holds.
pub open spec fn section_views(v: Seq<Section>) -> Seq<SectionView> {
    Seq::new(v.len(), |i: int| v[i]@)
}

/// Whether two names are equal up to the case of ASCII letters.
pub open spec fn same_name(a: Seq<char>, b: Seq<char>) -> bool {
    ascii_lower(a) == ascii_lower(b)
}

fn names_eq(a: &str, b: &str) -> (r: bool)
    ensures
        r == same_name(a@, b@),
{
    text_eq(ascii_lowercase(a).as_str(), ascii_lowercase(b).as_str())
}

/// The values that settings give a name, in order.
pub open spec fn values_of(entries: Seq<EntryView>, name: Seq<char>) -> Seq<Seq<u8>>
    decreases entries.len(),
{
    if entries.len() == 0 {
        Seq::empty()
    } else {
        let before = values_of(entries.drop_last(), name);
        if same_name(entries.last().name, name) {
            before.push(entries.last().value)
        } else {
            before
        }
    }
}

impl EntryView {
    /// Whether the setting is written without `=`.
    pub open spec fn bare(self) -> bool {
        self.implicit && self.value.len() == 0
    }
}

/// The last value that settings give a name, with `Some(None)` for one
/// written without `=`.
pub open spec fn last_value(entries: Seq<EntryView>, name: Seq<char>) -> Option<Option<Seq<u8>>>
    decreases entries.len(),
{
    if entries.len() == 0 {
        None
    } else if same_name(entries.last().name, name) {
        if entries.last().bare() {
            Some(None)
        } else {
            Some(Some(entries.last().value))
        }
    } else {
        last_value(entries.drop_last(), name)
    }
}

/// Whether a section has a name and, where that is asked for, a subsection,
/// or else none.
pub open spec fn is_called(s: SectionView, name: Seq<char>, scoped: bool) -> bool {
    same_name(s.name, name) && s.subsection is Some == scoped
}

/// The values that the sections of a name give a setting, in order.
pub open spec fn section_values(
    sections: Seq<SectionView>,
    section: Seq<char>,
    scoped: bool,
    name: Seq<char>,
) -> Seq<Seq<u8>>
    decreases sections.len(),
{
    if sections.len() == 0 {
        Seq::empty()
    } else {
        let before = section_values(sections.drop_last(), section, scoped, name);
        if is_called(sections.last(), section, scoped) {
            before + values_of(sections.last().entries, name)
        } else {
            before
        }
    }
}

/// The last value that the plain sections of a name give a setting; a
/// section whose last one is written without `=` gives none.
pub open spec fn plain_string(
    sections: Seq<SectionView>,
    section: Seq<char>,
    name: Seq<char>,
) -> Option<Seq<u8>>
    decreases sections.len(),
{
    if sections.len() == 0 {
        None
    } else if is_called(sections.last(), section, false) && (last_value(
        sections.last().entries,
        name,
    ) matches Some(v) && v is Some) {
        last_value(sections.last().entries, name)->0
    } else {
        plain_string(sections.drop_last(), section, name)
    }
}

/// Whether the plain sections of a name switch a setting on: the last one to
/// give it decides.
pub open spec fn plain_boolean(
    sections: Seq<SectionView>,
    section: Seq<char>,
    name: Seq<char>,
) -> Option<bool>
    decreases sections.len(),
{
    if sections.len() == 0 {
        None
    } else if is_called(sections.last(), section, false) && last_value(
        sections.last().entries,
        name,
    ) is Some {
        Some(is_on(last_value(sections.last().entries, name)->0))
    } else {
        plain_boolean(sections.drop_last(), section, name)
    }
}

/// The last value that settings give a name.
fn value_implicit<'a>(entries: &'a Vec<Entry>, name: &str) -> (r: Option<Option<&'a [u8]>>)
    ensures
        match r {
            None => last_value(entry_views(entries@), name@) is None,
            Some(None) => last_value(entry_views(entries@), name@) == Some(None::<Seq<u8>>),
            Some(Some(v)) => last_value(entry_views(entries@), name@) == Some(Some(v@)),
        },
{
    let ghost all = entry_views(entries@);
    let mut n: usize = entries.len();
    assert(all.take(n as int) =~= all);
    while n > 0
        invariant
            n <= entries@.len(),
            all == entry_views(entries@),
            last_value(all, name@) == last_value(all.take(n as int), name@),
        decreases n,
    {
        let e = &entries[n - 1];
        proof {
            assert(all.take(n as int).drop_last() =~= all.take(n - 1));
            assert(all.take(n as int).last() == e@);
        }
        if names_eq(e.name.as_str(), name) {
            if e.implicit && e.value.len() == 0 {
                return Some(None);
            }
            return Some(Some(e.value.as_slice()));
        }
        n = n - 1;
    }
    None
}

/// Whether the plain sections of a name switch a setting on.
pub fn boolean_of(sections: &[Section], section: &str, name: &str) -> (r: Option<bool>)
    ensures
        r == plain_boolean(section_views(sections@), section@, name@),
{
    let ghost all = section_views(sections@);
    let mut found: Option<bool> = None;
    let mut i: usize = 0;
    assert(all.take(0) =~= Seq::empty());
    while i < sections.len()
        invariant
            i <= sections@.len(),
            all == section_views(sections@),
            found == plain_boolean(all.take(i as int), section@, name@),
        decreases sections@.len() - i,
    {
        let s = &sections[i];
        proof {
            assert(all.take(i + 1).drop_last() =~= all.take(i as int));
            assert(all.take(i + 1).last() == s@);
        }
        if names_eq(s.name.as_str(), section) && s.subsection.is_none() {
            if let Some(value) = value_implicit(&s.entries, name) {
                found = Some(git_boolean(value));
            }
        }
        i += 1;
    }
    assert(all.take(i as int) =~= all);
    found
}

/// The last value that the plain sections of a name give a setting.
fn string_of(sections: &[Section], section: &str, name: &str) -> (r: Option<Vec<u8>>)
    ensures
        match r {
            Some(v) => plain_string(section_views(sections@), section@, name@) == Some(v@),
            None => plain_string(section_views(sections@), section@, name@) is None,
        },
{
    let ghost all = section_views(sections@);
    let mut n: usize = sections.len();
    assert(all.take(n as int) =~= all);
    while n > 0
        invariant
            n <= sections@.len(),
            all == section_views(sections@),
            plain_string(all, section@, name@) == plain_string(
                all.take(n as int),
                section@,
                name@,
            ),
        decreases n,
    {
        let s = &sections[n - 1];
        proof {
            assert(all.take(n as int).drop_last() =~= all.take(n - 1));
            assert(all.take(n as int).last() == s@);
        }
        if names_eq(s.name.as_str(), section) && s.subsection.is_none() {
            if let Some(Some(v)) = value_implicit(&s.entries, name) {
                return Some(slice_to_vec(v));
            }
        }
        n = n - 1;
    }
    None
}

/// The values that the sections of a name give a setting, in order.
fn strings_of(sections: &[Section], section: &str, scoped: bool, name: &str) -> (r: Vec<Vec<u8>>)
    ensures
        views(r@) == section_values(section_views(sections@), section@, scoped, name@),
{
    let ghost all = section_views(sections@);
    let mut out: Vec<Vec<u8>> = Vec::new();
    let mut i: usize = 0;
    assert(all.take(0) =~= Seq::empty());
    assert(views(out@) =~= section_values(all.take(0), section@, scoped, name@));
    while i < sections.len()
        invariant
            i <= sections@.len(),
            all == section_views(sections@),
            views(out@) == section_values(all.take(i as int), section@, scoped, name@),
        decreases sections@.len() - i,
    {
        let s = &sections[i];
        proof {
            assert(all.take(i + 1).drop_last() =~= all.take(i as int));
            assert(all.take(i + 1).last() == s@);
        }
        if names_eq(s.name.as_str(), section) && s.subsection.is_some() == scoped {
            let ghost before = views(out@);
            let ghost entries = s@.entries;
            let mut k: usize = 0;
            proof {
                assert(entries.take(0) =~= Seq::empty());
                assert(before + values_of(entries.take(0), name@) =~= before);
            }
            while k < s.entries.len()
                invariant
                    k <= s.entries@.len(),
                    entries == entry_views(s.entries@),
                    views(out@) == before + values_of(entries.take(k as int), name@),
                decreases s.entries@.len() - k,
            {
                let e = &s.entries[k];
                proof {
                    assert(entries.take(k + 1).drop_last() =~= entries.take(k as int));
                    assert(entries.take(k + 1).last() == e@);
                }
                if names_eq(e.name.as_str(), name) {
                    let ghost old_out = out@;
                    out.push(slice_to_vec(e.value.as_slice()));
                    assert(views(out@) =~= views(old_out).push(e.value@));
                    assert(views(out@) =~= before + values_of(entries.take(k + 1), name@));
                }
                k += 1;
            }
            assert(entries.take(k as int) =~= entries);
        }
        i += 1;
    }
    assert(all.take(i as int) =~= all);
    out
}

/// Whether a section is an inclusion on a condition that only git can
/// evaluate.
pub open spec fn is_unevaluable(s: SectionView) -> bool {
    &&& same_name(s.name, "includeIf"@)
    &&& s.subsection matches Some(condition) && (crate::bytes::has_prefix(
        crate::bytes::lower_bytes(condition),
        vstd::utf8::encode_utf8("onbranch:"@),
    ) || crate::bytes::has_prefix(
        crate::bytes::lower_bytes(condition),
        vstd::utf8::encode_utf8("hasconfig:"@),
    ))
}

/// A byte string with its ASCII letters in lower case.
fn lowered_bytes(s: &[u8]) -> (r: Vec<u8>)
    ensures
        r@ == crate::bytes::lower_bytes(s@),
{
    let mut out: Vec<u8> = Vec::new();
    let mut i: usize = 0;
    assert(out@ =~= crate::bytes::lower_bytes(s@).take(0));
    while i < s.len()
        invariant
            i <= s@.len(),
            out@ == crate::bytes::lower_bytes(s@).take(i as int),
        decreases s@.len() - i,
    {
        out.push(crate::bytes::lower(s[i]));
        i += 1;
        assert(out@ =~= crate::bytes::lower_bytes(s@).take(i as int));
    }
    assert(crate::bytes::lower_bytes(s@).take(i as int) =~= crate::bytes::lower_bytes(s@));
    out
}

/// Whether some section is an inclusion on a condition that only git can
/// evaluate.
pub fn has_unevaluable_includeif(sections: &[Section]) -> (r: bool)
    ensures
        r == exists|i: int|
            0 <= i < sections@.len() && is_unevaluable(#[trigger] section_views(sections@)[i]),
{
    let ghost all = section_views(sections@);
    let mut i: usize = 0;
    while i < sections.len()
        invariant
            i <= sections@.len(),
            all == section_views(sections@),
            forall|j: int| 0 <= j < i ==> !is_unevaluable(#[trigger] all[j]),
        decreases sections@.len() - i,
    {
        let s = &sections[i];
        assert(all[i as int] == s@);
        if names_eq(s.name.as_str(), "includeIf") {
            if let Some(condition) = &s.subsection {
                let low = lowered_bytes(condition.as_slice());
                if crate::bytes::starts_with(low.as_slice(), "onbranch:".as_bytes())
                    || crate::bytes::starts_with(low.as_slice(), "hasconfig:".as_bytes()) {
                    assert(is_unevaluable(all[i as int]));
                    return true;
                }
            }
        }
        i += 1;
    }
    false
}

/// What the configuration says, as it is written.
#[derive(Debug)]
pub struct Settings {
    /// The roots, without the empty ones.
    pub roots: Vec<Vec<u8>>,
    /// The roots of particular URLs, without the empty ones.
    pub url_scoped_roots: Vec<Vec<u8>>,
    pub user: Option<String>,
    pub complete_user: bool,
    pub list_exclude: Vec<String>,
    pub list_cache: bool,
}

/// What [`Settings`] hold.
#[verifier::ext_equal]
pub struct SettingsView {
    pub roots: Seq<Seq<u8>>,
    pub url_scoped_roots: Seq<Seq<u8>>,
    pub user: Option<Seq<char>>,
    pub complete_user: bool,
    pub list_exclude: Seq<Seq<char>>,
    pub list_cache: bool,
}

impl View for Settings {
    type V = SettingsView;

    open spec fn view(&self) -> SettingsView {
        SettingsView {
            roots: views(self.roots@),
            url_scoped_roots: views(self.url_scoped_roots@),
            user: opt_string(self.user),
            complete_user: self.complete_user,
            list_exclude: texts(self.list_exclude@),
            list_cache: self.list_cache,
        }
    }
}

/// The values that are not empty.
pub open spec fn nonempty(values: Seq<Seq<u8>>) -> Seq<Seq<u8>> {
    kept(values, |v: Seq<u8>| v.len() > 0)
}

/// The texts of values.
pub open spec fn value_texts(values: Seq<Seq<u8>>) -> Seq<Seq<char>> {
    Seq::new(values.len(), |i: int| path_text(values[i]))
}

/// What the sections of configuration files say.
pub open spec fn file_settings(sections: Seq<SectionView>) -> SettingsView {
    SettingsView {
        roots: nonempty(section_values(sections, "scap"@, false, "root"@)),
        url_scoped_roots: nonempty(section_values(sections, "scap"@, true, "root"@)),
        user: match plain_string(sections, "scap"@, "user"@) {
            Some(v) => Some(stripped(path_text(v))),
            None => None,
        },
        complete_user: plain_boolean(sections, "scap"@, "completeUser"@) == Some(true),
        list_exclude: value_texts(section_values(sections, "scap"@, false, "listExclude"@)),
        list_cache: plain_boolean(sections, "scap"@, "listCache"@) == Some(true),
    }
}

fn without_empty(values: Vec<Vec<u8>>) -> (r: Vec<Vec<u8>>)
    ensures
        views(r@) == nonempty(views(values@)),
{
    let ghost all = views(values@);
    let ghost keep = |v: Seq<u8>| v.len() > 0;
    let mut out: Vec<Vec<u8>> = Vec::new();
    let mut i: usize = 0;
    assert(all.take(0) =~= Seq::empty());
    assert(views(out@) =~= kept(all.take(0), keep));
    while i < values.len()
        invariant
            i <= values@.len(),
            all == views(values@),
            keep == (|v: Seq<u8>| v.len() > 0),
            views(out@) == kept(all.take(i as int), keep),
        decreases values@.len() - i,
    {
        proof {
            assert(all.take(i + 1).drop_last() =~= all.take(i as int));
            assert(all.take(i + 1).last() == values@[i as int]@);
        }
        if values[i].len() > 0 {
            let ghost before = views(out@);
            out.push(slice_to_vec(values[i].as_slice()));
            assert(views(out@) =~= before.push(all[i as int]));
        }
        i += 1;
    }
    assert(all.take(i as int) =~= all);
    out
}

fn texts_of(values: &Vec<Vec<u8>>) -> (r: Vec<String>)
    ensures
        texts(r@) == value_texts(views(values@)),
{
    let mut out: Vec<String> = Vec::new();
    let mut i: usize = 0;
    while i < values.len()
        invariant
            i <= values@.len(),
            out@.len() == i,
            forall|j: int| 0 <= j < i ==> (#[trigger] out@[j])@ == path_text(values@[j]@),
        decreases values@.len() - i,
    {
        out.push(path_str(values[i].as_slice()));
        i += 1;
    }
    assert(texts(out@) =~= value_texts(views(values@)));
    out
}

/// What the sections of configuration files say.
pub fn settings_of(sections: &[Section]) -> (r: Settings)
    ensures
        r@ == file_settings(section_views(sections@)),
{
    let roots = without_empty(strings_of(sections, "scap", false, "root"));
    let url_scoped_roots = without_empty(strings_of(sections, "scap", true, "root"));
    let user = match string_of(sections, "scap", "user") {
        Some(v) => Some(strip(path_str(v.as_slice()).as_str())),
        None => None,
    };
    let complete_user = match boolean_of(sections, "scap", "completeUser") {
        Some(b) => b,
        None => false,
    };
    let list_exclude = texts_of(&strings_of(sections, "scap", false, "listExclude"));
    let list_cache = match boolean_of(sections, "scap", "listCache") {
        Some(b) => b,
        None => false,
    };
    Settings { roots, url_scoped_roots, user, complete_user, list_exclude, list_cache }
}

/// The sections of a configuration file, where it is one.
pub uninterp spec fn parsed_config(bytes: Seq<u8>) -> Option<Seq<SectionView>>;

/// The sections of a configuration file, without those of the files that it
/// names.
///
/// Calls `gix_config::File::from_bytes_no_includes` and takes every section
/// with its header's two names, and with the name and the value of each of
/// its settings as its body yields them. A setting is implicit where
/// `value_implicit` finds the last of its name to be without a value. The
/// result is a function of the bytes.
#[verifier::external_body]
fn parse_config(bytes: &[u8]) -> (r: Option<Vec<Section>>)
    ensures
        match r {
            Some(sections) => parsed_config(bytes@) == Some(section_views(sections@)),
            None => parsed_config(bytes@) is None,
        },
{
    let meta = gix_config::file::Metadata::from(gix_config::Source::Local);
    let file = gix_config::File::from_bytes_no_includes(bytes, meta, Default::default()).ok()?;
    Some(file.sections().map(|s| Section {
        name: s.header().name().to_string(),
        subsection: s.header().subsection_name().map(|n| n.to_vec()),
        entries: s.body().clone().into_iter().map(|(n, v)| Entry {
            name: n.to_string(),
            value: v.to_vec(),
            implicit: matches!(s.value_implicit(&n.to_string()), Some(None)),
        }).collect(),
    }).collect())
}

/// The sections of a configuration file, where it is one, without those of
/// the files that it names.
pub fn read_config(bytes: &[u8]) -> (r: Option<Vec<Section>>)
    ensures
        match r {
            Some(sections) => parsed_config(bytes@) == Some(section_views(sections@)),
            None => parsed_config(bytes@) is None,
        },
{
    parse_config(bytes)
}

proof fn lemma_values_of_both(a: Seq<EntryView>, b: Seq<EntryView>, name: Seq<char>)
    ensures
        values_of(a + b, name) == values_of(a, name) + values_of(b, name),
        last_value(a + b, name) == (if last_value(b, name) is Some {
            last_value(b, name)
        } else {
            last_value(a, name)
        }),
    decreases b.len(),
{
    if b.len() > 0 {
        lemma_values_of_both(a, b.drop_last(), name);
        assert((a + b).drop_last() =~= a + b.drop_last());
        assert((a + b).last() == b.last());
        assert(values_of(a + b, name) =~= values_of(a, name) + values_of(b, name));
    } else {
        assert(a + b =~= a);
        assert(values_of(a, name) + values_of(b, name) =~= values_of(a, name));
    }
}

proof fn lemma_section_values_of_both(
    a: Seq<SectionView>,
    b: Seq<SectionView>,
    section: Seq<char>,
    scoped: bool,
    name: Seq<char>,
)
    ensures
        section_values(a + b, section, scoped, name) == section_values(a, section, scoped, name)
            + section_values(b, section, scoped, name),
        plain_string(a + b, section, name) == (if plain_string(b, section, name) is Some {
            plain_string(b, section, name)
        } else {
            plain_string(a, section, name)
        }),
        plain_boolean(a + b, section, name) == (if plain_boolean(b, section, name) is Some {
            plain_boolean(b, section, name)
        } else {
            plain_boolean(a, section, name)
        }),
    decreases b.len(),
{
    if b.len() > 0 {
        lemma_section_values_of_both(a, b.drop_last(), section, scoped, name);
        assert((a + b).drop_last() =~= a + b.drop_last());
        assert((a + b).last() == b.last());
        assert(section_values(a + b, section, scoped, name) =~= section_values(
            a,
            section,
            scoped,
            name,
        ) + section_values(b, section, scoped, name));
    } else {
        assert(a + b =~= a);
        assert(section_values(a + b, section, scoped, name) =~= section_values(
            a,
            section,
            scoped,
            name,
        ) + section_values(b, section, scoped, name));
    }
}

/// What is read later adds to the lists of what was read before, and decides
/// whatever there can be only one of, where it says anything of it.
pub proof fn law_later_sections_win(a: Seq<SectionView>, b: Seq<SectionView>)
    ensures
        file_settings(a + b).roots == file_settings(a).roots + file_settings(b).roots,
        file_settings(a + b).url_scoped_roots == file_settings(a).url_scoped_roots + file_settings(
            b,
        ).url_scoped_roots,
        file_settings(a + b).list_exclude == file_settings(a).list_exclude + file_settings(
            b,
        ).list_exclude,
        file_settings(a + b).user == (if file_settings(b).user is Some {
            file_settings(b).user
        } else {
            file_settings(a).user
        }),
        file_settings(b).complete_user ==> file_settings(a + b).complete_user,
        file_settings(a + b).complete_user ==> file_settings(a).complete_user || file_settings(
            b,
        ).complete_user,
        file_settings(b).list_cache ==> file_settings(a + b).list_cache,
        file_settings(a + b).list_cache ==> file_settings(a).list_cache || file_settings(
            b,
        ).list_cache,
{
    let keep = |v: Seq<u8>| v.len() > 0;
    lemma_section_values_of_both(a, b, "scap"@, false, "root"@);
    lemma_section_values_of_both(a, b, "scap"@, true, "root"@);
    lemma_section_values_of_both(a, b, "scap"@, false, "listExclude"@);
    lemma_section_values_of_both(a, b, "scap"@, false, "user"@);
    lemma_section_values_of_both(a, b, "scap"@, false, "completeUser"@);
    lemma_section_values_of_both(a, b, "scap"@, false, "listCache"@);
    lemma_kept_appended(
        section_values(a, "scap"@, false, "root"@),
        section_values(b, "scap"@, false, "root"@),
        keep,
    );
    lemma_kept_appended(
        section_values(a, "scap"@, true, "root"@),
        section_values(b, "scap"@, true, "root"@),
        keep,
    );
    assert(file_settings(a + b).list_exclude =~= file_settings(a).list_exclude + file_settings(
        b,
    ).list_exclude);
}

/// A section with one setting.
pub open spec fn lone_setting(
    section: Seq<char>,
    subsection: Option<Seq<u8>>,
    name: Seq<char>,
    value: Option<Seq<u8>>,
) -> Seq<SectionView> {
    seq![
        SectionView {
            name: section,
            subsection,
            entries: seq![
                EntryView {
                    name,
                    value: match value {
                        Some(v) => v,
                        None => Seq::empty(),
                    },
                    implicit: value is None,
                },
            ],
        },
    ]
}

proof fn lemma_lone_setting(
    section: Seq<char>,
    subsection: Option<Seq<u8>>,
    name: Seq<char>,
    value: Option<Seq<u8>>,
    of: Seq<char>,
    scoped: bool,
    wanted: Seq<char>,
)
    ensures
        ({
            let sections = lone_setting(section, subsection, name, value);
            let meant = same_name(section, of) && subsection is Some == scoped && same_name(
                name,
                wanted,
            );
            &&& section_values(sections, of, scoped, wanted) == (if meant {
                seq![
                    match value {
                        Some(v) => v,
                        None => Seq::empty(),
                    },
                ]
            } else {
                Seq::empty()
            })
            &&& !scoped ==> plain_string(sections, of, wanted) == (if meant {
                value
            } else {
                None
            })
            &&& !scoped ==> plain_boolean(sections, of, wanted) == (if meant {
                Some(is_on(value))
            } else {
                None
            })
        }),
{
    let sections = lone_setting(section, subsection, name, value);
    let one = sections[0];
    assert(sections.last() == one);
    assert(sections.drop_last() =~= Seq::<SectionView>::empty());
    assert(one.entries.drop_last() =~= Seq::<EntryView>::empty());
    let e = one.entries[0];
    assert(one.entries.last() == e);
    let v = match value {
        Some(v) => v,
        None => Seq::<u8>::empty(),
    };
    assert(values_of(one.entries.drop_last(), wanted) =~= Seq::empty());
    assert(last_value(one.entries.drop_last(), wanted) is None);
    assert(section_values(sections.drop_last(), of, scoped, wanted) =~= Seq::empty());
    assert(plain_string(sections.drop_last(), of, wanted) is None);
    assert(plain_boolean(sections.drop_last(), of, wanted) is None);
    if same_name(name, wanted) {
        assert(values_of(one.entries, wanted) =~= seq![v]);
        assert(last_value(one.entries, wanted) == Some(value));
    } else {
        assert(values_of(one.entries, wanted) =~= Seq::empty());
        assert(last_value(one.entries, wanted) is None);
    }
    assert(Seq::<Seq<u8>>::empty() + seq![v] =~= seq![v]);
    assert(Seq::<Seq<u8>>::empty() + Seq::<Seq<u8>>::empty() =~= Seq::<Seq<u8>>::empty());
}

/// What one setting says. `scap.root` is a root, and one of a particular URL
/// where the section names a URL; the owner, the two switches and the
/// patterns count only where it names none. The names count whatever their
/// case, and settings of other sections say nothing.
#[verifier::rlimit(60)]
pub proof fn law_one_setting(
    section: Seq<char>,
    url: Option<Seq<u8>>,
    name: Seq<char>,
    value: Option<Seq<u8>>,
)
    ensures
        ({
            let s = file_settings(lone_setting(section, url, name, value));
            let ours = same_name(section, "scap"@);
            let given = value matches Some(v) && v.len() > 0;
            &&& s.roots == (if ours && url is None && same_name(name, "root"@) && given {
                seq![value->0]
            } else {
                Seq::empty()
            })
            &&& s.url_scoped_roots == (if ours && url is Some && same_name(name, "root"@) && given {
                seq![value->0]
            } else {
                Seq::empty()
            })
            &&& s.user is Some <==> ours && url is None && same_name(name, "user"@)
                && value is Some
            &&& s.user is Some ==> s.user == Some(stripped(path_text(value->0)))
            &&& s.complete_user <==> ours && url is None && same_name(name, "completeUser"@)
                && is_on(value)
            &&& s.list_cache <==> ours && url is None && same_name(name, "listCache"@) && is_on(
                value,
            )
            &&& s.list_exclude.len() == (if ours && url is None && same_name(
                name,
                "listExclude"@,
            ) {
                1int
            } else {
                0
            })
            &&& s.list_exclude.len() == 1 && value is Some ==> s.list_exclude[0] == path_text(
                value->0,
            )
        }),
{
    lemma_lone_setting(section, url, name, value, "scap"@, false, "root"@);
    lemma_lone_setting(section, url, name, value, "scap"@, true, "root"@);
    lemma_lone_setting(section, url, name, value, "scap"@, false, "user"@);
    lemma_lone_setting(section, url, name, value, "scap"@, false, "completeUser"@);
    lemma_lone_setting(section, url, name, value, "scap"@, false, "listCache"@);
    lemma_lone_setting(section, url, name, value, "scap"@, false, "listExclude"@);
    let sections = lone_setting(section, url, name, value);
    lemma_nonempty_of_one(section_values(sections, "scap"@, false, "root"@));
    lemma_nonempty_of_one(section_values(sections, "scap"@, true, "root"@));
}

proof fn lemma_nonempty_of_one(values: Seq<Seq<u8>>)
    requires
        values.len() <= 1,
    ensures
        nonempty(values) == (if values.len() == 1 && values[0].len() > 0 {
            seq![values[0]]
        } else {
            Seq::empty()
        }),
{
    if values.len() == 1 {
        let keep = |v: Seq<u8>| v.len() > 0;
        assert(values.drop_last() =~= Seq::<Seq<u8>>::empty());
        assert(kept(values.drop_last(), keep) =~= Seq::empty());
        assert(values.last() == values[0]);
        assert(nonempty(values) =~= if values[0].len() > 0 {
            seq![values[0]]
        } else {
            Seq::empty()
        });
    } else {
        assert(nonempty(values) =~= Seq::empty());
    }
}

/// The last one of the settings of a section decides, unless it is written
/// without `=`; the values of a name are all of them, in order.
pub proof fn law_last_setting_of_a_section_decides(
    before: Seq<EntryView>,
    name: Seq<char>,
    value: Seq<u8>,
    behind: Seq<EntryView>,
)
    requires
        forall|i: int| 0 <= i < behind.len() ==> !same_name((#[trigger] behind[i]).name, name),
    ensures
        ({
            let e = EntryView { name, value, implicit: false };
            &&& last_value(before + seq![e] + behind, name) == Some(Some(value))
            &&& values_of(before + seq![e] + behind, name) == values_of(before, name).push(value)
        }),
{
    let e = EntryView { name, value, implicit: false };
    let one = seq![e];
    lemma_values_of_both(before, one, name);
    lemma_values_of_both(before + one, behind, name);
    assert(one.drop_last() =~= Seq::<EntryView>::empty());
    assert(one.last() == e);
    assert(values_of(one.drop_last(), name) =~= Seq::empty());
    assert(values_of(one, name) =~= seq![value]);
    lemma_other_names(behind, name);
    assert(values_of(before, name) + seq![value] + values_of(behind, name) =~= values_of(
        before,
        name,
    ).push(value));
}

proof fn lemma_other_names(entries: Seq<EntryView>, name: Seq<char>)
    requires
        forall|i: int| 0 <= i < entries.len() ==> !same_name((#[trigger] entries[i]).name, name),
    ensures
        values_of(entries, name).len() == 0,
        last_value(entries, name) is None,
    decreases entries.len(),
{
    if entries.len() > 0 {
        let shorter = entries.drop_last();
        assert forall|i: int| 0 <= i < shorter.len() implies !same_name(
            (#[trigger] shorter[i]).name,
            name,
        ) by {
            assert(shorter[i] == entries[i]);
        }
        lemma_other_names(shorter, name);
        assert(!same_name(entries[entries.len() - 1].name, name));
    }
}

/// An inclusion is left to git where its condition is one on a branch or on
/// another setting, whatever the case of its letters; one on a directory, and
/// one without a condition, are not.
pub proof fn law_what_only_git_evaluates(s: SectionView, condition: Seq<u8>, rest: Seq<u8>)
    requires
        same_name(s.name, "includeIf"@),
        s.subsection == Some(condition),
    ensures
        same_ignoring_case(condition, encode_utf8("onbranch:"@) + rest) ==> is_unevaluable(s),
        same_ignoring_case(condition, encode_utf8("hasconfig:"@) + rest) ==> is_unevaluable(s),
        same_ignoring_case(condition, encode_utf8("gitdir:"@) + rest) ==> !is_unevaluable(s),
        !is_unevaluable((SectionView { subsection: None, ..s })),
{
    reveal_strlit("onbranch:");
    reveal_strlit("hasconfig:");
    reveal_strlit("gitdir:");
    is_ascii_chars_encode_utf8("onbranch:"@);
    is_ascii_chars_encode_utf8("hasconfig:"@);
    is_ascii_chars_encode_utf8("gitdir:"@);
    let low = lower_bytes(condition);
    let branch = encode_utf8("onbranch:"@);
    let setting = encode_utf8("hasconfig:"@);
    let place = encode_utf8("gitdir:"@);
    if same_ignoring_case(condition, branch + rest) {
        assert(low.take(9) =~= branch) by {
            assert forall|i: int| 0 <= i < 9 implies low[i] == branch[i] by {
                assert(lower_bytes(branch + rest)[i] == lower_byte(branch[i]));
            }
        }
    }
    if same_ignoring_case(condition, setting + rest) {
        assert(low.take(10) =~= setting) by {
            assert forall|i: int| 0 <= i < 10 implies low[i] == setting[i] by {
                assert(lower_bytes(setting + rest)[i] == lower_byte(setting[i]));
            }
        }
    }
    if same_ignoring_case(condition, place + rest) {
        assert(lower_bytes(place + rest)[0] == lower_byte(place[0]));
        assert(low[0] == 0x67);
        if has_prefix(low, branch) {
            assert(low.take(9)[0] == branch[0]);
        }
        if has_prefix(low, setting) {
            assert(low.take(10)[0] == setting[0]);
        }
    }
}

} // verus!
