//! The index file: what one root's index holds, and its encoded form.

use vstd::prelude::*;
use vstd::slice::{slice_subrange, slice_to_vec};

use crate::bytes::{bytes_eq, has_prefix, push_all, split, split_on, views, DOT, SLASH};

verus! {

/// The bytes every index file begins with; a change of the format's shape
/// changes them.
pub const MAGIC: [u8; 8] = [0x53, 0x43, 0x41, 0x50, 0x49, 0x44, 0x58, 0];

/// Format version. A file carrying any other value is discarded unread.
pub const VERSION: u32 = 1;

/// Smallest number of bytes one encoded entry can occupy: a kind byte and an
/// empty path's length prefix.
pub const MIN_ENTRY_BYTES: usize = 5;

/// One remembered directory or repository.
#[derive(Clone, Debug, PartialEq, Eq)]
pub struct Entry {
    /// Root-relative path; empty for the root itself.
    pub rel: Vec<u8>,
    /// The directory mtime to validate against, or `None` for a repository.
    pub mtime_ns: Option<i64>,
    /// Indices of this entry's children.
    pub children: Vec<u32>,
}

/// What an [`Entry`] holds.
pub struct EntryView {
    pub rel: Seq<u8>,
    pub mtime_ns: Option<i64>,
    pub children: Seq<u32>,
}

impl View for Entry {
    type V = EntryView;

    open spec fn view(&self) -> EntryView {
        EntryView { rel: self.rel@, mtime_ns: self.mtime_ns, children: self.children@ }
    }
}

impl Entry {
    /// Whether the entry is a repository rather than a directory on the way
    /// to one.
    pub fn is_repo(&self) -> (r: bool)
        ensures
            r == (self@.mtime_ns is None),
    {
        self.mtime_ns.is_none()
    }
}

/// One root's index, as it sits in the file.
#[derive(Clone, Debug, PartialEq, Eq)]
pub struct Index {
    /// The root path this index describes.
    pub root: Vec<u8>,
    /// The root's device when the index was written.
    pub dev: u64,
    /// The root's inode when the index was written.
    pub ino: u64,
    /// When the file was written, in nanoseconds since the Unix epoch.
    pub written_ns: i64,
    /// The exclusion patterns in force when it was written.
    pub exclude: Vec<Vec<u8>>,
    /// Entry 0 is always the root.
    pub entries: Vec<Entry>,
}

/// What an [`Index`] holds.
pub struct IndexView {
    pub root: Seq<u8>,
    pub dev: u64,
    pub ino: u64,
    pub written_ns: i64,
    pub exclude: Seq<Seq<u8>>,
    pub entries: Seq<EntryView>,
}

/// What a list of entries holds.
pub open spec fn entry_views(v: Seq<Entry>) -> Seq<EntryView> {
    Seq::new(v.len(), |i: int| v[i]@)
}

impl View for Index {
    type V = IndexView;

    open spec fn view(&self) -> IndexView {
        IndexView {
            root: self.root@,
            dev: self.dev,
            ino: self.ino,
            written_ns: self.written_ns,
            exclude: views(self.exclude@),
            entries: entry_views(self.entries@),
        }
    }
}

/// Whether a path is relative, stays below the directory it is resolved
/// against, and survives the trip through a C string.
pub open spec fn safe_rel(rel: Seq<u8>) -> bool {
    rel.len() == 0 || {
        &&& rel[0] != SLASH
        &&& !rel.contains(0)
        &&& forall|i: int|
            0 <= i < split_on(rel, SLASH).len() ==> {
                let part = #[trigger] split_on(rel, SLASH)[i];
                part.len() != 0 && part != seq![DOT] && part != seq![DOT, DOT]
            }
    }
}

/// Whether some entry's child list names the index `c`.
pub open spec fn claimed(entries: Seq<EntryView>, c: int) -> bool {
    exists|i: int, k: int|
        0 <= i < entries.len() && 0 <= k < entries[i].children.len()
            && #[trigger] entries[i].children[k] == c
}

/// Whether child indices point forward and below `n`.
pub open spec fn forward(entries: Seq<EntryView>, n: int) -> bool {
    forall|i: int, k: int|
        0 <= i < entries.len() && 0 <= k < entries[i].children.len() ==> i
            < #[trigger] entries[i].children[k] < n
}

/// Whether no index is named twice.
pub open spec fn claimed_once(entries: Seq<EntryView>) -> bool {
    forall|i: int, k: int, i2: int, k2: int|
        0 <= i < entries.len() && 0 <= k < entries[i].children.len() && 0 <= i2 < entries.len()
            && 0 <= k2 < entries[i2].children.len() && #[trigger] entries[i].children[k]
            == #[trigger] entries[i2].children[k2] ==> i == i2 && k == k2
}

/// Whether repositories have no children and every path is safe.
pub open spec fn entries_plain(entries: Seq<EntryView>) -> bool {
    forall|i: int|
        0 <= i < entries.len() ==> {
            &&& safe_rel((#[trigger] entries[i]).rel)
            &&& entries[i].mtime_ns is None ==> entries[i].children.len() == 0
        }
}

/// Whether entries form a tree under entry 0: the root comes first and is the
/// only one with an empty path, every child index is greater than its
/// parent's, and every entry but the root is exactly one entry's child.
pub open spec fn is_tree(entries: Seq<EntryView>) -> bool {
    &&& entries.len() > 0
    &&& entries[0].rel.len() == 0
    &&& forall|i: int| 0 < i < entries.len() ==> (#[trigger] entries[i]).rel.len() > 0
    &&& entries_plain(entries)
    &&& forward(entries, entries.len() as int)
    &&& claimed_once(entries)
    &&& forall|c: int| 0 < c < entries.len() ==> #[trigger] claimed(entries, c)
}

/// Whether every length the format stores fits its four bytes.
pub open spec fn fits(index: IndexView) -> bool {
    &&& index.root.len() <= u32::MAX
    &&& index.exclude.len() <= u32::MAX
    &&& forall|i: int|
        0 <= i < index.exclude.len() ==> (#[trigger] index.exclude[i]).len() <= u32::MAX
    &&& index.entries.len() <= u32::MAX
    &&& forall|i: int|
        0 <= i < index.entries.len() ==> {
            &&& (#[trigger] index.entries[i]).rel.len() <= u32::MAX
            &&& index.entries[i].children.len() <= u32::MAX
        }
}

/// Whether an index is one that a file can hold.
pub open spec fn storable(index: IndexView) -> bool {
    is_tree(index.entries) && fits(index)
}

/// The `n` low bytes of `x`, least significant first.
pub open spec fn le_bytes(x: nat, n: nat) -> Seq<u8>
    decreases n,
{
    if n == 0 {
        Seq::empty()
    } else {
        seq![(x % 256) as u8] + le_bytes(x / 256, (n - 1) as nat)
    }
}

/// The number whose little-endian bytes are `s`.
pub open spec fn le_value(s: Seq<u8>) -> nat
    decreases s.len(),
{
    if s.len() == 0 {
        0
    } else {
        s[0] as nat + 256 * le_value(s.drop_first())
    }
}

/// A signed number's two's complement bit pattern, read as unsigned.
pub open spec fn twos_complement(x: i64) -> nat {
    if x >= 0 {
        x as nat
    } else {
        (x + 0x1_0000_0000_0000_0000) as nat
    }
}

/// A length as the format stores it: four bytes, saturating.
pub open spec fn enc_len(n: nat) -> Seq<u8> {
    le_bytes(if n <= u32::MAX { n } else { u32::MAX as nat }, 4)
}

/// A byte string behind its length.
pub open spec fn enc_bytes(b: Seq<u8>) -> Seq<u8> {
    enc_len(b.len()) + b
}

/// Byte strings, each behind its length.
pub open spec fn enc_list(list: Seq<Seq<u8>>) -> Seq<u8>
    decreases list.len(),
{
    if list.len() == 0 {
        Seq::empty()
    } else {
        enc_list(list.drop_last()) + enc_bytes(list.last())
    }
}

/// Child indices, four bytes each.
pub open spec fn enc_children(children: Seq<u32>) -> Seq<u8>
    decreases children.len(),
{
    if children.len() == 0 {
        Seq::empty()
    } else {
        enc_children(children.drop_last()) + le_bytes(children.last() as nat, 4)
    }
}

/// One entry: its kind, its path, and for a directory its mtime and children.
pub open spec fn enc_entry(e: EntryView) -> Seq<u8> {
    match e.mtime_ns {
        None => seq![0u8] + enc_bytes(e.rel),
        Some(mtime) => seq![1u8] + enc_bytes(e.rel) + le_bytes(twos_complement(mtime), 8)
            + enc_len(e.children.len()) + enc_children(e.children),
    }
}

/// Entries one after the other.
pub open spec fn enc_entries(entries: Seq<EntryView>) -> Seq<u8>
    decreases entries.len(),
{
    if entries.len() == 0 {
        Seq::empty()
    } else {
        enc_entries(entries.drop_last()) + enc_entry(entries.last())
    }
}

/// What precedes the exclusion patterns.
pub open spec fn enc_head(root: Seq<u8>, dev: u64, ino: u64, written_ns: i64) -> Seq<u8> {
    MAGIC@ + le_bytes(VERSION as nat, 4) + enc_bytes(root) + le_bytes(dev as nat, 8) + le_bytes(
        ino as nat,
        8,
    ) + le_bytes(twos_complement(written_ns), 8)
}

/// The bytes of an index file.
pub open spec fn encoded(index: IndexView) -> Seq<u8> {
    enc_head(index.root, index.dev, index.ino, index.written_ns) + enc_len(index.exclude.len())
        + enc_list(index.exclude) + enc_len(index.entries.len()) + enc_entries(index.entries)
}

pub proof fn lemma_le_len(x: nat, n: nat)
    ensures
        le_bytes(x, n).len() == n,
    decreases n,
{
    if n > 0 {
        lemma_le_len(x / 256, (n - 1) as nat);
    }
}

/// Bytes written least significant first read back as the number.
pub proof fn lemma_le_round_trip(x: nat, n: nat)
    requires
        x < vstd::arithmetic::power::pow(256, n),
    ensures
        le_value(le_bytes(x, n)) == x,
    decreases n,
{
    if n > 0 {
        lemma_le_len(x / 256, (n - 1) as nat);
        vstd::arithmetic::power::lemma_pow_positive(256, (n - 1) as nat);
        assert(vstd::arithmetic::power::pow(256, n) == 256 * vstd::arithmetic::power::pow(
            256,
            (n - 1) as nat,
        )) by {
            reveal(vstd::arithmetic::power::pow);
        }
        lemma_le_round_trip(x / 256, (n - 1) as nat);
        let s = le_bytes(x, n);
        assert(s.drop_first() =~= le_bytes(x / 256, (n - 1) as nat));
        assert(s[0] == (x % 256) as u8);
    } else {
        reveal(vstd::arithmetic::power::pow);
    }
}

/// The bytes of the number that bytes stand for are those bytes.
pub proof fn lemma_le_value(s: Seq<u8>)
    ensures
        le_bytes(le_value(s), s.len()) == s,
        le_value(s) < vstd::arithmetic::power::pow(256, s.len()),
    decreases s.len(),
{
    reveal(vstd::arithmetic::power::pow);
    if s.len() > 0 {
        let rest = s.drop_first();
        lemma_le_value(rest);
        let x = le_value(s);
        assert(x % 256 == s[0] && x / 256 == le_value(rest));
        assert(le_bytes(x, s.len()) =~= s);
        assert(vstd::arithmetic::power::pow(256, s.len()) == 256 * vstd::arithmetic::power::pow(
            256,
            rest.len(),
        ));
    } else {
        assert(le_bytes(0, 0) =~= s);
    }
}

pub proof fn lemma_pow_bounds()
    ensures
        vstd::arithmetic::power::pow(256, 4) == 0x1_0000_0000,
        vstd::arithmetic::power::pow(256, 8) == 0x1_0000_0000_0000_0000,
{
    reveal(vstd::arithmetic::power::pow);
    reveal_with_fuel(vstd::arithmetic::power::pow, 9);
}

/// A concatenation is a prefix exactly when its parts follow one another.
proof fn lemma_prefix_concat(s: Seq<u8>, a: Seq<u8>, b: Seq<u8>)
    ensures
        has_prefix(s, a + b) <==> has_prefix(s, a) && has_prefix(s.skip(a.len() as int), b),
{
    if has_prefix(s, a + b) {
        let ab = a + b;
        assert(s.take(ab.len() as int).take(a.len() as int) =~= s.take(a.len() as int));
        assert(ab.take(a.len() as int) =~= a);
        assert(s.skip(a.len() as int).take(b.len() as int) =~= s.take(ab.len() as int).skip(
            a.len() as int,
        ));
        assert(ab.skip(a.len() as int) =~= b);
    }
    if has_prefix(s, a) && has_prefix(s.skip(a.len() as int), b) {
        assert(s.take((a + b).len() as int) =~= s.take(a.len() as int) + s.skip(
            a.len() as int,
        ).take(b.len() as int));
    }
}

/// Reading at an offset of a suffix is reading further on in the whole.
proof fn lemma_skip_skip(s: Seq<u8>, at: int, n: int)
    requires
        0 <= at,
        0 <= n,
        at + n <= s.len(),
    ensures
        s.skip(at).skip(n) == s.skip(at + n),
        s.skip(at).take(n) == s.subrange(at, at + n),
{
    assert(s.skip(at).skip(n) =~= s.skip(at + n));
    assert(s.skip(at).take(n) =~= s.subrange(at, at + n));
}

/// Adjacent parts of a string make up the part that spans them.
proof fn lemma_subrange_concat(s: Seq<u8>, a: int, b: int, c: int)
    requires
        0 <= a <= b <= c <= s.len(),
    ensures
        s.subrange(a, b) + s.subrange(b, c) == s.subrange(a, c),
{
    assert(s.subrange(a, b) + s.subrange(b, c) =~= s.subrange(a, c));
}

proof fn lemma_enc_list_first(list: Seq<Seq<u8>>)
    requires
        list.len() > 0,
    ensures
        enc_list(list) == enc_bytes(list[0]) + enc_list(list.skip(1)),
    decreases list.len(),
{
    if list.len() == 1 {
        assert(enc_list(list.drop_last()) =~= Seq::empty());
        assert(enc_list(list.skip(1)) =~= Seq::empty());
        assert(enc_list(list) =~= enc_bytes(list[0]) + enc_list(list.skip(1)));
    } else {
        lemma_enc_list_first(list.drop_last());
        assert(list.drop_last().skip(1) =~= list.skip(1).drop_last());
        assert(enc_list(list) =~= enc_bytes(list[0]) + enc_list(list.skip(1)));
    }
}

proof fn lemma_enc_children_first(children: Seq<u32>)
    requires
        children.len() > 0,
    ensures
        enc_children(children) == le_bytes(children[0] as nat, 4) + enc_children(children.skip(1)),
    decreases children.len(),
{
    if children.len() == 1 {
        assert(enc_children(children.drop_last()) =~= Seq::empty());
        assert(enc_children(children.skip(1)) =~= Seq::empty());
        assert(enc_children(children) =~= le_bytes(children[0] as nat, 4) + enc_children(
            children.skip(1),
        ));
    } else {
        lemma_enc_children_first(children.drop_last());
        assert(children.drop_last().skip(1) =~= children.skip(1).drop_last());
        assert(enc_children(children) =~= le_bytes(children[0] as nat, 4) + enc_children(
            children.skip(1),
        ));
    }
}

proof fn lemma_enc_entries_first(entries: Seq<EntryView>)
    requires
        entries.len() > 0,
    ensures
        enc_entries(entries) == enc_entry(entries[0]) + enc_entries(entries.skip(1)),
    decreases entries.len(),
{
    if entries.len() == 1 {
        assert(enc_entries(entries.drop_last()) =~= Seq::empty());
        assert(enc_entries(entries.skip(1)) =~= Seq::empty());
        assert(enc_entries(entries) =~= enc_entry(entries[0]) + enc_entries(entries.skip(1)));
    } else {
        lemma_enc_entries_first(entries.drop_last());
        assert(entries.drop_last().skip(1) =~= entries.skip(1).drop_last());
        assert(enc_entries(entries) =~= enc_entry(entries[0]) + enc_entries(entries.skip(1)));
    }
}

/// Appends the `n` low bytes of `x`, least significant first.
fn push_le(buf: &mut Vec<u8>, x: u64, n: usize)
    ensures
        final(buf)@ == old(buf)@ + le_bytes(x as nat, n as nat),
{
    let mut rest: u64 = x;
    let mut left: usize = n;
    assert(buf@ + le_bytes(x as nat, n as nat) =~= old(buf)@ + le_bytes(x as nat, n as nat));
    while left > 0
        invariant
            buf@ + le_bytes(rest as nat, left as nat) == old(buf)@ + le_bytes(x as nat, n as nat),
        decreases left,
    {
        let ghost before = buf@;
        buf.push((rest % 256) as u8);
        rest = rest / 256;
        left = left - 1;
        assert(buf@ + le_bytes(rest as nat, left as nat) =~= before + (seq![
            buf@.last(),
        ] + le_bytes(rest as nat, left as nat)));
    }
    assert(buf@ + Seq::<u8>::empty() =~= buf@);
}

/// A signed number's two's complement bit pattern, read as unsigned.
fn to_unsigned(x: i64) -> (r: u64)
    ensures
        r == twos_complement(x),
{
    if x >= 0 {
        x as u64
    } else {
        u64::MAX - ((-(x + 1)) as u64)
    }
}

/// The signed number that an unsigned two's complement bit pattern stands for.
fn to_signed(x: u64) -> (r: i64)
    ensures
        twos_complement(r) == x,
{
    if x <= 0x7fff_ffff_ffff_ffff {
        x as i64
    } else {
        -((u64::MAX - x) as i64) - 1
    }
}

/// Writes a four-byte length prefix, saturating: a longer length makes the
/// file fail its own decode.
pub fn push_len(buf: &mut Vec<u8>, len: usize)
    ensures
        final(buf)@ == old(buf)@ + enc_len(len as nat),
{
    let n: u64 = if len as u64 <= u32::MAX as u64 {
        len as u64
    } else {
        u32::MAX as u64
    };
    push_le(buf, n, 4);
}

/// Writes a byte string behind its length.
pub fn push_bytes(buf: &mut Vec<u8>, bytes: &[u8])
    ensures
        final(buf)@ == old(buf)@ + enc_bytes(bytes@),
{
    push_len(buf, bytes.len());
    push_all(buf, bytes);
    assert(buf@ =~= old(buf)@ + enc_bytes(bytes@));
}

/// Writes one entry.
fn push_entry(buf: &mut Vec<u8>, entry: &Entry)
    ensures
        final(buf)@ == old(buf)@ + enc_entry(entry@),
{
    match entry.mtime_ns {
        None => {
            buf.push(0);
            push_bytes(buf, entry.rel.as_slice());
            assert(buf@ =~= old(buf)@ + enc_entry(entry@));
        },
        Some(mtime) => {
            buf.push(1);
            push_bytes(buf, entry.rel.as_slice());
            push_le(buf, to_unsigned(mtime), 8);
            push_len(buf, entry.children.len());
            let ghost head = buf@;
            assert(entry.children@.take(0) =~= Seq::empty());
            assert(head + enc_children(entry.children@.take(0)) =~= head);
            let mut k: usize = 0;
            while k < entry.children.len()
                invariant
                    k <= entry.children@.len(),
                    buf@ == head + enc_children(entry.children@.take(k as int)),
                decreases entry.children@.len() - k,
            {
                assert(entry.children@.take(k + 1).drop_last() =~= entry.children@.take(k as int));
                push_le(buf, entry.children[k] as u64, 4);
                k += 1;
                assert(buf@ =~= head + enc_children(entry.children@.take(k as int)));
            }
            assert(entry.children@.take(k as int) =~= entry.children@);
            assert(buf@ =~= old(buf)@ + enc_entry(entry@));
        },
    }
}

/// Serialises one index.
///
/// Little-endian throughout and length-prefixed for every byte string, so a
/// path is stored as the bytes the filesystem gave. Repository entries carry
/// neither a timestamp nor a child list.
pub fn encode(index: &Index) -> (r: Vec<u8>)
    ensures
        r@ == encoded(index@),
{
    let mut buf: Vec<u8> = Vec::new();
    push_all(&mut buf, MAGIC.as_slice());
    push_le(&mut buf, VERSION as u64, 4);
    push_bytes(&mut buf, index.root.as_slice());
    push_le(&mut buf, index.dev, 8);
    push_le(&mut buf, index.ino, 8);
    push_le(&mut buf, to_unsigned(index.written_ns), 8);
    assert(buf@ =~= enc_head(index@.root, index.dev, index.ino, index.written_ns));
    push_len(&mut buf, index.exclude.len());
    let ghost head = buf@;
    let ghost patterns = index@.exclude;
    assert(patterns.take(0) =~= Seq::empty());
    assert(head + enc_list(patterns.take(0)) =~= head);
    let mut i: usize = 0;
    while i < index.exclude.len()
        invariant
            i <= index.exclude@.len(),
            patterns == index@.exclude,
            buf@ == head + enc_list(patterns.take(i as int)),
        decreases index.exclude@.len() - i,
    {
        assert(patterns.take(i + 1).drop_last() =~= patterns.take(i as int));
        push_bytes(&mut buf, index.exclude[i].as_slice());
        i += 1;
        assert(buf@ =~= head + enc_list(patterns.take(i as int)));
    }
    assert(patterns.take(i as int) =~= patterns);
    push_len(&mut buf, index.entries.len());
    let ghost head = buf@;
    let ghost entries = index@.entries;
    assert(entries.take(0) =~= Seq::empty());
    assert(head + enc_entries(entries.take(0)) =~= head);
    let mut i: usize = 0;
    while i < index.entries.len()
        invariant
            i <= index.entries@.len(),
            entries == index@.entries,
            buf@ == head + enc_entries(entries.take(i as int)),
        decreases index.entries@.len() - i,
    {
        assert(entries.take(i + 1).drop_last() =~= entries.take(i as int));
        push_entry(&mut buf, &index.entries[i]);
        i += 1;
        assert(buf@ =~= head + enc_entries(entries.take(i as int)));
    }
    assert(entries.take(i as int) =~= entries);
    assert(buf@ =~= encoded(index@));
    buf
}

/// Whether a decoded path is one that may be resolved against the root.
pub fn is_safe_rel(rel: &[u8]) -> (r: bool)
    ensures
        r == safe_rel(rel@),
{
    if rel.len() == 0 {
        return true;
    }
    if rel[0] == SLASH || crate::bytes::find_byte(0, rel).is_some() {
        return false;
    }
    let parts = split(rel, SLASH);
    let mut i: usize = 0;
    while i < parts.len()
        invariant
            i <= parts@.len(),
            views(parts@) == split_on(rel@, SLASH),
            rel@.len() > 0,
            forall|j: int|
                0 <= j < i ==> {
                    let part = #[trigger] split_on(rel@, SLASH)[j];
                    part.len() != 0 && part != seq![DOT] && part != seq![DOT, DOT]
                },
        decreases parts@.len() - i,
    {
        let part = parts[i].as_slice();
        assert(part@ == views(parts@)[i as int]);
        let bad = part.len() == 0 || (part.len() == 1 && part[0] == DOT) || (part.len() == 2
            && part[0] == DOT && part[1] == DOT);
        assert(bad == (part@.len() == 0 || part@ =~= seq![DOT] || part@ =~= seq![DOT, DOT]));
        if bad {
            return false;
        }
        i += 1;
    }
    true
}

/// A bounds-checked cursor over the encoded form.
///
/// Every accessor returns `None` past the end rather than panicking, which
/// turns a truncated file into a file to rebuild.
pub struct Reader<'a> {
    pub bytes: &'a [u8],
    pub at: usize,
}

impl<'a> Reader<'a> {
    /// Whether the cursor is inside the bytes.
    pub open spec fn wf(self) -> bool {
        self.at <= self.bytes@.len()
    }

    /// What is left to read.
    pub open spec fn rest(self) -> Seq<u8> {
        self.bytes@.skip(self.at as int)
    }

    /// Whether the cursor moved from `before` over exactly the bytes `read`.
    pub open spec fn moved(self, before: Self, read: Seq<u8>) -> bool {
        &&& self.wf()
        &&& self.bytes == before.bytes
        &&& self.at == before.at + read.len()
        &&& read == before.bytes@.subrange(before.at as int, self.at as int)
        &&& before.rest() == read + self.rest()
    }

    /// What the cursor moved over stood at the front of what was left.
    proof fn lemma_moved(self, before: Self, read: Seq<u8>)
        requires
            self.moved(before, read),
        ensures
            has_prefix(before.rest(), read),
            before.rest().skip(read.len() as int) == self.rest(),
    {
        assert((read + self.rest()).take(read.len() as int) =~= read);
        assert((read + self.rest()).skip(read.len() as int) =~= self.rest());
    }

    /// Two moves in a row are one move over both parts.
    proof fn lemma_moved_on(self, mid: Self, before: Self, first: Seq<u8>, second: Seq<u8>)
        requires
            mid.moved(before, first),
            self.moved(mid, second),
        ensures
            self.moved(before, first + second),
    {
        lemma_subrange_concat(before.bytes@, before.at as int, mid.at as int, self.at as int);
        assert(before.rest() =~= first + second + self.rest());
    }

    pub fn take(&mut self, n: usize) -> (r: Option<&'a [u8]>)
        requires
            old(self).wf(),
        ensures
            match r {
                Some(s) => s@.len() == n && final(self).moved(*old(self), s@),
                None => old(self).rest().len() < n && *final(self) == *old(self),
            },
    {
        if n > self.bytes.len() - self.at {
            return None;
        }
        let end: usize = self.at + n;
        let slice = slice_subrange(self.bytes, self.at, end);
        self.at = end;
        assert(old(self).rest() =~= slice@ + self.rest());
        Some(slice)
    }

    /// A number of `n` bytes.
    fn number(&mut self, n: usize) -> (r: Option<u64>)
        requires
            old(self).wf(),
            n <= 8,
        ensures
            match r {
                Some(x) => x < vstd::arithmetic::power::pow(256, n as nat)
                    && final(self).moved(*old(self), le_bytes(x as nat, n as nat)),
                None => old(self).rest().len() < n && *final(self) == *old(self),
            },
    {
        let slice = match self.take(n) {
            Some(slice) => slice,
            None => return None,
        };
        let mut x: u64 = 0;
        let mut i: usize = n;
        proof {
            lemma_pow_bounds();
            assert(slice@.skip(n as int) =~= Seq::empty());
            vstd::arithmetic::power::lemma_pow0(256);
        }
        while i > 0
            invariant
                i <= n <= 8,
                slice@.len() == n,
                x == le_value(slice@.skip(i as int)),
            decreases i,
        {
            i = i - 1;
            proof {
                let s = slice@.skip(i as int);
                assert(s.drop_first() =~= slice@.skip(i + 1));
                lemma_le_value(s);
                lemma_pow_bounds();
                vstd::arithmetic::power::lemma_pow_increases(256, s.len(), 8);
            }
            x = slice[i] as u64 + 256 * x;
        }
        proof {
            assert(slice@.skip(0) =~= slice@);
            lemma_le_value(slice@);
        }
        Some(x)
    }

    pub fn u8(&mut self) -> (r: Option<u8>)
        requires
            old(self).wf(),
        ensures
            match r {
                Some(x) => final(self).moved(*old(self), seq![x]),
                None => old(self).rest().len() == 0,
            },
    {
        match self.take(1) {
            Some(slice) => {
                assert(slice@ =~= seq![slice@[0]]);
                Some(slice[0])
            },
            None => None,
        }
    }

    pub fn u32(&mut self) -> (r: Option<u32>)
        requires
            old(self).wf(),
        ensures
            match r {
                Some(x) => final(self).moved(*old(self), le_bytes(x as nat, 4)),
                None => old(self).rest().len() < 4,
            },
    {
        proof {
            lemma_pow_bounds();
        }
        match self.number(4) {
            Some(x) => Some(x as u32),
            None => None,
        }
    }

    pub fn u64(&mut self) -> (r: Option<u64>)
        requires
            old(self).wf(),
        ensures
            match r {
                Some(x) => final(self).moved(*old(self), le_bytes(x as nat, 8)),
                None => old(self).rest().len() < 8,
            },
    {
        self.number(8)
    }

    pub fn i64(&mut self) -> (r: Option<i64>)
        requires
            old(self).wf(),
        ensures
            match r {
                Some(x) => final(self).moved(*old(self), le_bytes(twos_complement(x), 8)),
                None => old(self).rest().len() < 8,
            },
    {
        match self.number(8) {
            Some(x) => Some(to_signed(x)),
            None => None,
        }
    }

    /// A byte string behind its length.
    pub fn bytes(&mut self) -> (r: Option<&'a [u8]>)
        requires
            old(self).wf(),
        ensures
            match r {
                Some(b) => b@.len() <= u32::MAX && final(self).moved(*old(self), enc_bytes(b@)),
                None => true,
            },
            forall|b: Seq<u8>|
                b.len() <= u32::MAX && #[trigger] has_prefix(old(self).rest(), enc_bytes(b)) ==> r
                    is Some && r->0@ == b,
    {
        let ghost start = *self;
        let len = self.u32();
        proof {
            assert forall|b: Seq<u8>|
                b.len() <= u32::MAX && #[trigger] has_prefix(
                    old(self).rest(),
                    enc_bytes(b),
                ) implies len is Some && len->0 == b.len() && has_prefix(self.rest(), b) by {
                lemma_pow_bounds();
                lemma_le_len(b.len(), 4);
                lemma_prefix_concat(start.rest(), enc_len(b.len()), b);
                if len is Some {
                    self.lemma_moved(start, le_bytes(len->0 as nat, 4));
                    lemma_same_number(start.rest(), len->0 as nat, b.len(), 4);
                    lemma_le_len(len->0 as nat, 4);
                    lemma_skip_skip(start.bytes@, start.at as int, 4);
                }
            }
        }
        let len: usize = match len {
            Some(len) => len as usize,
            None => return None,
        };
        let ghost mid = *self;
        let r = self.take(len);
        proof {
            if r is Some {
                let b = r->0@;
                assert(start.rest() =~= enc_bytes(b) + self.rest());
                lemma_subrange_concat(
                    start.bytes@,
                    start.at as int,
                    mid.at as int,
                    self.at as int,
                );
            }
            assert forall|b: Seq<u8>|
                b.len() <= u32::MAX && #[trigger] has_prefix(
                    old(self).rest(),
                    enc_bytes(b),
                ) implies r is Some && r->0@ == b by {
                if r is Some {
                    assert(mid.rest().take(len as int) =~= r->0@);
                }
            }
        }
        r
    }

    /// A length prefix, rejected when the remaining bytes could not hold that
    /// many items of `each` bytes: the point is the allocation that follows.
    pub fn count(&mut self, each: usize) -> (r: Option<usize>)
        requires
            old(self).wf(),
            0 < each <= 8,
        ensures
            match r {
                Some(n) => {
                    &&& n <= u32::MAX
                    &&& final(self).moved(*old(self), enc_len(n as nat))
                    &&& n * each <= final(self).rest().len()
                },
                None => true,
            },
            forall|n: nat|
                n <= u32::MAX && #[trigger] has_prefix(old(self).rest(), enc_len(n)) && n * each
                    <= old(self).rest().len() - 4 ==> r is Some && r->0 == n,
    {
        let ghost start = *self;
        let n = self.u32();
        proof {
            assert forall|m: nat|
                m <= u32::MAX && #[trigger] has_prefix(
                    old(self).rest(),
                    enc_len(m),
                ) implies n is Some && n->0 == m by {
                lemma_pow_bounds();
                lemma_le_len(m, 4);
                if n is Some {
                    self.lemma_moved(start, le_bytes(n->0 as nat, 4));
                    lemma_same_number(start.rest(), n->0 as nat, m, 4);
                }
            }
            if n is Some {
                lemma_le_len(n->0 as nat, 4);
            }
        }
        let n: usize = match n {
            Some(n) => n as usize,
            None => return None,
        };
        let left: usize = self.bytes.len() - self.at;
        proof {
            assert(n * each <= left <==> n <= left / each) by (nonlinear_arith)
                requires
                    each > 0,
            ;
        }
        if n <= left / each {
            Some(n)
        } else {
            None
        }
    }
}

/// Two numbers whose bytes stand at the same place are equal.
proof fn lemma_same_number(s: Seq<u8>, x: nat, y: nat, n: nat)
    requires
        x < vstd::arithmetic::power::pow(256, n),
        y < vstd::arithmetic::power::pow(256, n),
        has_prefix(s, le_bytes(x, n)),
        has_prefix(s, le_bytes(y, n)),
    ensures
        x == y,
{
    lemma_le_len(x, n);
    lemma_le_len(y, n);
    lemma_le_round_trip(x, n);
    lemma_le_round_trip(y, n);
}

/// Whether every byte string of a list fits its length prefix.
pub open spec fn list_fits(list: Seq<Seq<u8>>) -> bool {
    forall|i: int| 0 <= i < list.len() ==> (#[trigger] list[i]).len() <= u32::MAX
}

/// `count` byte strings, each behind its length.
fn read_list(reader: &mut Reader<'_>, count: usize) -> (r: Option<Vec<Vec<u8>>>)
    requires
        old(reader).wf(),
    ensures
        match r {
            Some(v) => {
                &&& v@.len() == count
                &&& list_fits(views(v@))
                &&& final(reader).moved(*old(reader), enc_list(views(v@)))
            },
            None => true,
        },
        forall|list: Seq<Seq<u8>>|
            list.len() == count && list_fits(list) && #[trigger] has_prefix(
                old(reader).rest(),
                enc_list(list),
            ) ==> r is Some && views(r->0@) == list,
{
    let ghost start = *reader;
    let mut out: Vec<Vec<u8>> = Vec::new();
    proof {
        assert(enc_list(views(out@)) =~= Seq::empty());
        assert(start.bytes@.subrange(start.at as int, start.at as int) =~= Seq::empty());
        assert(start.rest() =~= Seq::empty() + start.rest());
        assert forall|list: Seq<Seq<u8>>| list.skip(0) == list by {
            assert(list.skip(0) =~= list);
        }
    }
    while out.len() < count
        invariant
            start.wf(),
            start == *old(reader),
            out@.len() <= count,
            list_fits(views(out@)),
            reader.moved(start, enc_list(views(out@))),
            forall|list: Seq<Seq<u8>>|
                list.len() == count && list_fits(list) && #[trigger] has_prefix(
                    start.rest(),
                    enc_list(list),
                ) ==> views(out@) == list.take(out@.len() as int) && has_prefix(
                    reader.rest(),
                    enc_list(list.skip(out@.len() as int)),
                ),
        decreases count - out@.len(),
    {
        let ghost mid = *reader;
        let ghost k = out@.len() as int;
        let ghost before = out@;
        let next = reader.bytes();
        proof {
            assert forall|list: Seq<Seq<u8>>|
                list.len() == count && list_fits(list) && #[trigger] has_prefix(
                    start.rest(),
                    enc_list(list),
                ) implies next is Some && next->0@ == list[k] && has_prefix(
                reader.rest(),
                enc_list(list.skip(k + 1)),
            ) by {
                let tail = list.skip(k);
                lemma_enc_list_first(tail);
                lemma_prefix_concat(mid.rest(), enc_bytes(tail[0]), enc_list(tail.skip(1)));
                assert(tail.skip(1) =~= list.skip(k + 1));
                assert(tail[0].len() <= u32::MAX);
                if next is Some {
                    reader.lemma_moved(mid, enc_bytes(next->0@));
                }
            }
        }
        let next = match next {
            Some(next) => next,
            None => return None,
        };
        out.push(slice_to_vec(next));
        proof {
            let read = enc_bytes(next@);
            assert(views(out@) =~= views(before).push(next@));
            assert(views(out@).drop_last() =~= views(before));
            assert(enc_list(views(out@)) == enc_list(views(before)) + read);
            lemma_subrange_concat(start.bytes@, start.at as int, mid.at as int, reader.at as int);
            assert(start.rest() =~= enc_list(views(out@)) + reader.rest());
            assert forall|list: Seq<Seq<u8>>|
                list.len() == count && list_fits(list) && #[trigger] has_prefix(
                    start.rest(),
                    enc_list(list),
                ) implies views(out@) == list.take(k + 1) by {
                assert(views(out@) =~= list.take(k).push(list[k]));
                assert(list.take(k + 1) =~= list.take(k).push(list[k]));
            }
        }
    }
    proof {
        assert forall|list: Seq<Seq<u8>>|
            list.len() == count && list_fits(list) && #[trigger] has_prefix(
                start.rest(),
                enc_list(list),
            ) implies views(out@) == list by {
            assert(list.take(count as int) =~= list);
        }
    }
    Some(out)
}

/// `count` child indices.
fn read_children(reader: &mut Reader<'_>, count: usize) -> (r: Option<Vec<u32>>)
    requires
        old(reader).wf(),
    ensures
        match r {
            Some(v) => v@.len() == count && final(reader).moved(*old(reader), enc_children(v@)),
            None => true,
        },
        forall|c: Seq<u32>|
            c.len() == count && #[trigger] has_prefix(old(reader).rest(), enc_children(c)) ==> r
                is Some && r->0@ == c,
{
    let ghost start = *reader;
    let mut out: Vec<u32> = Vec::new();
    proof {
        assert(enc_children(out@) =~= Seq::empty());
        assert(start.bytes@.subrange(start.at as int, start.at as int) =~= Seq::empty());
        assert(start.rest() =~= Seq::empty() + start.rest());
        assert forall|c: Seq<u32>| c.skip(0) == c by {
            assert(c.skip(0) =~= c);
        }
    }
    while out.len() < count
        invariant
            start.wf(),
            start == *old(reader),
            out@.len() <= count,
            reader.moved(start, enc_children(out@)),
            forall|c: Seq<u32>|
                c.len() == count && #[trigger] has_prefix(start.rest(), enc_children(c)) ==> out@
                    == c.take(out@.len() as int) && has_prefix(
                    reader.rest(),
                    enc_children(c.skip(out@.len() as int)),
                ),
        decreases count - out@.len(),
    {
        let ghost mid = *reader;
        let ghost k = out@.len() as int;
        let ghost before = out@;
        let next = reader.u32();
        proof {
            assert forall|c: Seq<u32>|
                c.len() == count && #[trigger] has_prefix(
                    start.rest(),
                    enc_children(c),
                ) implies next is Some && next->0 == c[k] && has_prefix(
                reader.rest(),
                enc_children(c.skip(k + 1)),
            ) by {
                let tail = c.skip(k);
                lemma_enc_children_first(tail);
                lemma_prefix_concat(
                    mid.rest(),
                    le_bytes(tail[0] as nat, 4),
                    enc_children(tail.skip(1)),
                );
                assert(tail.skip(1) =~= c.skip(k + 1));
                lemma_pow_bounds();
                lemma_le_len(tail[0] as nat, 4);
                if next is Some {
                    lemma_le_len(next->0 as nat, 4);
                    reader.lemma_moved(mid, le_bytes(next->0 as nat, 4));
                    lemma_same_number(mid.rest(), next->0 as nat, tail[0] as nat, 4);
                }
            }
        }
        let next: u32 = match next {
            Some(next) => next,
            None => return None,
        };
        out.push(next);
        proof {
            assert(out@.drop_last() =~= before);
            lemma_subrange_concat(start.bytes@, start.at as int, mid.at as int, reader.at as int);
            assert(start.rest() =~= enc_children(out@) + reader.rest());
            assert forall|c: Seq<u32>|
                c.len() == count && #[trigger] has_prefix(
                    start.rest(),
                    enc_children(c),
                ) implies out@ == c.take(k + 1) by {
                assert(out@ =~= c.take(k).push(c[k]));
                assert(c.take(k + 1) =~= c.take(k).push(c[k]));
            }
        }
    }
    proof {
        assert forall|c: Seq<u32>|
            c.len() == count && #[trigger] has_prefix(
                start.rest(),
                enc_children(c),
            ) implies out@ == c by {
            assert(c.take(count as int) =~= c);
        }
    }
    Some(out)
}

/// Whether one entry is one that a file can hold.
pub open spec fn entry_storable(e: EntryView) -> bool {
    &&& e.rel.len() <= u32::MAX
    &&& e.children.len() <= u32::MAX
    &&& safe_rel(e.rel)
    &&& e.mtime_ns is None ==> e.children.len() == 0
}

/// What follows a directory entry's path.
spec fn enc_dir_tail(mtime: i64, children: Seq<u32>) -> Seq<u8> {
    le_bytes(twos_complement(mtime), 8) + (enc_len(children.len()) + enc_children(children))
}

proof fn lemma_children_len(children: Seq<u32>)
    ensures
        enc_children(children).len() == 4 * children.len(),
    decreases children.len(),
{
    if children.len() > 0 {
        lemma_children_len(children.drop_last());
        lemma_le_len(children.last() as nat, 4);
    }
}

/// A directory entry's mtime and children.
fn read_dir_tail(reader: &mut Reader<'_>) -> (r: Option<(i64, Vec<u32>)>)
    requires
        old(reader).wf(),
    ensures
        match r {
            Some(t) => t.1@.len() <= u32::MAX && final(reader).moved(
                *old(reader),
                enc_dir_tail(t.0, t.1@),
            ),
            None => true,
        },
        forall|mtime: i64, children: Seq<u32>|
            children.len() <= u32::MAX && #[trigger] has_prefix(
                old(reader).rest(),
                enc_dir_tail(mtime, children),
            ) ==> r is Some && (r->0).0 == mtime && (r->0).1@ == children,
{
    let ghost start = *reader;
    let mtime = reader.i64();
    let ghost after_mtime = *reader;
    proof {
        assert forall|m: i64, c: Seq<u32>|
            c.len() <= u32::MAX && #[trigger] has_prefix(
                start.rest(),
                enc_dir_tail(m, c),
            ) implies mtime is Some && mtime->0 == m && has_prefix(
            reader.rest(),
            enc_len(c.len()) + enc_children(c),
        ) by {
            lemma_pow_bounds();
            lemma_le_len(twos_complement(m), 8);
            lemma_prefix_concat(
                start.rest(),
                le_bytes(twos_complement(m), 8),
                enc_len(c.len()) + enc_children(c),
            );
            if mtime is Some {
                lemma_le_len(twos_complement(mtime->0), 8);
                reader.lemma_moved(start, le_bytes(twos_complement(mtime->0), 8));
                lemma_same_number(
                    start.rest(),
                    twos_complement(mtime->0),
                    twos_complement(m),
                    8,
                );
            }
        }
    }
    let mtime: i64 = match mtime {
        Some(mtime) => mtime,
        None => return None,
    };
    let n = reader.count(4);
    let ghost after_count = *reader;
    proof {
        assert forall|m: i64, c: Seq<u32>|
            c.len() <= u32::MAX && #[trigger] has_prefix(
                start.rest(),
                enc_dir_tail(m, c),
            ) implies n is Some && n->0 == c.len() && has_prefix(reader.rest(), enc_children(c)) by {
            lemma_le_len(c.len(), 4);
            lemma_children_len(c);
            lemma_prefix_concat(after_mtime.rest(), enc_len(c.len()), enc_children(c));
            if n is Some {
                reader.lemma_moved(after_mtime, enc_len(n->0 as nat));
            }
        }
    }
    let n: usize = match n {
        Some(n) => n,
        None => return None,
    };
    let children = match read_children(reader, n) {
        Some(children) => children,
        None => return None,
    };
    proof {
        reader.lemma_moved_on(after_count, after_mtime, enc_len(n as nat), enc_children(children@));
        reader.lemma_moved_on(
            after_mtime,
            start,
            le_bytes(twos_complement(mtime), 8),
            enc_len(n as nat) + enc_children(children@),
        );
    }
    Some((mtime, children))
}

/// One entry, rejected when its path could leave the root.
fn read_entry(reader: &mut Reader<'_>) -> (r: Option<Entry>)
    requires
        old(reader).wf(),
    ensures
        match r {
            Some(e) => entry_storable(e@) && final(reader).moved(*old(reader), enc_entry(e@)),
            None => true,
        },
        forall|e: EntryView|
            entry_storable(e) && #[trigger] has_prefix(old(reader).rest(), enc_entry(e)) ==> r
                is Some && r->0@ == e,
{
    let ghost start = *reader;
    let kind = reader.u8();
    let ghost after_kind = *reader;
    proof {
        assert forall|e: EntryView|
            entry_storable(e) && #[trigger] has_prefix(
                start.rest(),
                enc_entry(e),
            ) implies kind is Some && kind->0 == (if e.mtime_ns is None { 0u8 } else { 1u8 })
            && has_prefix(reader.rest(), enc_bytes(e.rel)) && (e.mtime_ns matches Some(m)
            ==> has_prefix(
            reader.rest().skip(enc_bytes(e.rel).len() as int),
            enc_dir_tail(m, e.children),
        )) by {
            let tag: Seq<u8> = if e.mtime_ns is None { seq![0u8] } else { seq![1u8] };
            let body = match e.mtime_ns {
                None => enc_bytes(e.rel),
                Some(m) => enc_bytes(e.rel) + enc_dir_tail(m, e.children),
            };
            assert(enc_entry(e) =~= tag + body);
            lemma_prefix_concat(start.rest(), tag, body);
            assert(start.rest().take(1)[0] == tag[0]);
            if kind is Some {
                reader.lemma_moved(start, seq![kind->0]);
                assert(start.rest()[0] == kind->0);
            }
            if e.mtime_ns is Some {
                lemma_prefix_concat(
                    reader.rest(),
                    enc_bytes(e.rel),
                    enc_dir_tail(e.mtime_ns->0, e.children),
                );
            }
        }
    }
    let kind: u8 = match kind {
        Some(kind) => kind,
        None => return None,
    };
    let rel = match reader.bytes() {
        Some(rel) => slice_to_vec(rel),
        None => return None,
    };
    let ghost after_rel = *reader;
    proof {
        reader.lemma_moved(after_kind, enc_bytes(rel@));
    }
    if !is_safe_rel(rel.as_slice()) {
        return None;
    }
    if kind == 0 {
        let entry = Entry { rel, mtime_ns: None, children: Vec::new() };
        proof {
            reader.lemma_moved_on(after_kind, start, seq![0u8], enc_bytes(rel@));
            assert forall|e: EntryView|
                entry_storable(e) && #[trigger] has_prefix(
                    start.rest(),
                    enc_entry(e),
                ) implies entry@ == e by {
                assert(e.children =~= Seq::empty());
            }
        }
        Some(entry)
    } else if kind == 1 {
        match read_dir_tail(reader) {
            Some((mtime, children)) => {
                let entry = Entry { rel, mtime_ns: Some(mtime), children };
                proof {
                    reader.lemma_moved_on(
                        after_rel,
                        after_kind,
                        enc_bytes(rel@),
                        enc_dir_tail(mtime, children@),
                    );
                    reader.lemma_moved_on(
                        after_kind,
                        start,
                        seq![1u8],
                        enc_bytes(rel@) + enc_dir_tail(mtime, children@),
                    );
                    assert(enc_entry(entry@) =~= seq![1u8] + (enc_bytes(rel@) + enc_dir_tail(
                        mtime,
                        children@,
                    )));
                }
                Some(entry)
            },
            None => None,
        }
    } else {
        None
    }
}

/// Whether `bytes` is the file of the storable index `index`.
pub open spec fn is_file_of(bytes: Seq<u8>, index: IndexView) -> bool {
    storable(index) && encoded(index) == bytes
}

/// Whether the child list of entry `i` points forward, stays below `total`,
/// names nothing twice and nothing already named.
spec fn claimable(children: Seq<u32>, i: int, total: int, flags: Seq<bool>) -> bool {
    &&& children.no_duplicates()
    &&& forall|k: int|
        0 <= k < children.len() ==> i < #[trigger] children[k] < total && !flags[children[k] as int]
}

/// Marks the children of entry `i` as named; `false` when they cannot be.
fn claim_children(children: &Vec<u32>, i: usize, flags: &mut Vec<bool>) -> (r: bool)
    requires
        old(flags)@.len() <= u32::MAX,
    ensures
        r == claimable(children@, i as int, old(flags)@.len() as int, old(flags)@),
        final(flags)@.len() == old(flags)@.len(),
        r ==> forall|c: int|
            0 <= c < old(flags)@.len() ==> #[trigger] final(flags)@[c] == (old(flags)@[c]
                || children@.contains(c as u32)),
{
    let ghost start = flags@;
    let mut k: usize = 0;
    while k < children.len()
        invariant
            k <= children@.len(),
            start == old(flags)@,
            start.len() <= u32::MAX,
            flags@.len() == start.len(),
            claimable(children@.take(k as int), i as int, start.len() as int, start),
            forall|c: int|
                0 <= c < start.len() ==> #[trigger] flags@[c] == (start[c] || children@.take(
                    k as int,
                ).contains(c as u32)),
        decreases children@.len() - k,
    {
        let child: usize = children[k] as usize;
        let ghost done = children@.take(k as int);
        let ghost next = children@.take(k + 1);
        proof {
            assert(next =~= done.push(children@[k as int]));
            assert(next[k as int] == children@[k as int]);
        }
        if child <= i || child >= flags.len() || flags[child] {
            proof {
                assert(!claimable(children@, i as int, start.len() as int, start)) by {
                    if claimable(children@, i as int, start.len() as int, start) {
                        assert(i < children@[k as int] < start.len());
                        assert(done.contains(child as u32));
                        let j = choose|j: int| 0 <= j < done.len() && done[j] == child as u32;
                        assert(children@[j] == children@[k as int]);
                    }
                }
            }
            return false;
        }
        let ghost before = flags@;
        flags[child] = true;
        proof {
            assert(!done.contains(child as u32));
            assert forall|c: int| 0 <= c < start.len() implies #[trigger] flags@[c] == (start[c]
                || next.contains(c as u32)) by {
                assert(before[c] == (start[c] || done.contains(c as u32)));
                if c == child {
                    assert(next[k as int] == c as u32);
                } else {
                    if next.contains(c as u32) {
                        let j = choose|j: int| 0 <= j < next.len() && next[j] == c as u32;
                        assert(j != k);
                        assert(done[j] == c as u32);
                    }
                    if done.contains(c as u32) {
                        let j = choose|j: int| 0 <= j < done.len() && done[j] == c as u32;
                        assert(next[j] == c as u32);
                    }
                }
            }
            assert(claimable(next, i as int, start.len() as int, start)) by {
                assert forall|j: int| 0 <= j < next.len() implies i < #[trigger] next[j]
                    < start.len() && !start[next[j] as int] by {
                    if j < k {
                        assert(done[j] == next[j]);
                    }
                }
            }
        }
        k += 1;
    }
    assert(children@.take(k as int) =~= children@);
    true
}

/// In a tree, the children of entry `i` are not among those named before.
proof fn lemma_tree_claimable(tree: Seq<EntryView>, i: int, flags: Seq<bool>)
    requires
        is_tree(tree),
        0 <= i < tree.len(),
        flags.len() == tree.len(),
        forall|c: int| 0 <= c < flags.len() ==> #[trigger] flags[c] == claimed(tree.take(i), c),
    ensures
        claimable(tree[i].children, i, tree.len() as int, flags),
{
    let children = tree[i].children;
    assert forall|k: int, l: int| 0 <= k < children.len() && 0 <= l < children.len() && k
        != l implies children[k] != children[l] by {
        assert(tree[i].children[k] != tree[i].children[l]);
    }
    assert forall|k: int| 0 <= k < children.len() implies i < #[trigger] children[k] < tree.len()
        && !flags[children[k] as int] by {
        let c = tree[i].children[k] as int;
        assert(i < c < tree.len());
        if claimed(tree.take(i), c) {
            let (i2, k2) = choose|i2: int, k2: int|
                0 <= i2 < tree.take(i).len() && 0 <= k2 < tree.take(i)[i2].children.len()
                    && #[trigger] tree.take(i)[i2].children[k2] == c;
            assert(tree[i2].children[k2] == tree[i].children[k]);
        }
    }
}

/// Adding an entry with claimable children keeps the entries a forest.
proof fn lemma_claim_step(
    entries: Seq<EntryView>,
    e: EntryView,
    n: int,
    flags: Seq<bool>,
    after: Seq<bool>,
)
    requires
        forward(entries, n),
        claimed_once(entries),
        entries.len() < n,
        flags.len() == n,
        after.len() == n,
        n <= u32::MAX,
        forall|c: int| 0 <= c < n ==> #[trigger] flags[c] == claimed(entries, c),
        claimable(e.children, entries.len() as int, n, flags),
        forall|c: int|
            0 <= c < n ==> #[trigger] after[c] == (flags[c] || e.children.contains(c as u32)),
    ensures
        forward(entries.push(e), n),
        claimed_once(entries.push(e)),
        forall|c: int| 0 <= c < n ==> #[trigger] after[c] == claimed(entries.push(e), c),
{
    let all = entries.push(e);
    let last = entries.len() as int;
    assert forall|i: int, k: int| 0 <= i < all.len() && 0 <= k < all[i].children.len() implies i
        < #[trigger] all[i].children[k] < n by {
        if i < last {
            assert(i < entries[i].children[k] < n);
        } else {
            assert(last < e.children[k] < n);
        }
    }
    assert forall|i: int, k: int, i2: int, k2: int|
        0 <= i < all.len() && 0 <= k < all[i].children.len() && 0 <= i2 < all.len() && 0 <= k2
            < all[i2].children.len() && #[trigger] all[i].children[k]
            == #[trigger] all[i2].children[k2] implies i == i2 && k == k2 by {
        if i < last && i2 < last {
            assert(entries[i].children[k] == entries[i2].children[k2]);
        } else if i < last {
            let c = entries[i].children[k] as int;
            assert(claimed(entries, c));
            assert(!flags[e.children[k2] as int]);
        } else if i2 < last {
            let c = entries[i2].children[k2] as int;
            assert(claimed(entries, c));
            assert(!flags[e.children[k] as int]);
        } else {
            assert(e.children[k] == e.children[k2]);
        }
    }
    assert forall|c: int| 0 <= c < n implies #[trigger] after[c] == claimed(all, c) by {
        if claimed(entries, c) {
            let (i, k) = choose|i: int, k: int|
                0 <= i < entries.len() && 0 <= k < entries[i].children.len()
                    && #[trigger] entries[i].children[k] == c;
            assert(all[i].children[k] == c);
        }
        if e.children.contains(c as u32) {
            let k = choose|k: int| 0 <= k < e.children.len() && e.children[k] == c as u32;
            assert(all[last].children[k] == c);
        }
        if claimed(all, c) {
            let (i, k) = choose|i: int, k: int|
                0 <= i < all.len() && 0 <= k < all[i].children.len()
                    && #[trigger] all[i].children[k] == c;
            if i < last {
                assert(entries[i].children[k] == c);
            } else {
                assert(e.children[k] == c as u32);
            }
        }
    }
}

/// Every entry takes at least its kind and the length of its path.
proof fn lemma_entries_len(entries: Seq<EntryView>)
    ensures
        enc_entries(entries).len() >= MIN_ENTRY_BYTES * entries.len(),
    decreases entries.len(),
{
    if entries.len() > 0 {
        lemma_entries_len(entries.drop_last());
        let e = entries.last();
        let n: nat = if e.rel.len() <= u32::MAX {
            e.rel.len()
        } else {
            u32::MAX as nat
        };
        lemma_le_len(n, 4);
        assert(enc_entry(e).len() >= MIN_ENTRY_BYTES);
    }
}

/// Every byte string takes at least its length prefix.
proof fn lemma_list_len(list: Seq<Seq<u8>>)
    ensures
        enc_list(list).len() >= 4 * list.len(),
    decreases list.len(),
{
    if list.len() > 0 {
        lemma_list_len(list.drop_last());
        let n: nat = if list.last().len() <= u32::MAX {
            list.last().len()
        } else {
            u32::MAX as nat
        };
        lemma_le_len(n, 4);
    }
}

/// What follows the head of a file.
spec fn enc_body(index: IndexView) -> Seq<u8> {
    enc_len(index.exclude.len()) + (enc_list(index.exclude) + (enc_len(index.entries.len())
        + enc_entries(index.entries)))
}

/// The head of a file: root, device, inode and time of writing.
fn read_head(reader: &mut Reader<'_>) -> (r: Option<(Vec<u8>, u64, u64, i64)>)
    requires
        old(reader).wf(),
    ensures
        match r {
            Some(h) => h.0@.len() <= u32::MAX && final(reader).moved(
                *old(reader),
                enc_head(h.0@, h.1, h.2, h.3),
            ),
            None => true,
        },
        forall|root: Seq<u8>, dev: u64, ino: u64, written_ns: i64|
            root.len() <= u32::MAX && #[trigger] has_prefix(
                old(reader).rest(),
                enc_head(root, dev, ino, written_ns),
            ) ==> r is Some && (r->0).0@ == root && (r->0).1 == dev && (r->0).2 == ino && (
            r->0).3 == written_ns,
{
    let ghost start = *reader;
    proof {
        lemma_pow_bounds();
        lemma_le_len(VERSION as nat, 4);
        assert forall|root: Seq<u8>, dev: u64, ino: u64, w: i64|
            #[trigger] has_prefix(start.rest(), enc_head(root, dev, ino, w)) implies has_prefix(
            start.rest(),
            MAGIC@,
        ) && has_prefix(start.rest().skip(8), le_bytes(VERSION as nat, 4)) && has_prefix(
            start.rest().skip(12),
            enc_bytes(root),
        ) && has_prefix(
            start.rest().skip(12 + enc_bytes(root).len() as int),
            le_bytes(dev as nat, 8),
        ) && has_prefix(
            start.rest().skip(20 + enc_bytes(root).len() as int),
            le_bytes(ino as nat, 8),
        ) && has_prefix(
            start.rest().skip(28 + enc_bytes(root).len() as int),
            le_bytes(twos_complement(w), 8),
        ) && le_bytes(dev as nat, 8).len() == 8 && le_bytes(ino as nat, 8).len() == 8 && le_bytes(
            twos_complement(w),
            8,
        ).len() == 8 by {
            let a = MAGIC@;
            let b = a + le_bytes(VERSION as nat, 4);
            let c = b + enc_bytes(root);
            let d = c + le_bytes(dev as nat, 8);
            let e = d + le_bytes(ino as nat, 8);
            lemma_le_len(dev as nat, 8);
            lemma_le_len(ino as nat, 8);
            lemma_le_len(twos_complement(w), 8);
            lemma_prefix_concat(start.rest(), e, le_bytes(twos_complement(w), 8));
            lemma_prefix_concat(start.rest(), d, le_bytes(ino as nat, 8));
            lemma_prefix_concat(start.rest(), c, le_bytes(dev as nat, 8));
            lemma_prefix_concat(start.rest(), b, enc_bytes(root));
            lemma_prefix_concat(start.rest(), a, le_bytes(VERSION as nat, 4));
        }
    }
    let magic = match reader.take(8) {
        Some(magic) => magic,
        None => return None,
    };
    let ghost r1 = *reader;
    proof {
        r1.lemma_moved(start, magic@);
    }
    if !bytes_eq(magic, MAGIC.as_slice()) {
        return None;
    }
    let version: u32 = match reader.u32() {
        Some(version) => version,
        None => return None,
    };
    let ghost r2 = *reader;
    proof {
        lemma_le_len(version as nat, 4);
        r2.lemma_moved(r1, le_bytes(version as nat, 4));
        lemma_skip_skip(start.bytes@, start.at as int, 8);
        lemma_skip_skip(start.bytes@, start.at as int, 12);
        assert forall|root: Seq<u8>, dev: u64, ino: u64, w: i64|
            #[trigger] has_prefix(start.rest(), enc_head(root, dev, ino, w)) implies version
            == VERSION by {
            lemma_same_number(r1.rest(), version as nat, VERSION as nat, 4);
        }
    }
    if version != VERSION {
        return None;
    }
    let root = match reader.bytes() {
        Some(root) => slice_to_vec(root),
        None => return None,
    };
    let ghost r3 = *reader;
    let ghost len = enc_bytes(root@).len() as int;
    proof {
        r3.lemma_moved(r2, enc_bytes(root@));
        lemma_skip_skip(start.bytes@, start.at as int, 12 + len);
        assert forall|ro: Seq<u8>, de: u64, i: u64, w: i64|
            ro.len() <= u32::MAX && #[trigger] has_prefix(
                start.rest(),
                enc_head(ro, de, i, w),
            ) implies root@ == ro && has_prefix(r3.rest(), le_bytes(de as nat, 8)) by {
            assert(has_prefix(r2.rest(), enc_bytes(ro)));
        }
    }
    let dev: u64 = match reader.u64() {
        Some(dev) => dev,
        None => return None,
    };
    let ghost r4 = *reader;
    proof {
        lemma_le_len(dev as nat, 8);
        r4.lemma_moved(r3, le_bytes(dev as nat, 8));
        lemma_skip_skip(start.bytes@, start.at as int, 20 + len);
        assert forall|ro: Seq<u8>, de: u64, i: u64, w: i64|
            ro.len() <= u32::MAX && #[trigger] has_prefix(
                start.rest(),
                enc_head(ro, de, i, w),
            ) implies has_prefix(r4.rest(), le_bytes(i as nat, 8)) by {
            assert(root@ == ro);
        }
    }
    let ino: u64 = match reader.u64() {
        Some(ino) => ino,
        None => return None,
    };
    let ghost r5 = *reader;
    proof {
        lemma_le_len(ino as nat, 8);
        r5.lemma_moved(r4, le_bytes(ino as nat, 8));
        lemma_skip_skip(start.bytes@, start.at as int, 28 + len);
        assert forall|ro: Seq<u8>, de: u64, i: u64, w: i64|
            ro.len() <= u32::MAX && #[trigger] has_prefix(
                start.rest(),
                enc_head(ro, de, i, w),
            ) implies has_prefix(r5.rest(), le_bytes(twos_complement(w), 8)) by {
            assert(root@ == ro);
        }
    }
    let written_ns: i64 = match reader.i64() {
        Some(written_ns) => written_ns,
        None => return None,
    };
    let ghost r6 = *reader;
    proof {
        lemma_le_len(twos_complement(written_ns), 8);
        r6.lemma_moved(r5, le_bytes(twos_complement(written_ns), 8));
        r2.lemma_moved_on(r1, start, MAGIC@, le_bytes(VERSION as nat, 4));
        r3.lemma_moved_on(r2, start, MAGIC@ + le_bytes(VERSION as nat, 4), enc_bytes(root@));
        let c = MAGIC@ + le_bytes(VERSION as nat, 4) + enc_bytes(root@);
        r4.lemma_moved_on(r3, start, c, le_bytes(dev as nat, 8));
        r5.lemma_moved_on(r4, start, c + le_bytes(dev as nat, 8), le_bytes(ino as nat, 8));
        r6.lemma_moved_on(
            r5,
            start,
            c + le_bytes(dev as nat, 8) + le_bytes(ino as nat, 8),
            le_bytes(twos_complement(written_ns), 8),
        );
        assert forall|ro: Seq<u8>, de: u64, i: u64, w: i64|
            ro.len() <= u32::MAX && #[trigger] has_prefix(
                start.rest(),
                enc_head(ro, de, i, w),
            ) implies root@ == ro && dev == de && ino == i && written_ns == w by {
            lemma_same_number(r3.rest(), dev as nat, de as nat, 8);
            lemma_same_number(r4.rest(), ino as nat, i as nat, 8);
            lemma_same_number(r5.rest(), twos_complement(written_ns), twos_complement(w), 8);
        }
    }
    Some((root, dev, ino, written_ns))
}

/// Parses one index file, or `None` for anything that is not exactly one.
///
/// The result is `Some` exactly when the bytes are the encoding of an index
/// whose entries form a tree, and then it is that index: decoding inverts
/// [`encode`] on every index that a file can hold.
#[verifier::rlimit(60)]
#[verifier::spinoff_prover]
pub fn decode(bytes: &[u8]) -> (r: Option<Index>)
    ensures
        r matches Some(index) ==> is_file_of(bytes@, index@),
        forall|index: IndexView| #[trigger]
            is_file_of(bytes@, index) ==> r is Some && r->0@ == index,
{
    let mut reader = Reader { bytes, at: 0 };
    let ghost start = reader;
    proof {
        assert(start.rest() =~= bytes@);
        assert forall|t: IndexView| #[trigger] is_file_of(bytes@, t) implies has_prefix(
            start.rest(),
            enc_head(t.root, t.dev, t.ino, t.written_ns),
        ) && bytes@ == enc_head(t.root, t.dev, t.ino, t.written_ns) + enc_body(t) by {
            let head = enc_head(t.root, t.dev, t.ino, t.written_ns);
            assert(encoded(t) =~= head + enc_body(t));
            assert((head + enc_body(t)).take(head.len() as int) =~= head);
        }
    }
    let (root, dev, ino, written_ns) = match read_head(&mut reader) {
        Some(head) => head,
        None => return None,
    };
    let ghost head = enc_head(root@, dev, ino, written_ns);
    let ghost r1 = reader;
    proof {
        r1.lemma_moved(start, head);
        assert forall|t: IndexView| #[trigger] is_file_of(bytes@, t) implies t.root == root@
            && t.dev == dev && t.ino == ino && t.written_ns == written_ns by {
            assert(has_prefix(start.rest(), enc_head(t.root, t.dev, t.ino, t.written_ns)));
        }
        assert forall|t: IndexView| #[trigger] is_file_of(bytes@, t) implies r1.rest() == enc_body(
            t,
        ) && has_prefix(r1.rest(), enc_len(t.exclude.len())) && 4 * t.exclude.len()
            <= r1.rest().len() - 4 by {
            assert((head + enc_body(t)).skip(head.len() as int) =~= enc_body(t));
            lemma_le_len(t.exclude.len(), 4);
            lemma_list_len(t.exclude);
            assert(enc_body(t).take(4) =~= enc_len(t.exclude.len()));
        }
    }
    let exclude_count: usize = match reader.count(4) {
        Some(n) => n,
        None => return None,
    };
    let ghost r2 = reader;
    proof {
        lemma_le_len(exclude_count as nat, 4);
        r2.lemma_moved(r1, enc_len(exclude_count as nat));
        assert forall|t: IndexView| #[trigger] is_file_of(bytes@, t) implies t.exclude.len()
            == exclude_count && list_fits(t.exclude) && has_prefix(r2.rest(), enc_list(t.exclude))
            && r2.rest() == enc_list(t.exclude) + (enc_len(t.entries.len()) + enc_entries(
            t.entries,
        )) by {
            let tail = enc_list(t.exclude) + (enc_len(t.entries.len()) + enc_entries(t.entries));
            lemma_le_len(t.exclude.len(), 4);
            assert(enc_body(t).skip(4) =~= tail);
            assert(tail.take(enc_list(t.exclude).len() as int) =~= enc_list(t.exclude));
        }
    }
    let exclude = match read_list(&mut reader, exclude_count) {
        Some(list) => list,
        None => return None,
    };
    let ghost r3 = reader;
    proof {
        r3.lemma_moved(r2, enc_list(views(exclude@)));
        assert forall|t: IndexView| #[trigger] is_file_of(bytes@, t) implies views(exclude@)
            == t.exclude && r3.rest() == enc_len(t.entries.len()) + enc_entries(t.entries)
            && has_prefix(r3.rest(), enc_len(t.entries.len())) && MIN_ENTRY_BYTES * t.entries.len()
            <= r3.rest().len() - 4 by {
            let tail = enc_len(t.entries.len()) + enc_entries(t.entries);
            assert((enc_list(t.exclude) + tail).skip(enc_list(t.exclude).len() as int) =~= tail);
            lemma_le_len(t.entries.len(), 4);
            lemma_entries_len(t.entries);
            assert(tail.take(4) =~= enc_len(t.entries.len()));
        }
    }
    let count: usize = match reader.count(MIN_ENTRY_BYTES) {
        Some(n) => n,
        None => return None,
    };
    let ghost r4 = reader;
    let mut entries: Vec<Entry> = Vec::new();
    let mut flags: Vec<bool> = Vec::new();
    while flags.len() < count
        invariant
            flags@.len() <= count,
            forall|c: int| 0 <= c < flags@.len() ==> !#[trigger] flags@[c],
        decreases count - flags@.len(),
    {
        flags.push(false);
    }
    proof {
        lemma_le_len(count as nat, 4);
        r4.lemma_moved(r3, enc_len(count as nat));
        assert(entry_views(entries@) =~= Seq::empty());
        assert(enc_entries(entry_views(entries@)) =~= Seq::empty());
        assert(r4.bytes@.subrange(r4.at as int, r4.at as int) =~= Seq::empty());
        assert(r4.rest() =~= Seq::empty() + r4.rest());
        assert forall|t: IndexView| #[trigger] is_file_of(bytes@, t) implies t.entries.len()
            == count && entry_views(entries@) == t.entries.take(0) && r4.rest() == enc_entries(
            t.entries.skip(0),
        ) by {
            lemma_le_len(t.entries.len(), 4);
            assert((enc_len(t.entries.len()) + enc_entries(t.entries)).skip(4) =~= enc_entries(
                t.entries,
            ));
            assert(t.entries.skip(0) =~= t.entries);
            assert(t.entries.take(0) =~= entry_views(entries@));
        }
    }
    while entries.len() < count
        invariant
            r4.wf(),
            r4.bytes@ == bytes@,
            count <= u32::MAX,
            entries@.len() <= count,
            flags@.len() == count,
            reader.moved(r4, enc_entries(entry_views(entries@))),
            forall|i: int|
                0 <= i < entries@.len() ==> entry_storable(#[trigger] entry_views(entries@)[i]),
            forward(entry_views(entries@), count as int),
            claimed_once(entry_views(entries@)),
            forall|c: int|
                0 <= c < count ==> #[trigger] flags@[c] == claimed(entry_views(entries@), c),
            forall|t: IndexView| #[trigger]
                is_file_of(bytes@, t) ==> t.entries.len() == count && entry_views(entries@)
                    == t.entries.take(entries@.len() as int) && reader.rest() == enc_entries(
                    t.entries.skip(entries@.len() as int),
                ),
        decreases count - entries@.len(),
    {
        let ghost mid = reader;
        let ghost done = entry_views(entries@);
        let ghost k = entries@.len() as int;
        let i: usize = entries.len();
        proof {
            assert forall|t: IndexView| #[trigger] is_file_of(bytes@, t) implies has_prefix(
                mid.rest(),
                enc_entry(t.entries[k]),
            ) && entry_storable(t.entries[k]) && mid.rest() == enc_entry(t.entries[k])
                + enc_entries(t.entries.skip(k + 1)) by {
                let tail = t.entries.skip(k);
                lemma_enc_entries_first(tail);
                assert(tail.skip(1) =~= t.entries.skip(k + 1));
                let e = enc_entry(t.entries[k]);
                assert((e + enc_entries(tail.skip(1))).take(e.len() as int) =~= e);
            }
        }
        let entry = match read_entry(&mut reader) {
            Some(entry) => entry,
            None => return None,
        };
        let ghost before = flags@;
        let ok = claim_children(&entry.children, i, &mut flags);
        proof {
            reader.lemma_moved(mid, enc_entry(entry@));
            assert forall|t: IndexView| #[trigger] is_file_of(bytes@, t) implies t.entries[k]
                == entry@ && ok && reader.rest() == enc_entries(t.entries.skip(k + 1)) by {
                lemma_tree_claimable(t.entries, k, before);
                let e = enc_entry(t.entries[k]);
                assert((e + enc_entries(t.entries.skip(k + 1))).skip(e.len() as int)
                    =~= enc_entries(t.entries.skip(k + 1)));
            }
        }
        if !ok {
            return None;
        }
        proof {
            lemma_claim_step(done, entry@, count as int, before, flags@);
        }
        entries.push(entry);
        proof {
            assert(entry_views(entries@) =~= done.push(entry@));
            assert(entry_views(entries@).drop_last() =~= done);
            reader.lemma_moved_on(mid, r4, enc_entries(done), enc_entry(entry@));
            assert forall|t: IndexView| #[trigger] is_file_of(bytes@, t) implies entry_views(
                entries@,
            ) == t.entries.take(k + 1) by {
                assert(t.entries.take(k + 1) =~= t.entries.take(k).push(t.entries[k]));
            }
        }
    }
    proof {
        assert forall|t: IndexView| #[trigger] is_file_of(bytes@, t) implies entry_views(entries@)
            == t.entries && reader.rest().len() == 0 by {
            assert(t.entries.take(count as int) =~= t.entries);
            assert(t.entries.skip(count as int) =~= Seq::empty());
        }
    }
    if reader.at != bytes.len() {
        return None;
    }
    if entries.len() == 0 || entries[0].rel.len() != 0 {
        proof {
            assert(entries@.len() > 0 ==> entry_views(entries@)[0].rel == entries@[0].rel@);
        }
        return None;
    }
    let mut c: usize = 1;
    while c < count
        invariant
            1 <= c,
            flags@.len() == count,
            entries@.len() == count,
            forall|d: int| 0 < d < c && d < count ==> #[trigger] flags@[d],
            forall|d: int|
                0 < d < c && d < count ==> (#[trigger] entry_views(entries@)[d]).rel.len() > 0,
            forall|d: int|
                0 <= d < count ==> #[trigger] flags@[d] == claimed(entry_views(entries@), d),
            forall|t: IndexView| #[trigger]
                is_file_of(bytes@, t) ==> entry_views(entries@) == t.entries,
        decreases count - c,
    {
        assert(entry_views(entries@)[c as int].rel == entries@[c as int].rel@);
        if !flags[c] || entries[c].rel.len() == 0 {
            assert(flags@[c as int] == claimed(entry_views(entries@), c as int));
            return None;
        }
        c += 1;
    }
    let index = Index { root, dev, ino, written_ns, exclude, entries };
    proof {
        let ev = index@.entries;
        assert(reader.rest() =~= Seq::empty());
        r2.lemma_moved_on(r1, start, head, enc_len(exclude_count as nat));
        r3.lemma_moved_on(r2, start, head + enc_len(exclude_count as nat), enc_list(
            index@.exclude,
        ));
        let front = head + enc_len(exclude_count as nat) + enc_list(index@.exclude);
        r4.lemma_moved_on(r3, start, front, enc_len(count as nat));
        reader.lemma_moved_on(r4, start, front + enc_len(count as nat), enc_entries(ev));
        assert(bytes@ =~= encoded(index@));
        assert forall|d: int| 0 < d < ev.len() implies #[trigger] claimed(ev, d) by {
            assert(flags@[d]);
        }
        assert(entries_plain(ev)) by {
            assert forall|i: int| 0 <= i < ev.len() implies safe_rel((#[trigger] ev[i]).rel) && (
            ev[i].mtime_ns is None ==> ev[i].children.len() == 0) by {
                assert(entry_storable(ev[i]));
            }
        }
        assert(fits(index@)) by {
            assert forall|i: int| 0 <= i < ev.len() implies (#[trigger] ev[i]).rel.len()
                <= u32::MAX && ev[i].children.len() <= u32::MAX by {
                assert(entry_storable(ev[i]));
            }
        }
        assert(ev[0].rel == index.entries@[0].rel@);
        assert forall|t: IndexView| #[trigger] is_file_of(bytes@, t) implies index@ == t by {
            assert(views(index.exclude@) == t.exclude);
            assert(entry_views(index.entries@) == t.entries);
        }
    }
    Some(index)
}

/// A number read back from its bytes, whatever follows.
proof fn lemma_number_apart(x: nat, y: nat, n: nat, s: Seq<u8>, t: Seq<u8>)
    requires
        x < vstd::arithmetic::power::pow(256, n),
        y < vstd::arithmetic::power::pow(256, n),
        le_bytes(x, n) + s == le_bytes(y, n) + t,
    ensures
        x == y,
        s == t,
{
    lemma_le_len(x, n);
    lemma_le_len(y, n);
    let whole = le_bytes(x, n) + s;
    assert(le_bytes(x, n) =~= whole.take(n as int));
    assert(le_bytes(y, n) =~= whole.take(n as int));
    lemma_le_round_trip(x, n);
    lemma_le_round_trip(y, n);
    assert(s =~= whole.skip(n as int));
    assert(t =~= whole.skip(n as int));
}

/// A byte string read back from behind its length, whatever follows.
proof fn lemma_bytes_apart(x: Seq<u8>, y: Seq<u8>, s: Seq<u8>, t: Seq<u8>)
    requires
        x.len() <= u32::MAX,
        y.len() <= u32::MAX,
        enc_bytes(x) + s == enc_bytes(y) + t,
    ensures
        x == y,
        s == t,
{
    lemma_pow_bounds();
    assert(enc_bytes(x) + s =~= le_bytes(x.len(), 4) + (x + s));
    assert(enc_bytes(y) + t =~= le_bytes(y.len(), 4) + (y + t));
    lemma_number_apart(x.len(), y.len(), 4, x + s, y + t);
    let n = x.len() as int;
    assert(x =~= (x + s).take(n));
    assert(y =~= (y + t).take(n));
    assert(s =~= (x + s).skip(n));
    assert(t =~= (y + t).skip(n));
}

proof fn lemma_list_apart(x: Seq<Seq<u8>>, y: Seq<Seq<u8>>, s: Seq<u8>, t: Seq<u8>)
    requires
        x.len() == y.len(),
        list_fits(x),
        list_fits(y),
        enc_list(x) + s == enc_list(y) + t,
    ensures
        x == y,
        s == t,
    decreases x.len(),
{
    if x.len() == 0 {
        assert(x =~= y);
        assert(enc_list(x) + s =~= s);
        assert(enc_list(y) + t =~= t);
    } else {
        let a = x.skip(1);
        let b = y.skip(1);
        lemma_enc_list_first(x);
        lemma_enc_list_first(y);
        assert(enc_list(x) + s =~= enc_bytes(x[0]) + (enc_list(a) + s));
        assert(enc_list(y) + t =~= enc_bytes(y[0]) + (enc_list(b) + t));
        lemma_bytes_apart(x[0], y[0], enc_list(a) + s, enc_list(b) + t);
        assert(list_fits(a)) by {
            assert forall|i: int| 0 <= i < a.len() implies (#[trigger] a[i]).len() <= u32::MAX by {
                assert(a[i] == x[i + 1]);
            }
        }
        assert(list_fits(b)) by {
            assert forall|i: int| 0 <= i < b.len() implies (#[trigger] b[i]).len() <= u32::MAX by {
                assert(b[i] == y[i + 1]);
            }
        }
        lemma_list_apart(a, b, s, t);
        assert(x =~= seq![x[0]] + a);
        assert(y =~= seq![y[0]] + b);
    }
}

proof fn lemma_children_apart(x: Seq<u32>, y: Seq<u32>, s: Seq<u8>, t: Seq<u8>)
    requires
        x.len() == y.len(),
        enc_children(x) + s == enc_children(y) + t,
    ensures
        x == y,
        s == t,
    decreases x.len(),
{
    if x.len() == 0 {
        assert(x =~= y);
        assert(enc_children(x) + s =~= s);
        assert(enc_children(y) + t =~= t);
    } else {
        let a = x.skip(1);
        let b = y.skip(1);
        lemma_pow_bounds();
        lemma_enc_children_first(x);
        lemma_enc_children_first(y);
        assert(enc_children(x) + s =~= le_bytes(x[0] as nat, 4) + (enc_children(a) + s));
        assert(enc_children(y) + t =~= le_bytes(y[0] as nat, 4) + (enc_children(b) + t));
        lemma_number_apart(x[0] as nat, y[0] as nat, 4, enc_children(a) + s, enc_children(b) + t);
        lemma_children_apart(a, b, s, t);
        assert(x =~= seq![x[0]] + a);
        assert(y =~= seq![y[0]] + b);
    }
}

/// Whether a file can say all of an entry: its lengths fit, and it has no
/// children where it is a repository.
pub open spec fn is_sayable(e: EntryView) -> bool {
    &&& e.rel.len() <= u32::MAX
    &&& e.children.len() <= u32::MAX
    &&& e.mtime_ns is None ==> e.children.len() == 0
}

proof fn lemma_entry_apart(x: EntryView, y: EntryView, s: Seq<u8>, t: Seq<u8>)
    requires
        is_sayable(x),
        is_sayable(y),
        enc_entry(x) + s == enc_entry(y) + t,
    ensures
        x == y,
        s == t,
{
    assert((enc_entry(x) + s)[0] == enc_entry(x)[0]);
    assert((enc_entry(y) + t)[0] == enc_entry(y)[0]);
    lemma_pow_bounds();
    match (x.mtime_ns, y.mtime_ns) {
        (None, None) => {
            assert((enc_entry(x) + s).skip(1) =~= enc_bytes(x.rel) + s);
            assert((enc_entry(y) + t).skip(1) =~= enc_bytes(y.rel) + t);
            lemma_bytes_apart(x.rel, y.rel, s, t);
            assert(x.children =~= y.children);
        },
        (Some(a), Some(b)) => {
            let xc = enc_children(x.children) + s;
            let yc = enc_children(y.children) + t;
            let xl = enc_len(x.children.len()) + xc;
            let yl = enc_len(y.children.len()) + yc;
            let xm = le_bytes(twos_complement(a), 8) + xl;
            let ym = le_bytes(twos_complement(b), 8) + yl;
            assert((enc_entry(x) + s).skip(1) =~= enc_bytes(x.rel) + xm);
            assert((enc_entry(y) + t).skip(1) =~= enc_bytes(y.rel) + ym);
            lemma_bytes_apart(x.rel, y.rel, xm, ym);
            lemma_number_apart(twos_complement(a), twos_complement(b), 8, xl, yl);
            lemma_number_apart(x.children.len(), y.children.len(), 4, xc, yc);
            lemma_children_apart(x.children, y.children, s, t);
        },
        _ => {},
    }
}

proof fn lemma_entries_apart(x: Seq<EntryView>, y: Seq<EntryView>)
    requires
        x.len() == y.len(),
        forall|i: int| 0 <= i < x.len() ==> is_sayable(#[trigger] x[i]),
        forall|i: int| 0 <= i < y.len() ==> is_sayable(#[trigger] y[i]),
        enc_entries(x) == enc_entries(y),
    ensures
        x == y,
    decreases x.len(),
{
    if x.len() == 0 {
        assert(x =~= y);
    } else {
        let a = x.skip(1);
        let b = y.skip(1);
        lemma_enc_entries_first(x);
        lemma_enc_entries_first(y);
        lemma_entry_apart(x[0], y[0], enc_entries(a), enc_entries(b));
        assert forall|i: int| 0 <= i < a.len() implies is_sayable(#[trigger] a[i]) by {
            assert(a[i] == x[i + 1]);
        }
        assert forall|i: int| 0 <= i < b.len() implies is_sayable(#[trigger] b[i]) by {
            assert(b[i] == y[i + 1]);
        }
        lemma_entries_apart(a, b);
        assert(x =~= seq![x[0]] + a);
        assert(y =~= seq![y[0]] + b);
    }
}

proof fn lemma_assoc(a: Seq<u8>, b: Seq<u8>, c: Seq<u8>)
    ensures
        (a + b) + c == a + (b + c),
{
    assert((a + b) + c =~= a + (b + c));
}

/// The head of a file in another order of concatenation.
proof fn lemma_head_parts(root: Seq<u8>, dev: u64, ino: u64, written_ns: i64, s: Seq<u8>)
    ensures
        enc_head(root, dev, ino, written_ns) + s == (MAGIC@ + le_bytes(VERSION as nat, 4)) + (
        enc_bytes(root) + (le_bytes(dev as nat, 8) + (le_bytes(ino as nat, 8) + (le_bytes(
            twos_complement(written_ns),
            8,
        ) + s)))),
{
    let f = MAGIC@ + le_bytes(VERSION as nat, 4);
    let r = enc_bytes(root);
    let d = le_bytes(dev as nat, 8);
    let i = le_bytes(ino as nat, 8);
    let w = le_bytes(twos_complement(written_ns), 8);
    lemma_assoc(f + r + d + i, w, s);
    lemma_assoc(f + r + d, i, w + s);
    lemma_assoc(f + r, d, i + (w + s));
    lemma_assoc(f, r, d + (i + (w + s)));
}

/// No two indices have one file: where every length fits its four bytes and no
/// repository has children, which a file does not say, the bytes tell the
/// index. So a file is either that of one index whose entries form a tree, or
/// no index at all.
pub proof fn law_encoding_is_unambiguous(a: IndexView, b: IndexView)
    requires
        fits(a),
        fits(b),
        forall|i: int|
            0 <= i < a.entries.len() && a.entries[i].mtime_ns is None ==> (
            #[trigger] a.entries[i]).children.len() == 0,
        forall|i: int|
            0 <= i < b.entries.len() && b.entries[i].mtime_ns is None ==> (
            #[trigger] b.entries[i]).children.len() == 0,
        encoded(a) == encoded(b),
    ensures
        a == b,
{
    lemma_pow_bounds();
    let front = MAGIC@ + le_bytes(VERSION as nat, 4);
    let a5 = enc_len(a.entries.len()) + enc_entries(a.entries);
    let b5 = enc_len(b.entries.len()) + enc_entries(b.entries);
    let a4 = enc_body(a);
    let b4 = enc_body(b);
    let a3 = le_bytes(twos_complement(a.written_ns), 8) + a4;
    let b3 = le_bytes(twos_complement(b.written_ns), 8) + b4;
    let a2 = le_bytes(a.ino as nat, 8) + a3;
    let b2 = le_bytes(b.ino as nat, 8) + b3;
    let a1 = le_bytes(a.dev as nat, 8) + a2;
    let b1 = le_bytes(b.dev as nat, 8) + b2;
    lemma_body(a);
    lemma_body(b);
    lemma_head_parts(a.root, a.dev, a.ino, a.written_ns, a4);
    lemma_head_parts(b.root, b.dev, b.ino, b.written_ns, b4);
    lemma_behind(front, enc_bytes(a.root) + a1, enc_bytes(b.root) + b1);
    lemma_bytes_apart(a.root, b.root, a1, b1);
    lemma_number_apart(a.dev as nat, b.dev as nat, 8, a2, b2);
    lemma_number_apart(a.ino as nat, b.ino as nat, 8, a3, b3);
    lemma_number_apart(twos_complement(a.written_ns), twos_complement(b.written_ns), 8, a4, b4);
    lemma_number_apart(
        a.exclude.len(),
        b.exclude.len(),
        4,
        enc_list(a.exclude) + a5,
        enc_list(b.exclude) + b5,
    );
    lemma_list_apart(a.exclude, b.exclude, a5, b5);
    lemma_number_apart(
        a.entries.len(),
        b.entries.len(),
        4,
        enc_entries(a.entries),
        enc_entries(b.entries),
    );
    assert forall|i: int| 0 <= i < a.entries.len() implies is_sayable(#[trigger] a.entries[i]) by {}
    assert forall|i: int| 0 <= i < b.entries.len() implies is_sayable(#[trigger] b.entries[i]) by {}
    lemma_entries_apart(a.entries, b.entries);
}

/// The bytes of an index whose entries form no tree hold no index.
pub proof fn law_no_tree_is_refused(a: IndexView, index: IndexView)
    requires
        fits(a),
        forall|i: int|
            0 <= i < a.entries.len() && a.entries[i].mtime_ns is None ==> (
            #[trigger] a.entries[i]).children.len() == 0,
        !is_tree(a.entries),
    ensures
        !is_file_of(encoded(a), index),
{
    if is_file_of(encoded(a), index) {
        law_encoding_is_unambiguous(a, index);
    }
}

/// A file is its head and what follows.
proof fn lemma_body(index: IndexView)
    ensures
        encoded(index) == enc_head(index.root, index.dev, index.ino, index.written_ns) + enc_body(
            index,
        ),
{
    let h = enc_head(index.root, index.dev, index.ino, index.written_ns);
    let l = enc_len(index.exclude.len());
    let x = enc_list(index.exclude);
    let m = enc_len(index.entries.len());
    let e = enc_entries(index.entries);
    lemma_assoc(h + l + x, m, e);
    lemma_assoc(h + l, x, m + e);
    lemma_assoc(h, l, x + (m + e));
}

/// What follows the same is the same.
proof fn lemma_behind(front: Seq<u8>, s: Seq<u8>, t: Seq<u8>)
    requires
        front + s == front + t,
    ensures
        s == t,
{
    let n = front.len() as int;
    assert(s =~= (front + s).skip(n));
    assert(t =~= (front + t).skip(n));
}

} // verus!
