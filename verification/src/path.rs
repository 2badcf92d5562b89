//! Where a repository's working copy lies.

pub mod laws;

use vstd::prelude::*;
use vstd::utf8::encode_utf8;

use crate::bytes::{has_prefix, kept, lemma_kept_from, lemma_split_pieces, split_on};
use crate::paths::{is_absolute_path, join, joined_path};
use crate::text::{char_views, chars, split_chars, text};
use crate::url::{Repo, RepoView};

verus! {

/// The names between a root and a working copy: the host, the owner's parts,
/// and the name, which a bare copy has a `.git` behind.
pub open spec fn components(repo: RepoView, bare: bool) -> Seq<Seq<char>> {
    let owner = kept(split_on(repo.owner, '/'), |s: Seq<char>| s.len() > 0);
    (seq![repo.host] + owner).push(
        if bare {
            repo.name + ".git"@
        } else {
            repo.name
        },
    )
}

/// A path with each name resolved against what precedes it.
pub open spec fn path_of(names: Seq<Seq<char>>) -> Seq<u8>
    decreases names.len(),
{
    if names.len() == 0 {
        Seq::empty()
    } else {
        joined_path(path_of(names.drop_last()), encode_utf8(names.last()))
    }
}

/// Where a repository's working copy lies below its root.
pub fn rel_path(repo: &Repo, bare: bool) -> (r: Vec<u8>)
    ensures
        r@ == path_of(components(repo@, bare)),
{
    let ghost names = components(repo@, bare);
    let ghost keep = |s: Seq<char>| s.len() > 0;
    let ghost all = split_on(repo.owner@, '/');
    let none: Vec<u8> = Vec::new();
    let mut path = join(none.as_slice(), repo.host.as_str().as_bytes());
    let owner = chars(repo.owner.as_str());
    let parts = split_chars(owner.as_slice(), '/');
    let mut i: usize = 0;
    proof {
        assert(none@ =~= Seq::<u8>::empty());
        assert(all.take(0) =~= Seq::empty());
        let first = seq![repo.host@] + kept(all.take(0), keep);
        assert(first =~= seq![repo.host@]);
        assert(first.drop_last() =~= Seq::empty());
        reveal_with_fuel(path_of, 2);
    }
    while i < parts.len()
        invariant
            i <= parts@.len(),
            char_views(parts@) == all,
            keep == (|s: Seq<char>| s.len() > 0),
            path@ == path_of(seq![repo.host@] + kept(all.take(i as int), keep)),
        decreases parts@.len() - i,
    {
        let ghost before = seq![repo.host@] + kept(all.take(i as int), keep);
        proof {
            assert(all.take(i + 1).drop_last() =~= all.take(i as int));
            assert(all[i as int] == parts@[i as int]@);
        }
        if parts[i].len() > 0 {
            path = join(path.as_slice(), text(parts[i].as_slice()).as_str().as_bytes());
            proof {
                let next = seq![repo.host@] + kept(all.take(i + 1), keep);
                assert(next =~= before.push(all[i as int]));
                assert(next.drop_last() =~= before);
            }
        }
        i += 1;
    }
    let ghost before = seq![repo.host@] + kept(all, keep);
    assert(all.take(i as int) =~= all);
    assert(names.drop_last() =~= before);
    if bare {
        let name = String::from_str(repo.name.as_str()).concat(".git");
        join(path.as_slice(), name.as_str().as_bytes())
    } else {
        join(path.as_slice(), repo.name.as_str().as_bytes())
    }
}

/// Where a repository's working copy lies.
pub fn dest_path(root: &[u8], repo: &Repo, bare: bool) -> (r: Vec<u8>)
    ensures
        r@ == joined_path(root@, path_of(components(repo@, bare))),
{
    join(root, rel_path(repo, bare).as_slice())
}

/// A text that does not begin with a slash encodes to bytes that do not.
proof fn lemma_no_leading_slash(s: Seq<char>)
    requires
        s.len() == 0 || s[0] != '/',
    ensures
        !is_absolute_path(encode_utf8(s)),
{
    if s.len() > 0 {
        let c = s[0] as u32;
        let bytes = encode_utf8(s);
        vstd::utf8::char_is_scalar(s[0]);
        vstd::utf8::char_u32_cast(s[0], c);
        assert(c == 0x2f ==> s[0] == '/');
        assert(bytes[0] == vstd::utf8::encode_scalar(c)[0]);
        if vstd::utf8::has_width_1_encoding(c) {
            assert(vstd::utf8::leading_byte_width_1(c) == 0x2f ==> c == 0x2f) by (bit_vector)
                requires
                    vstd::utf8::has_width_1_encoding(c),
            ;
        } else {
            assert(vstd::utf8::leading_byte_width_2(c) != 0x2f) by (bit_vector);
            assert(vstd::utf8::leading_byte_width_3(c) != 0x2f) by (bit_vector);
            assert(vstd::utf8::leading_byte_width_4(c) != 0x2f) by (bit_vector);
        }
    }
}

/// Names that do not begin with a slash make a relative path.
proof fn lemma_path_of_relative(names: Seq<Seq<char>>)
    requires
        forall|i: int| 0 <= i < names.len() ==> !is_absolute_path(encode_utf8(#[trigger] names[i])),
    ensures
        !is_absolute_path(path_of(names)),
    decreases names.len(),
{
    if names.len() > 0 {
        let shorter = names.drop_last();
        assert forall|i: int| 0 <= i < shorter.len() implies !is_absolute_path(
            encode_utf8(#[trigger] shorter[i]),
        ) by {
            assert(shorter[i] == names[i]);
        }
        lemma_path_of_relative(shorter);
        assert(names[names.len() - 1] == names.last());
        let base = path_of(shorter);
        let last = encode_utf8(names.last());
        let whole = joined_path(base, last);
        if base.len() > 0 {
            assert(whole[0] == base[0]);
        } else {
            assert(whole =~= last);
        }
    }
}

/// A working copy lies below its root: unless the host or the name begins
/// with a slash, its path is the root's with the names appended.
pub proof fn law_destination_is_below_the_root(root: Seq<u8>, repo: RepoView, bare: bool)
    requires
        repo.host.len() == 0 || repo.host[0] != '/',
        repo.name.len() == 0 || repo.name[0] != '/',
    ensures
        has_prefix(joined_path(root, path_of(components(repo, bare))), root),
{
    let names = components(repo, bare);
    let keep = |s: Seq<char>| s.len() > 0;
    let all = split_on(repo.owner, '/');
    let owner = kept(all, keep);
    lemma_kept_from(all, keep);
    lemma_split_pieces(repo.owner, '/');
    reveal_strlit(".git");
    assert forall|i: int| 0 <= i < names.len() implies !is_absolute_path(
        encode_utf8(#[trigger] names[i]),
    ) by {
        if i == 0 {
            lemma_no_leading_slash(names[i]);
        } else if i < names.len() - 1 {
            let part = owner[i - 1];
            assert(names[i] == part);
            let k = choose|k: int| 0 <= k < all.len() && all[k] == part;
            assert(!all[k].contains('/'));
            assert(part[0] != '/') by {
                if part[0] == '/' {
                    assert(part.contains('/'));
                }
            }
            lemma_no_leading_slash(names[i]);
        } else {
            lemma_no_leading_slash(names[i]);
        }
    }
    lemma_path_of_relative(names);
    let rel = path_of(names);
    let whole = joined_path(root, rel);
    assert(whole.subrange(0, root.len() as int) =~= root);
}

} // verus!
