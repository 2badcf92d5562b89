//! What the place of a working copy promises.

use vstd::prelude::*;
use vstd::utf8::encode_utf8;

use super::{components, path_of};
use crate::bytes::{
    joined, kept, lemma_join_split, lemma_kept_all, lemma_split_nonempty, lemma_split_pieces,
    split_on, SLASH,
};
use crate::paths::{is_absolute_path, joined_path};
use crate::url::RepoView;

verus! {

/// The bytes of a character other than the slash are none of them a slash.
proof fn lemma_scalar_without_slash(c: char)
    requires
        c != '/',
    ensures
        vstd::utf8::encode_scalar(c as u32).len() > 0,
        !vstd::utf8::encode_scalar(c as u32).contains(SLASH),
{
    let n = c as u32;
    vstd::utf8::char_is_scalar(c);
    vstd::utf8::char_u32_cast(c, n);
    assert(n == 0x2f ==> c == '/');
    if vstd::utf8::has_width_1_encoding(n) {
        assert(vstd::utf8::leading_byte_width_1(n) == 0x2f ==> n == 0x2f) by (bit_vector)
            requires
                vstd::utf8::has_width_1_encoding(n),
        ;
    }
    assert(vstd::utf8::leading_byte_width_2(n) != 0x2f) by (bit_vector);
    assert(vstd::utf8::leading_byte_width_3(n) != 0x2f) by (bit_vector);
    assert(vstd::utf8::leading_byte_width_4(n) != 0x2f) by (bit_vector);
    assert(vstd::utf8::last_continuation_byte(n) != 0x2f) by (bit_vector);
    assert(vstd::utf8::second_last_continuation_byte(n) != 0x2f) by (bit_vector);
    assert(vstd::utf8::third_last_continuation_byte(n) != 0x2f) by (bit_vector);
}

/// A text without a slash encodes to bytes without one.
pub proof fn lemma_encoded_without_slash(s: Seq<char>)
    requires
        !s.contains('/'),
    ensures
        !encode_utf8(s).contains(SLASH),
        s.len() > 0 ==> encode_utf8(s).len() > 0,
    decreases s.len(),
{
    if s.len() > 0 {
        assert(s.contains(s[0]));
        lemma_scalar_without_slash(s[0]);
        let rest = s.drop_first();
        assert(!rest.contains('/')) by {
            if rest.contains('/') {
                let k = choose|k: int| 0 <= k < rest.len() && rest[k] == '/';
                assert(s[k + 1] == '/');
            }
        }
        lemma_encoded_without_slash(rest);
        let first = vstd::utf8::encode_scalar(s[0] as u32);
        let all = encode_utf8(s);
        assert(all == first + encode_utf8(rest));
        if all.contains(SLASH) {
            let k = choose|k: int| 0 <= k < all.len() && all[k] == SLASH;
            if k < first.len() {
                assert(first[k] == SLASH);
            } else {
                assert(encode_utf8(rest)[k - first.len()] == SLASH);
            }
        }
    }
}

/// Texts encode one after the other.
pub proof fn lemma_encoded_both(a: Seq<char>, b: Seq<char>)
    ensures
        encode_utf8(a + b) == encode_utf8(a) + encode_utf8(b),
    decreases a.len(),
{
    if a.len() == 0 {
        assert(a + b =~= b);
        assert(encode_utf8(a) + encode_utf8(b) =~= encode_utf8(b));
    } else {
        lemma_encoded_both(a.drop_first(), b);
        assert((a + b).drop_first() =~= a.drop_first() + b);
        assert((a + b)[0] == a[0]);
        let first = vstd::utf8::encode_scalar(a[0] as u32);
        assert(first + (encode_utf8(a.drop_first()) + encode_utf8(b)) =~= first + encode_utf8(
            a.drop_first(),
        ) + encode_utf8(b));
    }
}

proof fn lemma_encoded_slash()
    ensures
        encode_utf8(seq!['/']) == seq![SLASH],
{
    let s = seq!['/'];
    assert(s.drop_first() =~= Seq::<char>::empty());
    let c = '/' as u32;
    vstd::utf8::char_u32_cast('/', c);
    assert(c == 0x2f);
    assert(vstd::utf8::has_width_1_encoding(0x2f)) by (bit_vector);
    assert(vstd::utf8::leading_byte_width_1(0x2f) == 0x2f) by (bit_vector);
    assert(encode_utf8(s.drop_first()) =~= Seq::<u8>::empty());
    assert(encode_utf8(s) =~= seq![SLASH]);
}

/// A path of texts without slashes is the texts with a slash between each
/// two.
proof fn lemma_path_of_parts(names: Seq<Seq<char>>)
    requires
        names.len() > 0,
        forall|i: int|
            0 <= i < names.len() ==> (#[trigger] names[i]).len() > 0 && !names[i].contains('/'),
    ensures
        path_of(names) == encode_utf8(joined(names, '/')),
        path_of(names).len() > 0,
        path_of(names).last() != SLASH,
    decreases names.len(),
{
    let last = names.last();
    let bytes = encode_utf8(last);
    assert(names[names.len() - 1] == last);
    lemma_encoded_without_slash(last);
    assert(bytes.contains(bytes[0]));
    assert(bytes.contains(bytes.last()));
    assert(!is_absolute_path(bytes));
    let before = names.drop_last();
    if names.len() == 1 {
        assert(path_of(before) =~= Seq::<u8>::empty());
        assert(Seq::<u8>::empty() + bytes =~= bytes);
        assert(joined(names, '/') == names[0]);
    } else {
        assert forall|i: int| 0 <= i < before.len() implies (#[trigger] before[i]).len() > 0
            && !before[i].contains('/') by {
            assert(before[i] == names[i]);
        }
        lemma_path_of_parts(before);
        let head = joined(before, '/');
        lemma_encoded_both(head, seq!['/']);
        lemma_encoded_slash();
        assert(head + seq!['/'] =~= head.push('/'));
        lemma_encoded_both(head.push('/'), last);
        assert(encode_utf8(head) + seq![SLASH] =~= encode_utf8(head).push(SLASH));
    }
}

/// A working copy lies below its root at `host/owner/name`, and a bare one at
/// `host/owner/name.git`, whatever parts the owner has; without an owner, at
/// `host/name`.
pub proof fn law_working_copy_lies_at_host_owner_name(repo: RepoView, bare: bool)
    requires
        repo.host.len() > 0 && !repo.host.contains('/'),
        repo.name.len() > 0 && !repo.name.contains('/'),
        repo.owner.len() > 0 ==> forall|i: int|
            0 <= i < split_on(repo.owner, '/').len() ==> (#[trigger] split_on(
                repo.owner,
                '/',
            )[i]).len() > 0,
    ensures
        path_of(components(repo, bare)) == encode_utf8(
            repo.host.push('/') + (if repo.owner.len() > 0 {
                repo.owner.push('/')
            } else {
                Seq::empty()
            }) + repo.name + (if bare {
                ".git"@
            } else {
                Seq::empty()
            }),
        ),
{
    reveal_strlit(".git");
    let keep = |s: Seq<char>| s.len() > 0;
    let parts = split_on(repo.owner, '/');
    let none = Seq::<char>::empty();
    let name = if bare {
        repo.name + ".git"@
    } else {
        repo.name
    };
    let owner = kept(parts, keep);
    let names = components(repo, bare);
    assert(!name.contains('/')) by {
        if name.contains('/') {
            let k = choose|k: int| 0 <= k < name.len() && name[k] == '/';
            if k < repo.name.len() {
                assert(repo.name.contains(repo.name[k]));
            } else {
                assert(name[k] == ".git"@[k - repo.name.len()]);
            }
        }
    }
    if repo.owner.len() == 0 {
        assert(parts =~= seq![none]);
        assert(parts.drop_last() =~= Seq::<Seq<char>>::empty());
        assert(kept(parts.drop_last(), keep).len() == 0);
        assert(parts.last() == none);
        assert(owner =~= Seq::<Seq<char>>::empty());
        assert(names =~= seq![repo.host, name]);
        lemma_path_of_parts(names);
        let first = seq![repo.host];
        assert(names.drop_last() =~= first);
        assert(joined(first, '/') == first[0]);
        assert(joined(names, '/') =~= repo.host.push('/') + name);
    } else {
        lemma_kept_all(parts, keep);
        assert(owner == parts);
        lemma_split_pieces(repo.owner, '/');
        lemma_split_nonempty(repo.owner, '/');
        assert forall|i: int| 0 <= i < names.len() implies (#[trigger] names[i]).len() > 0
            && !names[i].contains('/') by {
            if 0 < i < names.len() - 1 {
                assert(names[i] == parts[i - 1]);
                if names[i].contains('/') {
                    let j = choose|j: int| 0 <= j < names[i].len() && names[i][j] == '/';
                    assert(split_on(repo.owner, '/')[i - 1][j] != '/');
                }
            }
        }
        lemma_path_of_parts(names);
        lemma_join_split(repo.owner, '/');
        let head = seq![repo.host] + parts;
        assert(names.drop_last() =~= head);
        lemma_joined_head(repo.host, parts);
        assert(joined(names, '/') =~= repo.host.push('/') + repo.owner.push('/') + name);
    }
    let tail = if bare {
        ".git"@
    } else {
        none
    };
    let middle = if repo.owner.len() > 0 {
        repo.owner.push('/')
    } else {
        none
    };
    assert(repo.host.push('/') + middle + repo.name + tail =~= joined(names, '/'));
}

/// What is joined behind a first part follows it and a separator.
proof fn lemma_joined_head(first: Seq<char>, parts: Seq<Seq<char>>)
    requires
        parts.len() > 0,
    ensures
        joined(seq![first] + parts, '/') == first.push('/') + joined(parts, '/'),
    decreases parts.len(),
{
    let whole = seq![first] + parts;
    let shorter = parts.drop_last();
    assert(whole.drop_last() =~= seq![first] + shorter);
    assert(whole.last() == parts.last());
    if parts.len() == 1 {
        assert(whole.drop_last() =~= seq![first]);
        assert(joined(whole.drop_last(), '/') == first);
    } else {
        lemma_joined_head(first, shorter);
        assert(joined(whole, '/') =~= first.push('/') + joined(parts, '/'));
    }
}

/// A bare copy lies where the other one does, with `.git` behind its path.
pub proof fn law_bare_copy_lies_beside(repo: RepoView)
    ensures
        path_of(components(repo, true)) == path_of(components(repo, false)) + encode_utf8(".git"@),
{
    reveal_strlit(".git");
    let keep = |s: Seq<char>| s.len() > 0;
    let head = seq![repo.host] + kept(split_on(repo.owner, '/'), keep);
    let one = components(repo, false);
    let other = components(repo, true);
    assert(one.drop_last() =~= head);
    assert(other.drop_last() =~= head);
    let base = path_of(head);
    let plain = encode_utf8(repo.name);
    let git = encode_utf8(".git"@);
    lemma_encoded_both(repo.name, ".git"@);
    assert(!".git"@.contains('/'));
    lemma_encoded_without_slash(".git"@);
    assert(git.contains(git[0]));
    if plain.len() > 0 {
        assert((plain + git)[0] == plain[0]);
    } else {
        assert(plain + git =~= git);
    }
    assert(joined_path(base, plain + git) =~= joined_path(base, plain) + git);
}

} // verus!
