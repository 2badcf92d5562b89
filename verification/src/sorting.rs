//! The order of byte strings, and sorting by it.

use vstd::prelude::*;

verus! {

/// Byte-wise lexicographic order: `a` comes no later than `b`.
pub open spec fn lex_le(a: Seq<u8>, b: Seq<u8>) -> bool
    decreases a.len(),
{
    if a.len() == 0 {
        true
    } else if b.len() == 0 {
        false
    } else if a[0] != b[0] {
        a[0] < b[0]
    } else {
        lex_le(a.drop_first(), b.drop_first())
    }
}

/// `a` comes strictly before `b`.
pub open spec fn lex_lt(a: Seq<u8>, b: Seq<u8>) -> bool {
    lex_le(a, b) && a != b
}

/// Whether a list is in non-decreasing order.
pub open spec fn is_sorted(s: Seq<Seq<u8>>) -> bool {
    forall|i: int, j: int| 0 <= i <= j < s.len() ==> lex_le(#[trigger] s[i], #[trigger] s[j])
}

/// Whether `order` lists every index below `n` exactly once.
pub open spec fn is_permutation(order: Seq<usize>, n: nat) -> bool {
    &&& order.len() == n
    &&& order.no_duplicates()
    &&& forall|k: int| 0 <= k < n ==> #[trigger] order[k] < n
}

/// The elements of `keys` in the order that `order` lists them.
pub open spec fn picked<T>(keys: Seq<T>, order: Seq<usize>) -> Seq<T> {
    Seq::new(order.len(), |k: int| keys[order[k] as int])
}

pub proof fn lemma_lex_reflexive(a: Seq<u8>)
    ensures
        lex_le(a, a),
    decreases a.len(),
{
    if a.len() > 0 {
        lemma_lex_reflexive(a.drop_first());
    }
}

pub proof fn lemma_lex_antisymmetric(a: Seq<u8>, b: Seq<u8>)
    requires
        lex_le(a, b),
        lex_le(b, a),
    ensures
        a == b,
    decreases a.len(),
{
    if a.len() > 0 && b.len() > 0 {
        lemma_lex_antisymmetric(a.drop_first(), b.drop_first());
        assert(a =~= seq![a[0]] + a.drop_first());
        assert(b =~= seq![b[0]] + b.drop_first());
    } else {
        assert(a =~= b);
    }
}

pub proof fn lemma_lex_transitive(a: Seq<u8>, b: Seq<u8>, c: Seq<u8>)
    requires
        lex_le(a, b),
        lex_le(b, c),
    ensures
        lex_le(a, c),
    decreases a.len(),
{
    if a.len() > 0 && b.len() > 0 && c.len() > 0 && a[0] == b[0] && b[0] == c[0] {
        lemma_lex_transitive(a.drop_first(), b.drop_first(), c.drop_first());
    }
}

pub proof fn lemma_lex_total(a: Seq<u8>, b: Seq<u8>)
    ensures
        lex_le(a, b) || lex_le(b, a),
    decreases a.len(),
{
    if a.len() > 0 && b.len() > 0 && a[0] == b[0] {
        lemma_lex_total(a.drop_first(), b.drop_first());
    }
}

/// A proper prefix comes strictly before what it is a prefix of.
pub proof fn lemma_prefix_before(a: Seq<u8>, b: Seq<u8>)
    requires
        a.len() < b.len(),
        b.take(a.len() as int) == a,
    ensures
        lex_lt(a, b),
    decreases a.len(),
{
    if a.len() > 0 {
        assert(a[0] == b.take(a.len() as int)[0]);
        assert(b.drop_first().take(a.len() - 1) =~= b.take(a.len() as int).drop_first());
        lemma_prefix_before(a.drop_first(), b.drop_first());
    }
}

/// Whether `a` comes no later than `b`.
pub fn lex_before(a: &[u8], b: &[u8]) -> (r: bool)
    ensures
        r == lex_le(a@, b@),
{
    let mut i: usize = 0;
    assert(a@.skip(0) =~= a@);
    assert(b@.skip(0) =~= b@);
    while i < a.len() && i < b.len() && a[i] == b[i]
        invariant
            i <= a@.len(),
            i <= b@.len(),
            lex_le(a@, b@) == lex_le(a@.skip(i as int), b@.skip(i as int)),
        decreases a@.len() - i,
    {
        assert(a@.skip(i as int).drop_first() =~= a@.skip(i + 1));
        assert(b@.skip(i as int).drop_first() =~= b@.skip(i + 1));
        i += 1;
    }
    if i >= a.len() {
        true
    } else if i >= b.len() {
        false
    } else {
        assert(a@.skip(i as int)[0] == a@[i as int]);
        assert(b@.skip(i as int)[0] == b@[i as int]);
        a[i] < b[i]
    }
}

/// Whether `order` picks its keys in non-decreasing order.
pub open spec fn picks_sorted(keys: Seq<Vec<u8>>, order: Seq<usize>) -> bool {
    forall|i: int, j: int|
        0 <= i <= j < order.len() ==> lex_le(
            keys[#[trigger] order[i] as int]@,
            keys[#[trigger] order[j] as int]@,
        )
}

/// Whether every index in `order` is one of `keys`.
spec fn in_range(order: Seq<usize>, keys: Seq<Vec<u8>>) -> bool {
    forall|k: int| 0 <= k < order.len() ==> #[trigger] order[k] < keys.len()
}

/// Whether every key that `order` picks comes no later than `key`.
spec fn all_before(keys: Seq<Vec<u8>>, order: Seq<usize>, key: Seq<u8>) -> bool {
    forall|k: int| 0 <= k < order.len() ==> lex_le(keys[#[trigger] order[k] as int]@, key)
}

/// The indices of two ordered lists in one ordered list.
fn merge(keys: &Vec<Vec<u8>>, left: &Vec<usize>, right: &Vec<usize>) -> (out: Vec<usize>)
    requires
        in_range(left@, keys@),
        in_range(right@, keys@),
        picks_sorted(keys@, left@),
        picks_sorted(keys@, right@),
    ensures
        picks_sorted(keys@, out@),
        in_range(out@, keys@),
        out@.to_multiset() == (left@ + right@).to_multiset(),
{
    broadcast use vstd::seq_lib::group_to_multiset_ensures;

    let mut out: Vec<usize> = Vec::new();
    let mut i: usize = 0;
    let mut j: usize = 0;
    proof {
        assert(left@.take(0) + right@.take(0) =~= out@);
    }
    while i < left.len() || j < right.len()
        invariant
            i <= left@.len(),
            j <= right@.len(),
            in_range(left@, keys@),
            in_range(right@, keys@),
            picks_sorted(keys@, left@),
            picks_sorted(keys@, right@),
            picks_sorted(keys@, out@),
            in_range(out@, keys@),
            i < left@.len() ==> all_before(keys@, out@, keys@[left@[i as int] as int]@),
            j < right@.len() ==> all_before(keys@, out@, keys@[right@[j as int] as int]@),
            out@.to_multiset() == (left@.take(i as int) + right@.take(j as int)).to_multiset(),
        decreases (left@.len() - i) + (right@.len() - j),
    {
        let from_left = if i >= left.len() {
            false
        } else if j >= right.len() {
            true
        } else {
            lex_before(keys[left[i]].as_slice(), keys[right[j]].as_slice())
        };
        let ghost before = out@;
        let ghost source = if from_left { left@ } else { right@ };
        let ghost at: int = if from_left { i as int } else { j as int };
        let ghost key = keys@[source[at] as int]@;
        proof {
            if i < left.len() && j < right.len() {
                lemma_lex_total(keys@[left@[i as int] as int]@, keys@[right@[j as int] as int]@);
            }
            lemma_lex_reflexive(key);
            lemma_push_multiset(left@.take(i as int), right@.take(j as int), source[at]);
        }
        if from_left {
            out.push(left[i]);
            assert(left@.take(i + 1) =~= left@.take(i as int).push(left@[i as int]));
            i += 1;
        } else {
            out.push(right[j]);
            assert(right@.take(j + 1) =~= right@.take(j as int).push(right@[j as int]));
            j += 1;
        }
        proof {
            broadcast use vstd::seq_lib::group_to_multiset_ensures;

            assert(out@ == before.push(source[at]));
            assert(out@.to_multiset() =~= before.to_multiset().insert(source[at]));
            if at + 1 < source.len() {
                let next = keys@[source[at + 1] as int]@;
                assert forall|k: int| 0 <= k < out@.len() implies lex_le(
                    keys@[#[trigger] out@[k] as int]@,
                    next,
                ) by {
                    if k < before.len() {
                        lemma_lex_transitive(keys@[before[k] as int]@, key, next);
                    }
                }
            }
        }
    }
    proof {
        assert(left@.take(left@.len() as int) =~= left@);
        assert(right@.take(right@.len() as int) =~= right@);
    }
    out
}

/// Pushing an element onto either half of a concatenation adds it once.
proof fn lemma_push_multiset(a: Seq<usize>, b: Seq<usize>, x: usize)
    ensures
        (a.push(x) + b).to_multiset() == (a + b).to_multiset().insert(x),
        (a + b.push(x)).to_multiset() == (a + b).to_multiset().insert(x),
{
    broadcast use vstd::seq_lib::group_to_multiset_ensures;

    vstd::seq_lib::lemma_multiset_commutative(a.push(x), b);
    vstd::seq_lib::lemma_multiset_commutative(a, b);
    vstd::seq_lib::lemma_multiset_commutative(a, b.push(x));
    assert(a.to_multiset().insert(x).add(b.to_multiset()) =~= a.to_multiset().add(
        b.to_multiset(),
    ).insert(x));
    assert(a.to_multiset().add(b.to_multiset().insert(x)) =~= a.to_multiset().add(
        b.to_multiset(),
    ).insert(x));
}

/// The indices from `lo` up to `hi`.
pub open spec fn indices(lo: int, hi: int) -> Seq<usize> {
    Seq::new((hi - lo) as nat, |k: int| (lo + k) as usize)
}

/// The indices `lo..hi` in the order of their keys.
fn sort_range(keys: &Vec<Vec<u8>>, lo: usize, hi: usize) -> (out: Vec<usize>)
    requires
        lo <= hi <= keys@.len(),
    ensures
        picks_sorted(keys@, out@),
        in_range(out@, keys@),
        out@.to_multiset() == indices(lo as int, hi as int).to_multiset(),
    decreases hi - lo,
{
    if hi - lo <= 1 {
        let mut out: Vec<usize> = Vec::new();
        if lo < hi {
            out.push(lo);
            proof {
                lemma_lex_reflexive(keys@[lo as int]@);
            }
        }
        assert(out@ =~= indices(lo as int, hi as int));
        return out;
    }
    let mid: usize = lo + (hi - lo) / 2;
    let left = sort_range(keys, lo, mid);
    let right = sort_range(keys, mid, hi);
    proof {
        vstd::seq_lib::lemma_multiset_commutative(left@, right@);
        vstd::seq_lib::lemma_multiset_commutative(
            indices(lo as int, mid as int),
            indices(mid as int, hi as int),
        );
        assert(indices(lo as int, hi as int) =~= indices(lo as int, mid as int) + indices(
            mid as int,
            hi as int,
        ));
    }
    merge(keys, &left, &right)
}

/// The order in which the keys have to be taken to be sorted: a permutation
/// of their indices.
pub fn sorted_order(keys: &Vec<Vec<u8>>) -> (order: Vec<usize>)
    ensures
        is_permutation(order@, keys@.len()),
        picks_sorted(keys@, order@),
{
    broadcast use vstd::seq_lib::group_to_multiset_ensures;

    let order = sort_range(keys, 0, keys.len());
    proof {
        let all = indices(0, keys@.len() as int);
        assert(all.no_duplicates());
        all.lemma_multiset_has_no_duplicates();
        assert forall|x: usize| order@.to_multiset().contains(x) implies
            order@.to_multiset().count(x) == 1 by {}
        order@.lemma_multiset_has_no_duplicates_conv();
        assert(order@.len() == order@.to_multiset().len());
        assert(all.len() == all.to_multiset().len());
    }
    order
}

/// A permutation reaches every index.
pub proof fn lemma_permutation_surjective(order: Seq<usize>, n: nat, i: int)
    requires
        is_permutation(order, n),
        0 <= i < n,
    ensures
        exists|k: int| 0 <= k < n && #[trigger] order[k] == i,
{
    let s = order.to_set();
    order.unique_seq_to_set();
    let full = vstd::set_lib::set_int_range(0, n as int);
    vstd::set_lib::lemma_int_range(0, n as int);
    let ints = s.map(|u: usize| u as int);
    assert(ints.finite() && ints.len() == s.len()) by {
        s.lemma_map_finite(|u: usize| u as int);
        vstd::set_lib::lemma_map_size(s, ints, |u: usize| u as int);
    }
    assert(ints.subset_of(full)) by {
        assert forall|x: int| ints.contains(x) implies full.contains(x) by {
            let u = choose|u: usize| s.contains(u) && u as int == x;
            let k = choose|k: int| 0 <= k < order.len() && order[k] == u;
            assert(order[k] < n);
        }
    }
    vstd::set_lib::lemma_len_subset(ints, full);
    vstd::set_lib::lemma_subset_equality(ints, full);
    assert(ints.contains(i));
    let u = choose|u: usize| s.contains(u) && u as int == i;
    let k = choose|k: int| 0 <= k < order.len() && order[k] == u;
    assert(order[k] == i);
}

/// Whether a list is in strictly increasing order.
pub open spec fn strictly_sorted(s: Seq<Seq<u8>>) -> bool {
    forall|i: int, j: int| 0 <= i < j < s.len() ==> lex_lt(#[trigger] s[i], #[trigger] s[j])
}

/// Where `key` stands in a strictly increasing list.
pub fn search_sorted(keys: &Vec<Vec<u8>>, key: &[u8]) -> (r: Option<usize>)
    requires
        strictly_sorted(crate::bytes::views(keys@)),
    ensures
        match r {
            Some(i) => i < keys@.len() && keys@[i as int]@ == key@,
            None => forall|i: int| 0 <= i < keys@.len() ==> #[trigger] keys@[i]@ != key@,
        },
{
    let ghost all = crate::bytes::views(keys@);
    let mut lo: usize = 0;
    let mut hi: usize = keys.len();
    while lo < hi
        invariant
            all == crate::bytes::views(keys@),
            strictly_sorted(all),
            lo <= hi <= keys@.len(),
            forall|i: int| 0 <= i < lo ==> lex_le(#[trigger] keys@[i]@, key@) && keys@[i]@ != key@,
            forall|i: int|
                hi <= i < keys@.len() ==> lex_le(key@, #[trigger] keys@[i]@) && keys@[i]@ != key@,
        decreases hi - lo,
    {
        let mid: usize = lo + (hi - lo) / 2;
        let probe = keys[mid].as_slice();
        assert(all[mid as int] == keys@[mid as int]@);
        if crate::bytes::bytes_eq(probe, key) {
            return Some(mid);
        }
        if lex_before(probe, key) {
            proof {
                assert forall|i: int| 0 <= i < mid + 1 implies lex_le(
                    #[trigger] keys@[i]@,
                    key@,
                ) && keys@[i]@ != key@ by {
                    if lo <= i < mid {
                        assert(all[i] == keys@[i]@);
                        assert(lex_lt(all[i], all[mid as int]));
                        lemma_lex_transitive(keys@[i]@, probe@, key@);
                        if keys@[i]@ == key@ {
                            lemma_lex_antisymmetric(probe@, key@);
                        }
                    }
                }
            }
            lo = mid + 1;
        } else {
            proof {
                lemma_lex_total(probe@, key@);
                assert forall|i: int| mid <= i < keys@.len() implies lex_le(
                    key@,
                    #[trigger] keys@[i]@,
                ) && keys@[i]@ != key@ by {
                    if mid < i < hi {
                        assert(all[i] == keys@[i]@);
                        assert(lex_lt(all[mid as int], all[i]));
                        lemma_lex_transitive(key@, probe@, keys@[i]@);
                        if keys@[i]@ == key@ {
                            lemma_lex_antisymmetric(probe@, key@);
                        }
                    }
                }
            }
            hi = mid;
        }
    }
    None
}

/// Picking by two lists of the same indices picks the same elements.
proof fn lemma_picked_multiset(keys: Seq<Seq<u8>>, a: Seq<usize>, b: Seq<usize>)
    requires
        a.to_multiset() == b.to_multiset(),
    ensures
        picked(keys, a).to_multiset() == picked(keys, b).to_multiset(),
    decreases a.len(),
{
    broadcast use vstd::seq_lib::group_to_multiset_ensures;

    assert(a.len() == a.to_multiset().len());
    assert(b.len() == b.to_multiset().len());
    if a.len() > 0 {
        let x = a.last();
        assert(a[a.len() - 1] == x);
        assert(a.contains(x));
        assert(b.to_multiset().contains(x));
        let j = choose|j: int| 0 <= j < b.len() && b[j] == x;
        let a2 = a.drop_last();
        let b2 = b.remove(j);
        assert(a2 =~= a.remove(a.len() - 1));
        assert(a2.to_multiset() =~= b2.to_multiset());
        lemma_picked_multiset(keys, a2, b2);
        let pa = picked(keys, a);
        let pb = picked(keys, b);
        assert(picked(keys, a2) =~= pa.remove(a.len() - 1));
        assert(picked(keys, b2) =~= pb.remove(j));
        let v = keys[x as int];
        assert(pa[a.len() - 1] == v && pb[j] == v);
        assert(pa =~= pa.remove(a.len() - 1).push(v));
        assert(pa.to_multiset() =~= pa.remove(a.len() - 1).to_multiset().insert(v));
        assert(pb =~= pb.remove(j).insert(j, v));
        assert(pb.to_multiset() =~= pb.remove(j).to_multiset().insert(v));
    } else {
        assert(picked(keys, a) =~= picked(keys, b));
    }
}

/// A list of byte strings in order.
pub fn sort_paths(paths: &Vec<Vec<u8>>) -> (r: Vec<Vec<u8>>)
    ensures
        is_sorted(crate::bytes::views(r@)),
        crate::bytes::views(r@).to_multiset() == crate::bytes::views(paths@).to_multiset(),
        r@.len() == paths@.len(),
{
    let order = sort_range(paths, 0, paths.len());
    let ghost keys = crate::bytes::views(paths@);
    let mut out: Vec<Vec<u8>> = Vec::new();
    let mut i: usize = 0;
    while i < order.len()
        invariant
            i <= order@.len(),
            in_range(order@, paths@),
            out@.len() == i,
            forall|k: int| 0 <= k < i ==> (#[trigger] out@[k])@ == paths@[order@[k] as int]@,
        decreases order@.len() - i,
    {
        out.push(vstd::slice::slice_to_vec(paths[order[i]].as_slice()));
        i += 1;
    }
    proof {
        broadcast use vstd::seq_lib::group_to_multiset_ensures;

        let all = indices(0, paths@.len() as int);
        lemma_picked_multiset(keys, order@, all);
        assert(picked(keys, all) =~= keys);
        assert(crate::bytes::views(out@) =~= picked(keys, order@));
        assert(order@.len() == order@.to_multiset().len());
        assert(all.len() == all.to_multiset().len());
        let v = crate::bytes::views(out@);
        assert forall|i: int, j: int| 0 <= i <= j < v.len() implies lex_le(
            #[trigger] v[i],
            #[trigger] v[j],
        ) by {
            assert(lex_le(paths@[order@[i] as int]@, paths@[order@[j] as int]@));
        }
    }
    out
}

/// A list has one sorted arrangement.
pub proof fn lemma_sorted_unique(a: Seq<Seq<u8>>, b: Seq<Seq<u8>>)
    requires
        is_sorted(a),
        is_sorted(b),
        a.to_multiset() == b.to_multiset(),
    ensures
        a == b,
{
    let leq = |x: Seq<u8>, y: Seq<u8>| lex_le(x, y);
    assert(vstd::relations::total_ordering(leq)) by {
        assert forall|x: Seq<u8>| #[trigger] leq(x, x) by {
            lemma_lex_reflexive(x);
        }
        assert forall|x: Seq<u8>, y: Seq<u8>|
            #[trigger] leq(x, y) && #[trigger] leq(y, x) implies x == y by {
            lemma_lex_antisymmetric(x, y);
        }
        assert forall|x: Seq<u8>, y: Seq<u8>, z: Seq<u8>|
            #[trigger] leq(x, y) && #[trigger] leq(y, z) implies leq(
            x,
            z,
        ) by {
            lemma_lex_transitive(x, y, z);
        }
        assert forall|x: Seq<u8>, y: Seq<u8>| #[trigger] leq(x, y) || #[trigger] leq(y, x) by {
            lemma_lex_total(x, y);
        }
    }
    assert(vstd::relations::sorted_by(a, leq));
    assert(vstd::relations::sorted_by(b, leq));
    vstd::seq_lib::lemma_sorted_unique(a, b, leq);
}

/// The order of byte strings goes by the first byte in which they differ, the
/// smaller first; and what another one goes on from comes before it.
pub proof fn law_first_difference_decides(
    common: Seq<u8>,
    x: u8,
    y: u8,
    a: Seq<u8>,
    b: Seq<u8>,
)
    requires
        x < y,
    ensures
        lex_le(common.push(x) + a, common.push(y) + b),
        !lex_le(common.push(y) + b, common.push(x) + a),
        lex_le(common, common.push(x) + a),
        !lex_le(common.push(x) + a, common),
        is_sorted(seq![common, common.push(x) + a, common.push(y) + b]),
    decreases common.len(),
{
    lemma_first_difference(common, x, y, a, b);
    let one = common.push(x) + a;
    let other = common.push(y) + b;
    lemma_lex_reflexive(common);
    lemma_lex_reflexive(one);
    lemma_lex_reflexive(other);
    lemma_lex_transitive(common, one, other);
    let s = seq![common, one, other];
    assert forall|i: int, j: int| 0 <= i <= j < s.len() implies lex_le(#[trigger] s[i], #[trigger] s[j]) by {}
}

proof fn lemma_first_difference(common: Seq<u8>, x: u8, y: u8, a: Seq<u8>, b: Seq<u8>)
    requires
        x < y,
    ensures
        lex_le(common.push(x) + a, common.push(y) + b),
        !lex_le(common.push(y) + b, common.push(x) + a),
        lex_le(common, common.push(x) + a),
        !lex_le(common.push(x) + a, common),
    decreases common.len(),
{
    let one = common.push(x) + a;
    let other = common.push(y) + b;
    if common.len() > 0 {
        let rest = common.drop_first();
        lemma_first_difference(rest, x, y, a, b);
        assert(one.drop_first() =~= rest.push(x) + a);
        assert(other.drop_first() =~= rest.push(y) + b);
        assert(one[0] == common[0] && other[0] == common[0]);
    }
}

} // verus!
