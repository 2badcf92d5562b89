//! Printing the roots.

use vstd::prelude::*;

use crate::bytes::views;
use crate::cli::RootArgs;
use crate::text::{lossy_text, shown_path};

verus! {

/// Paths, each on a line of its own.
pub open spec fn path_lines(paths: Seq<Seq<u8>>) -> Seq<char>
    decreases paths.len(),
{
    if paths.len() == 0 {
        Seq::empty()
    } else {
        path_lines(paths.drop_last()) + shown_path(paths.last()) + "\n"@
    }
}

/// What `scap root` prints: every root, or the first alone.
pub fn run(args: &RootArgs, roots: &Vec<Vec<u8>>) -> (r: String)
    ensures
        r@ == (if args.all || roots@.len() == 0 {
            path_lines(views(roots@))
        } else {
            path_lines(views(roots@).take(1))
        }),
{
    let ghost all = views(roots@);
    let count: usize = if args.all || roots.len() == 0 {
        roots.len()
    } else {
        1
    };
    let mut out = String::new();
    let mut i: usize = 0;
    assert(all.take(0) =~= Seq::empty());
    assert(out@ =~= path_lines(all.take(0)));
    while i < count
        invariant
            i <= count <= roots@.len(),
            all == views(roots@),
            out@ == path_lines(all.take(i as int)),
        decreases count - i,
    {
        proof {
            assert(all.take(i + 1).drop_last() =~= all.take(i as int));
            assert(all.take(i + 1).last() == roots@[i as int]@);
        }
        out = out.concat(lossy_text(roots[i].as_slice()).as_str()).concat("\n");
        i += 1;
    }
    assert(all.take(all.len() as int) =~= all);
    out
}

/// Each root is printed on a line of its own, in order, and nothing else.
pub proof fn law_roots_are_printed_in_order(a: Seq<Seq<u8>>, p: Seq<u8>, b: Seq<Seq<u8>>)
    ensures
        path_lines(a + seq![p] + b) == path_lines(a) + (shown_path(p) + "\n"@) + path_lines(b),
        path_lines(Seq::empty()).len() == 0,
    decreases b.len(),
{
    let one = a + seq![p];
    if b.len() == 0 {
        assert(one + b =~= one);
        assert(one.drop_last() =~= a);
        assert(path_lines(one) =~= path_lines(a) + (shown_path(p) + "\n"@) + path_lines(b));
    } else {
        law_roots_are_printed_in_order(a, p, b.drop_last());
        assert((one + b).drop_last() =~= one + b.drop_last());
        assert((one + b).last() == b.last());
        assert(path_lines(one + b) =~= path_lines(a) + (shown_path(p) + "\n"@) + path_lines(b));
    }
}

/// The first root is printed alone unless all are asked for, and stands first
/// among all.
pub proof fn law_first_root_stands_first(
    one: &RootArgs,
    every: &RootArgs,
    roots: &Vec<Vec<u8>>,
    a: String,
    b: String,
)
    requires
        !one.all,
        every.all,
        roots@.len() > 0,
        call_ensures(run, (one, roots), a),
        call_ensures(run, (every, roots), b),
    ensures
        a@ == shown_path(roots@[0]@) + "\n"@,
        b@.len() >= a@.len(),
        b@.take(a@.len() as int) == a@,
{
    let all = views(roots@);
    let none = Seq::<Seq<u8>>::empty();
    let first = all.take(1);
    law_roots_are_printed_in_order(none, all[0], none);
    assert(none + seq![all[0]] + none =~= first);
    assert(path_lines(none) + (shown_path(all[0]) + "\n"@) + path_lines(none) =~= shown_path(all[0])
        + "\n"@);
    law_roots_are_printed_in_order(none, all[0], all.skip(1));
    assert(none + seq![all[0]] + all.skip(1) =~= all);
    assert(b@.take(a@.len() as int) =~= a@);
}

} // verus!
