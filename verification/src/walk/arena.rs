//! Byte arena holding the repository paths one walk produced.
//!
//! Every path lives in one growable buffer behind a pair of offsets. Handles
//! are offsets rather than borrowed slices because each worker fills its own
//! arena and the root's arena is their concatenation: merging shifts the
//! incoming handles by the current byte length.

use vstd::prelude::*;
use vstd::slice::slice_subrange;

use crate::bytes::push_all;

verus! {

/// Where one path lies in the buffer.
#[derive(Clone, Copy, Debug)]
pub struct Span {
    pub start: u32,
    pub end: u32,
}

/// Concatenated repository paths plus one handle per path.
#[derive(Debug)]
pub struct Arena {
    bytes: Vec<u8>,
    repos: Vec<Span>,
}

impl View for Arena {
    type V = Seq<Seq<u8>>;

    /// The paths held, in push order.
    closed spec fn view(&self) -> Seq<Seq<u8>> {
        Seq::new(
            self.repos@.len(),
            |i: int| self.bytes@.subrange(self.repos@[i].start as int, self.repos@[i].end as int),
        )
    }
}

impl Default for Arena {
    fn default() -> (r: Self)
        ensures
            r.wf(),
            r@ == Seq::<Seq<u8>>::empty(),
            r.size() == 0,
    {
        let r = Arena { bytes: Vec::new(), repos: Vec::new() };
        assert(r@ =~= Seq::<Seq<u8>>::empty());
        r
    }
}

impl Arena {
    /// Whether every handle lies inside the buffer.
    pub closed spec fn wf(&self) -> bool {
        forall|i: int|
            0 <= i < self.repos@.len() ==> (#[trigger] self.repos@[i]).start <= self.repos@[i].end
                <= self.bytes@.len()
    }

    /// How many bytes of path are held. Handles have 32 bits, so this is what
    /// bounds an arena.
    pub closed spec fn size(&self) -> nat {
        self.bytes@.len()
    }

    /// Appends one repository path.
    pub fn push(&mut self, path: &[u8])
        requires
            old(self).wf(),
            old(self).size() + path@.len() <= u32::MAX,
        ensures
            final(self).wf(),
            final(self)@ == old(self)@.push(path@),
            final(self).size() == old(self).size() + path@.len(),
    {
        let start = self.bytes.len() as u32;
        push_all(&mut self.bytes, path);
        let end = self.bytes.len() as u32;
        self.repos.push(Span { start, end });
        proof {
            assert(self.bytes@.subrange(start as int, end as int) =~= path@);
            assert forall|i: int| 0 <= i < old(self)@.len() implies #[trigger] self@[i]
                == old(self)@[i] by {
                let span = old(self).repos@[i];
                assert(self.repos@[i] == span);
                assert(self.bytes@.subrange(span.start as int, span.end as int)
                    =~= old(self).bytes@.subrange(span.start as int, span.end as int));
            }
            assert(self@ =~= old(self)@.push(path@));
        }
    }

    /// Number of repository paths held.
    pub fn len(&self) -> (r: usize)
        ensures
            r == self@.len(),
    {
        self.repos.len()
    }

    /// Whether the walk found no repository at all.
    pub fn is_empty(&self) -> (r: bool)
        ensures
            r == (self@.len() == 0),
    {
        self.repos.len() == 0
    }

    /// The path behind the handle number `i`.
    pub fn get(&self, i: usize) -> (r: &[u8])
        requires
            self.wf(),
            i < self@.len(),
        ensures
            r@ == self@[i as int],
    {
        let span = self.repos[i];
        slice_subrange(self.bytes.as_slice(), span.start as usize, span.end as usize)
    }

    /// Every repository path, in walk order.
    pub fn iter(&self) -> (r: Vec<&[u8]>)
        requires
            self.wf(),
        ensures
            r@.len() == self@.len(),
            forall|i: int| 0 <= i < r@.len() ==> (#[trigger] r@[i])@ == self@[i],
    {
        let mut out: Vec<&[u8]> = Vec::new();
        let mut i: usize = 0;
        while i < self.repos.len()
            invariant
                self.wf(),
                i <= self.repos@.len(),
                self@.len() == self.repos@.len(),
                out@.len() == i,
                forall|j: int| 0 <= j < i ==> (#[trigger] out@[j])@ == self@[j],
            decreases self.repos@.len() - i,
        {
            out.push(self.get(i));
            i += 1;
        }
        out
    }

    /// Appends every path of `other`, in order.
    pub fn merge(&mut self, other: &Arena)
        requires
            old(self).wf(),
            other.wf(),
            old(self).size() + other.size() <= u32::MAX,
        ensures
            final(self).wf(),
            final(self)@ == old(self)@ + other@,
            final(self).size() == old(self).size() + other.size(),
    {
        let shift: u32 = self.bytes.len() as u32;
        push_all(&mut self.bytes, other.bytes.as_slice());
        let mut i: usize = 0;
        while i < other.repos.len()
            invariant
                i <= other.repos@.len(),
                other.wf(),
                shift == old(self).bytes@.len(),
                self.bytes@ == old(self).bytes@ + other.bytes@,
                self.bytes@.len() <= u32::MAX,
                self.repos@.len() == old(self).repos@.len() + i,
                forall|j: int|
                    0 <= j < old(self).repos@.len() ==> #[trigger] self.repos@[j] == old(
                        self,
                    ).repos@[j],
                forall|j: int|
                    0 <= j < i ==> (#[trigger] self.repos@[old(self).repos@.len() + j]).start
                        == other.repos@[j].start + shift && self.repos@[old(self).repos@.len()
                        + j].end == other.repos@[j].end + shift,
            decreases other.repos@.len() - i,
        {
            let span = other.repos[i];
            self.repos.push(Span { start: span.start + shift, end: span.end + shift });
            i += 1;
        }
        proof {
            let n = old(self).repos@.len() as int;
            assert forall|j: int| 0 <= j < self@.len() implies #[trigger] self@[j] == (old(self)@
                + other@)[j] by {
                if j < n {
                    let span = old(self).repos@[j];
                    assert(self.repos@[j] == span);
                    assert(self.bytes@.subrange(span.start as int, span.end as int)
                        =~= old(self).bytes@.subrange(span.start as int, span.end as int));
                } else {
                    let span = other.repos@[j - n];
                    assert(self.repos@[n + (j - n)].start == span.start + shift);
                    assert(self.bytes@.subrange(
                        self.repos@[j].start as int,
                        self.repos@[j].end as int,
                    ) =~= other.bytes@.subrange(span.start as int, span.end as int));
                }
            }
            assert forall|j: int| 0 <= j < self.repos@.len() implies (#[trigger] self.repos@[j]).start
                <= self.repos@[j].end <= self.bytes@.len() by {
                if j >= n {
                    assert(self.repos@[n + (j - n)].start == other.repos@[j - n].start + shift);
                } else {
                    assert(self.repos@[j] == old(self).repos@[j]);
                }
            }
            assert(self@ =~= old(self)@ + other@);
        }
    }
}

} // verus!
