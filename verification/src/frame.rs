//! Physical frames and the frame-allocator capability.

use vstd::prelude::*;

verus! {

/// The physical size of each frame in bytes.
pub const PAGE_SIZE: u64 = 4096;

/// Largest frame index whose start address still fits in a machine word.
pub const MAX_FRAME_INDEX: u64 = u64::MAX / PAGE_SIZE;

/// A representation of one frame of physical memory, identified by its
/// physical page index.
///
/// `Frame` deliberately does not derive `Clone` or `Copy`: two live owners of
/// the same frame are a double-free hazard, so duplication is confined to the
/// explicit `clone` method below, which the paging internals use with care.
#[derive(PartialEq, Eq, Structural, Debug)]
pub struct Frame {
    pub index: u64,
}

impl Frame {
    /// A frame is well formed when its start address fits in a machine word.
    pub open spec fn wf(self) -> bool {
        self.index <= MAX_FRAME_INDEX
    }

    /// Retrieves the frame containing a particular physical address.
    pub fn containing_address(address: u64) -> (r: Frame)
        ensures
            r.index == (address as int) / (PAGE_SIZE as int),
            r.wf(),
    {
        proof {
            vstd::arithmetic::div_mod::lemma_div_is_ordered(
                address as int,
                u64::MAX as int,
                PAGE_SIZE as int,
            );
        }
        Frame { index: address / PAGE_SIZE }
    }

    /// The physical address at which this frame starts.
    pub fn start_address(&self) -> (r: u64)
        requires
            self.wf(),
        ensures
            r == self.index * PAGE_SIZE,
    {
        proof {
            lemma_frame_index_mul_bound(self.index as int);
        }
        self.index * PAGE_SIZE
    }

    /// Returns the frame after this one.
    pub fn next_frame(&self) -> (r: Frame)
        requires
            self.index < MAX_FRAME_INDEX,
        ensures
            r.index == self.index + 1,
            r.wf(),
    {
        Frame { index: self.index + 1 }
    }

    /// Returns an iterator over all the frames between `start` and `end`
    /// (inclusive).
    pub fn range_inclusive(start: Frame, end: Frame) -> (r: FrameIter)
        ensures
            r.start == start,
            r.end == end,
            r.remaining() == range_seq(start, end),
    {
        FrameIter { start, end }
    }

    /// Clones the frame.  Kept out of the `Clone` trait on purpose: callers
    /// outside the paging internals should never duplicate an owned frame,
    /// since both copies could then be returned to a `FrameAllocator`.
    pub fn clone(&self) -> (r: Frame)
        ensures
            r == *self,
    {
        Frame { index: self.index }
    }
}

/// The sequence of frame indices that iterating from `start` to `end`
/// inclusive yields.
pub open spec fn range_seq(start: Frame, end: Frame) -> Seq<int> {
    if start.index <= end.index {
        Seq::new((end.index - start.index + 1) as nat, |k: int| start.index + k)
    } else {
        Seq::empty()
    }
}

/// An inclusive iterator over a range of frames.
pub struct FrameIter {
    pub start: Frame,
    pub end: Frame,
}

impl FrameIter {
    /// The indices of the frames this iterator has yet to yield.
    pub open spec fn remaining(self) -> Seq<int> {
        range_seq(self.start, self.end)
    }

    /// The iterator's upper bound is well formed; the cursor may run one
    /// past it when the range is exhausted.
    pub open spec fn wf(self) -> bool {
        self.end.wf()
    }

    /// Yields the next frame of the range, in ascending order of index.
    pub fn next(&mut self) -> (r: Option<Frame>)
        requires
            old(self).wf(),
        ensures
            final(self).wf(),
            final(self).end == old(self).end,
            match r {
                Some(f) => {
                    &&& old(self).remaining().len() > 0
                    &&& f.index == old(self).remaining()[0]
                    &&& f.wf()
                    &&& final(self).remaining() == old(self).remaining().skip(1)
                },
                None => {
                    &&& old(self).remaining().len() == 0
                    &&& *final(self) == *old(self)
                },
            },
    {
        if self.start.index <= self.end.index {
            let frame = self.start.clone();
            self.start.index = self.start.index + 1;
            proof {
                assert(self.remaining() =~= old(self).remaining().skip(1));
            }
            Some(frame)
        } else {
            None
        }
    }
}

/// The frame containing an address starts at or before it, and the address
/// falls before the next frame boundary.
pub proof fn lemma_containing_address_brackets(address: u64)
    ensures
        ((address as int) / (PAGE_SIZE as int)) * (PAGE_SIZE as int) <= address as int,
        (address as int) < (((address as int) / (PAGE_SIZE as int)) * (PAGE_SIZE as int)
            + PAGE_SIZE as int),
{
    vstd::arithmetic::div_mod::lemma_fundamental_div_mod(address as int, PAGE_SIZE as int);
    vstd::arithmetic::div_mod::lemma_mod_bound(address as int, PAGE_SIZE as int);
}

/// Taking the frame that contains a frame's start address gives the frame
/// back: the two conversions are inverse.
pub proof fn lemma_frame_roundtrip(f: Frame)
    requires
        f.wf(),
    ensures
        (f.index as int * PAGE_SIZE as int) / (PAGE_SIZE as int) == f.index as int,
{
    vstd::arithmetic::div_mod::lemma_div_multiples_vanish(f.index as int, PAGE_SIZE as int);
}

/// An inclusive range over a single frame yields exactly that frame.
pub proof fn lemma_range_inclusive_single(f: Frame)
    ensures
        range_seq(f, f).len() == 1,
        range_seq(f, f)[0] == f.index,
{
}

/// An inclusive range whose end lies before its start yields nothing.
pub proof fn lemma_range_inclusive_empty(f1: Frame, f2: Frame)
    requires
        f1.index < f2.index,
    ensures
        range_seq(f2, f1).len() == 0,
{
}

/// For a well-formed frame index, the start address stays within a machine
/// word.
proof fn lemma_frame_index_mul_bound(i: int)
    requires
        0 <= i <= MAX_FRAME_INDEX,
    ensures
        i * PAGE_SIZE <= u64::MAX,
{
    vstd::arithmetic::div_mod::lemma_fundamental_div_mod(u64::MAX as int, PAGE_SIZE as int);
    vstd::arithmetic::mul::lemma_mul_inequality(i, MAX_FRAME_INDEX as int, PAGE_SIZE as int);
}

/// A pluggable source and sink of physical frames.
///
/// `frames()` is the set of frame indices the allocator is still free to hand
/// out; `accepts` says whether the allocator has room to take a frame back.
pub trait FrameAllocator {
    /// The set of frame indices the allocator may still hand out.
    spec fn frames(&self) -> Set<int>;

    /// The allocator's own invariant.
    spec fn inv(&self) -> bool;

    /// Whether the allocator can store one more returned frame.
    spec fn accepts(&self, index: int) -> bool;

    /// Hands out one free frame, or nothing when physical memory is
    /// exhausted.
    fn alloc_frame(&mut self) -> (r: Option<Frame>)
        requires
            old(self).inv(),
        ensures
            final(self).inv(),
            match r {
                Some(f) => {
                    &&& f.wf()
                    &&& old(self).frames().contains(f.index as int)
                    &&& final(self).frames() == old(self).frames().remove(f.index as int)
                    &&& (forall|i: int| old(self).accepts(i) ==> #[trigger] final(self).accepts(i))
                },
                None => {
                    &&& final(self).frames() == old(self).frames()
                    &&& (forall|i: int| final(self).accepts(i) == old(self).accepts(i))
                    &&& old(self).frames().is_empty()
                },
            };

    /// Takes back a frame that is no longer mapped anywhere.
    fn dealloc_frame(&mut self, frame: Frame)
        requires
            old(self).inv(),
            frame.wf(),
            old(self).accepts(frame.index as int),
            !old(self).frames().contains(frame.index as int),
        ensures
            final(self).inv(),
            final(self).frames() == old(self).frames().insert(frame.index as int);
}

} // verus!
