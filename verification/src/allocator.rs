//! A simple frame allocator over a contiguous range of free frames, with a
//! stack of returned frames that are handed out again first.

use vstd::prelude::*;
use crate::frame::{Frame, FrameAllocator, MAX_FRAME_INDEX};

verus! {

/// Hands out frames from `next` up to (excluding) `end`, preferring frames
/// that were returned to it.
pub struct RangeFrameAllocator {
    pub next: u64,
    pub end: u64,
    pub recycled: Vec<u64>,
}

impl RangeFrameAllocator {
    /// An allocator over the frames `start` up to (excluding) `end`.
    pub fn new(start: u64, end: u64) -> (r: RangeFrameAllocator)
        requires
            start <= end,
            end <= MAX_FRAME_INDEX,
        ensures
            r.inv(),
            r.frames() == Set::new(|i: int| start <= i < end),
    {
        let r = RangeFrameAllocator { next: start, end, recycled: Vec::new() };
        proof {
            assert(r.frames() =~= Set::new(|i: int| start <= i < end));
        }
        r
    }
}

impl FrameAllocator for RangeFrameAllocator {
    open spec fn frames(&self) -> Set<int> {
        Set::new(
            |i: int|
                (self.next <= i < self.end) || (exists|k: int|
                    0 <= k < self.recycled@.len() && self.recycled@[k] == i),
        )
    }

    open spec fn inv(&self) -> bool {
        &&& self.next <= self.end
        &&& self.end <= MAX_FRAME_INDEX
        &&& (forall|k: int|
            0 <= k < self.recycled@.len() ==> !(self.next <= #[trigger] self.recycled@[k]
                < self.end) && self.recycled@[k] <= MAX_FRAME_INDEX)
        &&& (forall|k: int, k2: int|
            0 <= k < k2 < self.recycled@.len() ==> self.recycled@[k] != self.recycled@[k2])
    }

    open spec fn accepts(&self, index: int) -> bool {
        true
    }

    fn alloc_frame(&mut self) -> (r: Option<Frame>) {
        match self.recycled.pop() {
            Some(i) => {
                proof {
                    let n = old(self).recycled@.len() - 1;
                    assert(old(self).recycled@[n] == i);
                    assert(self.frames() =~= old(self).frames().remove(i as int)) by {
                        assert forall|x: int| self.frames().contains(x) implies old(
                            self,
                        ).frames().remove(i as int).contains(x) by {
                            if !(self.next <= x < self.end) {
                                let k = choose|k: int|
                                    0 <= k < self.recycled@.len() && self.recycled@[k] == x;
                                assert(old(self).recycled@[k] == x);
                                assert(old(self).recycled@[k] != old(self).recycled@[n]);
                            }
                        }
                        assert forall|x: int|
                            old(self).frames().remove(i as int).contains(x) implies self.frames().contains(x) by {
                            if !(self.next <= x < self.end) {
                                let k = choose|k: int|
                                    0 <= k < old(self).recycled@.len() && old(self).recycled@[k]
                                        == x;
                                assert(k != n);
                                assert(self.recycled@[k] == x);
                            }
                        }
                    }
                }
                Some(Frame { index: i })
            },
            None => {
                if self.next < self.end {
                    let i = self.next;
                    self.next = self.next + 1;
                    proof {
                        assert(self.frames() =~= old(self).frames().remove(i as int));
                    }
                    Some(Frame { index: i })
                } else {
                    proof {
                        assert(old(self).frames() =~= Set::<int>::empty());
                    }
                    None
                }
            },
        }
    }

    fn dealloc_frame(&mut self, frame: Frame) {
        proof {
            assert(!(self.next <= frame.index < self.end));
        }
        self.recycled.push(frame.index);
        proof {
            let n = self.recycled@.len() - 1;
            assert(self.recycled@[n] == frame.index);
            assert(self.frames() =~= old(self).frames().insert(frame.index as int)) by {
                assert forall|x: int|
                    self.frames().contains(x) implies old(self).frames().insert(
                    frame.index as int,
                ).contains(x) by {
                    if !(self.next <= x < self.end) {
                        let k = choose|k: int|
                            0 <= k < self.recycled@.len() && self.recycled@[k] == x;
                        if k < n {
                            assert(old(self).recycled@[k] == x);
                        }
                    }
                }
                assert forall|x: int|
                    old(self).frames().insert(frame.index as int).contains(x) implies self.frames().contains(x) by {
                    if x == frame.index as int {
                        assert(self.recycled@[n] == x);
                    } else if !(self.next <= x < self.end) {
                        let k = choose|k: int|
                            0 <= k < old(self).recycled@.len() && old(self).recycled@[k] == x;
                        assert(self.recycled@[k] == x);
                    }
                }
            }
        }
    }
}

} // verus!
