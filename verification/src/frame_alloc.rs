//! The physical-frame allocator: hands out page numbers from a contiguous
//! range, reusing recycled frames stack-fashion before breaking new ground.

use vstd::prelude::*;
use crate::addr::PhysPageNum;

verus! {

/// Allocates physical page numbers from `[current, end)`, preferring the
/// most recently recycled frame.
pub struct StackFrameAllocator {
    pub current: usize,
    pub end: usize,
    pub recycled: Vec<usize>,
}

impl StackFrameAllocator {
    /// A frame was handed out and not yet returned: it lies below the
    /// high-water mark and is not in the recycled stack.
    pub open spec fn wf(&self) -> bool {
        &&& forall|i: int|
            0 <= i < self.recycled@.len() ==> (#[trigger] self.recycled@[i]) < self.current
        &&& forall|i: int, j: int|
            0 <= i < self.recycled@.len() && 0 <= j < self.recycled@.len() && i != j
                ==> #[trigger] self.recycled@[i] != #[trigger] self.recycled@[j]
    }

    /// An allocator with no frames yet.
    pub fn new() -> (r: Self)
        ensures
            r.wf(),
            r.current == 0,
            r.end == 0,
            r.recycled@.len() == 0,
    {
        StackFrameAllocator { current: 0, end: 0, recycled: Vec::new() }
    }

    /// Gives the allocator the frame range `[start, end)`. The recycled
    /// stack is untouched; the allocator stays well-formed when every
    /// recycled frame lies below the new start.
    pub fn init(&mut self, start: PhysPageNum, end: PhysPageNum)
        ensures
            final(self).current == start.0,
            final(self).end == end.0,
            final(self).recycled@ == old(self).recycled@,
            (old(self).wf() && forall|i: int|
                0 <= i < old(self).recycled@.len() ==> (#[trigger] old(self).recycled@[i])
                    < start.0) ==> final(self).wf(),
    {
        self.current = start.0;
        self.end = end.0;
    }

    /// Takes a frame: the most recently recycled one, or the next fresh one;
    /// nothing when the range is exhausted.
    pub fn allocate(&mut self) -> (r: Option<PhysPageNum>)
        requires
            old(self).wf(),
        ensures
            final(self).wf(),
            final(self).end == old(self).end,
            match r {
                Some(ppn) => {
                    &&& ppn.0 < final(self).current
                    &&& !final(self).recycled@.contains(ppn.0)
                    &&& if old(self).recycled@.len() > 0 {
                        final(self).recycled@ == old(self).recycled@.drop_last() && ppn.0 == old(self).recycled@.last() && final(self).current == old(self).current
                    } else {
                        final(self).current == old(self).current + 1 && ppn.0 == old(self).current
                            && final(self).recycled@ == old(self).recycled@
                    }
                },
                None => {
                    &&& final(self).current == old(self).current
                    &&& final(self).recycled@ == old(self).recycled@
                    &&& old(self).recycled@.len() == 0
                    &&& old(self).current >= old(self).end
                },
            },
    {
        if let Some(ppn) = self.recycled.pop() {
            proof {
                assert forall|i: int|
                    0 <= i < self.recycled@.len() implies #[trigger] self.recycled@[i] != ppn by {
                    assert(old(self).recycled@[i] != old(self).recycled@[old(self).recycled@.len() - 1]);
                }
            }
            return Some(PhysPageNum(ppn));
        }
        if self.current >= self.end {
            return None;
        }
        self.current += 1;
        Some(PhysPageNum(self.current - 1))
    }

    /// Returns a frame to the recycled stack. The frame must have been
    /// handed out: below the high-water mark and not already recycled.
    pub fn dealloc(&mut self, ppn: PhysPageNum)
        requires
            old(self).wf(),
            ppn.0 < old(self).current,
            !old(self).recycled@.contains(ppn.0),
        ensures
            final(self).wf(),
            final(self).current == old(self).current,
            final(self).end == old(self).end,
            final(self).recycled@ == old(self).recycled@.push(ppn.0),
    {
        proof {
            assert forall|i: int|
                0 <= i < self.recycled@.len() implies #[trigger] self.recycled@[i] != ppn.0 by {
                if self.recycled@[i] == ppn.0 {
                    assert(self.recycled@.contains(ppn.0));
                }
            }
        }
        self.recycled.push(ppn.0);
    }
}

/// A handed-out frame, remembered by its page number. The holder returns it
/// to the allocator with `frame_dealloc` when done.
pub struct FrameTracker {
    pub ppn: PhysPageNum,
}

impl FrameTracker {
    pub fn new(ppn: PhysPageNum) -> (r: Self)
        ensures
            r.ppn == ppn,
    {
        FrameTracker { ppn }
    }
}

/// Points the frame allocator at the frame range `[start, end)`.
pub fn init_frame_allocator(
    allocator: &mut StackFrameAllocator,
    start: PhysPageNum,
    end: PhysPageNum,
)
    ensures
        final(allocator).current == start.0,
        final(allocator).end == end.0,
        final(allocator).recycled@ == old(allocator).recycled@,
        (old(allocator).wf() && forall|i: int|
            0 <= i < old(allocator).recycled@.len() ==> (#[trigger] old(allocator).recycled@[i])
                < start.0) ==> final(allocator).wf(),
{
    allocator.init(start, end);
}

/// Takes a frame from the allocator, wrapped in a tracker.
pub fn frame_alloc(allocator: &mut StackFrameAllocator) -> (r: Option<FrameTracker>)
    requires
        old(allocator).wf(),
    ensures
        final(allocator).wf(),
        r is Some ==> r.unwrap().ppn.0 < final(allocator).current && !final(allocator).recycled@.contains(r.unwrap().ppn.0),
        r is None ==> final(allocator).current == old(allocator).current && final(allocator).recycled@ == old(allocator).recycled@ && old(allocator).recycled@.len() == 0 && old(allocator).current >= old(allocator).end,
{
    match allocator.allocate() {
        Some(ppn) => Some(FrameTracker::new(ppn)),
        None => None,
    }
}

/// Returns a frame to the allocator.
pub fn frame_dealloc(allocator: &mut StackFrameAllocator, ppn: PhysPageNum)
    requires
        old(allocator).wf(),
        ppn.0 < old(allocator).current,
        !old(allocator).recycled@.contains(ppn.0),
    ensures
        final(allocator).wf(),
        final(allocator).recycled@ == old(allocator).recycled@.push(ppn.0),
{
    allocator.dealloc(ppn);
}

} // verus!
