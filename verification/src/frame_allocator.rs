//! Ownership of the pool of free physical page frames above the kernel
//! image: a monotone "next free" counter plus a LIFO recycle list.

use vstd::prelude::*;
use crate::address::PhysPageNum;
use crate::config::PPN_LIMIT;

verus! {

/// Exclusive ownership handle for one physical frame. Allocation yields
/// this handle; releasing it through `dealloc` returns the frame to the
/// pool. The type is deliberately neither `Clone` nor `Copy`: no two
/// handles may reference the same frame.
#[derive(Debug)]
pub struct FrameTracker {
    /// The frame this handle owns.
    pub ppn: PhysPageNum,
}

/// Mathematical state of the frame pool, used by the contracts.
pub ghost struct FaModel {
    /// First frame the pool ever owned.
    pub start: u64,
    /// Next never-yet-allocated frame.
    pub current: u64,
    /// One past the last frame of the pool.
    pub end: u64,
    /// Freed frames awaiting reuse, most recently freed last.
    pub recycled: Seq<u64>,
}

impl FaModel {
    /// Structural invariant of the pool.
    pub open spec fn wf(self) -> bool {
        &&& self.start <= self.current <= self.end
        &&& self.end <= PPN_LIMIT
        &&& forall|i: int| 0 <= i < self.recycled.len()
            ==> self.start <= #[trigger] self.recycled[i] < self.current
        &&& forall|i: int, j: int|
            0 <= i < j < self.recycled.len() ==> self.recycled[i] != self.recycled[j]
    }

    /// Whether frame `p` is currently owned by some handle.
    pub open spec fn allocated(self, p: u64) -> bool {
        self.start <= p < self.current && !self.recycled.contains(p)
    }

    /// Number of frames still available.
    pub open spec fn free_count(self) -> int {
        self.end - self.current + self.recycled.len()
    }

    /// The allocation step as a mathematical transition: the new pool state
    /// and the frame handed out, if any.
    pub open spec fn alloc_step(self) -> (FaModel, Option<u64>) {
        if self.recycled.len() > 0 {
            (FaModel { recycled: self.recycled.drop_last(), ..self }, Some(self.recycled.last()))
        } else if self.current < self.end {
            (FaModel { current: (self.current + 1) as u64, ..self }, Some(self.current))
        } else {
            (self, None)
        }
    }

    /// The release step as a mathematical transition.
    pub open spec fn dealloc_step(self, p: u64) -> FaModel {
        FaModel { recycled: self.recycled.push(p), ..self }
    }
}

/// Stack-style physical frame allocator: frames before `current` have been
/// handed out at some point; `recycled` holds the ones given back, reused
/// LIFO before the counter advances.
pub struct StackFrameAllocator {
    /// First frame the pool ever owned.
    pub start: u64,
    /// Next never-yet-allocated frame.
    pub current: u64,
    /// One past the last frame of the pool.
    pub end: u64,
    /// Freed frames awaiting reuse, most recently freed last.
    pub recycled: Vec<u64>,
}

impl StackFrameAllocator {
    /// The pool state the contracts speak of.
    pub open spec fn model(self) -> FaModel {
        FaModel {
            start: self.start,
            current: self.current,
            end: self.end,
            recycled: self.recycled@,
        }
    }

    /// Structural invariant of the pool.
    pub open spec fn wf(self) -> bool {
        self.model().wf()
    }

    /// Whether frame `p` is currently owned by some handle.
    pub open spec fn allocated(self, p: u64) -> bool {
        self.model().allocated(p)
    }

    /// Number of frames still available.
    pub open spec fn free_count(self) -> int {
        self.model().free_count()
    }

    /// A fresh pool owning the frames `[l, r)`.
    pub fn new(l: PhysPageNum, r: PhysPageNum) -> (fa: StackFrameAllocator)
        requires
            l.0 <= r.0 <= PPN_LIMIT,
        ensures
            fa.wf(),
            fa.start == l.0,
            fa.current == l.0,
            fa.end == r.0,
            fa.recycled@ =~= Seq::<u64>::empty(),
            fa.free_count() == r.0 - l.0,
            forall|q: u64| !fa.allocated(q),
    {
        StackFrameAllocator { start: l.0, current: l.0, end: r.0, recycled: Vec::new() }
    }

    /// Hand out one frame: the most recently recycled one if any, else the
    /// next counter value. Returns `None` exactly when the pool is
    /// exhausted (the out-of-memory condition).
    pub fn alloc_frame(&mut self) -> (r: Option<FrameTracker>)
        requires
            old(self).wf(),
        ensures
            final(self).wf(),
            final(self).start == old(self).start,
            final(self).end == old(self).end,
            r is None <==> old(self).free_count() == 0,
            r is None ==> final(self).model() == old(self).model(),
            r matches Some(ft) ==> {
                &&& ft.ppn.0 == old(self).model().alloc_step().1->Some_0
                &&& final(self).model() == old(self).model().alloc_step().0
                &&& !old(self).allocated(ft.ppn.0)
                &&& final(self).allocated(ft.ppn.0)
                &&& ft.ppn.0 < old(self).end
                &&& old(self).start <= ft.ppn.0
                &&& final(self).free_count() == old(self).free_count() - 1
                &&& forall|q: u64| q != ft.ppn.0
                    ==> (final(self).allocated(q) <==> old(self).allocated(q))
            },
    {
        let popped: Option<u64> = self.recycled.pop();
        if let Some(p) = popped {
            proof {
                let old_r = old(self).recycled@;
                assert(self.recycled@ =~= old_r.drop_last());
                assert(!self.recycled@.contains(p)) by {
                    if self.recycled@.contains(p) {
                        let i = choose|i: int| 0 <= i < self.recycled@.len()
                            && self.recycled@[i] == p;
                        assert(old_r[i] == old_r[old_r.len() - 1]);
                    }
                }
                assert(self.model() == old(self).model().alloc_step().0);
                assert forall|q: u64| q != p implies
                    (self.allocated(q) <==> old(self).allocated(q)) by {
                    if old_r.contains(q) {
                        let i = choose|i: int| 0 <= i < old_r.len() && old_r[i] == q;
                        if i < old_r.len() - 1 {
                            assert(old_r.drop_last()[i] == q);
                        }
                    }
                    if old_r.drop_last().contains(q) {
                        let i = choose|i: int| 0 <= i < old_r.len() - 1
                            && old_r.drop_last()[i] == q;
                        assert(old_r[i] == q);
                    }
                }
            }
            Some(FrameTracker { ppn: PhysPageNum(p) })
        } else if self.current < self.end {
            let p = self.current;
            self.current = self.current + 1;
            Some(FrameTracker { ppn: PhysPageNum(p) })
        } else {
            None
        }
    }

    /// Whether the pool can still supply `need` frames.
    pub fn has_free(&self, need: u64) -> (r: bool)
        requires
            self.wf(),
        ensures
            r <==> self.free_count() >= need,
    {
        let gap: u64 = self.end - self.current;
        if gap >= need {
            true
        } else {
            (self.recycled.len() as u64) >= need - gap
        }
    }

    /// Take back the frame owned by `frame` and push it onto the recycle
    /// list. Releasing a frame that is not currently allocated is a kernel
    /// programming bug, excluded by the precondition rather than recovered
    /// from.
    pub fn dealloc(&mut self, frame: FrameTracker)
        requires
            old(self).wf(),
            old(self).allocated(frame.ppn.0),
        ensures
            final(self).wf(),
            final(self).model() == old(self).model().dealloc_step(frame.ppn.0),
            final(self).start == old(self).start,
            final(self).end == old(self).end,
            final(self).free_count() == old(self).free_count() + 1,
            !final(self).allocated(frame.ppn.0),
            forall|q: u64| q != frame.ppn.0
                ==> (final(self).allocated(q) <==> old(self).allocated(q)),
    {
        let FrameTracker { ppn } = frame;
        self.recycled.push(ppn.0);
        proof {
            let old_r = old(self).recycled@;
            assert(self.recycled@ =~= old_r.push(ppn.0));
            assert(self.recycled@[self.recycled@.len() - 1] == ppn.0);
            assert(self.recycled@.contains(ppn.0));
            assert forall|q: u64| q != ppn.0 implies
                (self.allocated(q) <==> old(self).allocated(q)) by {
                if old_r.contains(q) {
                    let i = choose|i: int| 0 <= i < old_r.len() && old_r[i] == q;
                    assert(self.recycled@[i] == q);
                }
                if self.recycled@.contains(q) {
                    let i = choose|i: int| 0 <= i < self.recycled@.len()
                        && self.recycled@[i] == q;
                    assert(i < old_r.len());
                    assert(old_r[i] == q);
                }
            }
        }
    }
}

/// Allocate one physical frame from the pool, yielding an owning handle,
/// or `None` when physical memory is exhausted.
pub fn frame_alloc(fa: &mut StackFrameAllocator) -> (r: Option<FrameTracker>)
    requires
        old(fa).wf(),
    ensures
        final(fa).wf(),
        final(fa).start == old(fa).start,
        final(fa).end == old(fa).end,
        r is None <==> old(fa).free_count() == 0,
        r is None ==> final(fa).model() == old(fa).model(),
        r matches Some(ft) ==> {
            &&& ft.ppn.0 == old(fa).model().alloc_step().1->Some_0
            &&& final(fa).model() == old(fa).model().alloc_step().0
            &&& !old(fa).allocated(ft.ppn.0)
            &&& final(fa).allocated(ft.ppn.0)
            &&& final(fa).free_count() == old(fa).free_count() - 1
            &&& forall|q: u64| q != ft.ppn.0
                ==> (final(fa).allocated(q) <==> old(fa).allocated(q))
        },
{
    fa.alloc_frame()
}

/// Release a frame handle back to the pool.
pub fn frame_dealloc(fa: &mut StackFrameAllocator, frame: FrameTracker)
    requires
        old(fa).wf(),
        old(fa).allocated(frame.ppn.0),
    ensures
        final(fa).wf(),
        final(fa).model() == old(fa).model().dealloc_step(frame.ppn.0),
        final(fa).free_count() == old(fa).free_count() + 1,
        forall|q: u64| q != frame.ppn.0
            ==> (final(fa).allocated(q) <==> old(fa).allocated(q)),
{
    fa.dealloc(frame)
}

/// Exhaustion law: the allocation step hands out a frame if and only if
/// the pool still has one; with none free it fails and leaves the pool
/// unchanged.
pub proof fn lemma_alloc_exhaustion(s: FaModel)
    requires
        s.wf(),
    ensures
        s.alloc_step().1 is None <==> s.free_count() == 0,
        s.free_count() == 0 ==> s.alloc_step().0 == s,
{
}

/// Reuse law: releasing a frame and allocating again hands back exactly
/// the just-released frame (the recycle list is LIFO).
pub proof fn lemma_dealloc_then_alloc(s: FaModel, p: u64)
    requires
        s.wf(),
        s.allocated(p),
    ensures
        s.dealloc_step(p).alloc_step().1 == Some(p),
        s.dealloc_step(p).alloc_step().0.allocated(p),
{
    let d = s.dealloc_step(p);
    assert(d.recycled.last() == p);
    let a = d.alloc_step().0;
    assert(a.recycled =~= s.recycled);
}

} // verus!
