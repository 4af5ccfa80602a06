//! The allocator of physical frames.
//!
//! Frames are handed out from a range of frame numbers. A frame that was
//! given back is handed out again before any frame that was never used.

use vstd::prelude::*;
use crate::mm::address::PhysPageNum;

verus! {

/// The state of a frame allocator, as mathematics.
///
/// The frames from `start` up to `current` have been handed out at least
/// once; of those, the ones in `recycled` were given back, the last of
/// them most recently. The frames from `current` up to `end` were never
/// handed out.
pub struct FrameAllocatorView {
    pub start: usize,
    pub current: usize,
    pub end: usize,
    pub recycled: Seq<usize>,
}

impl FrameAllocatorView {
    /// The bounds are in order, and the recycled frames are distinct
    /// frames that were handed out before.
    pub open spec fn wf(self) -> bool {
        &&& self.start <= self.current <= self.end
        &&& forall|i: int|
            0 <= i < self.recycled.len() ==> self.start <= #[trigger] self.recycled[i]
                < self.current
        &&& forall|i: int, j: int|
            0 <= i < j < self.recycled.len() ==> self.recycled[i] != self.recycled[j]
    }

    /// Whether frame `ppn` is handed out and not given back.
    pub open spec fn is_allocated(self, ppn: usize) -> bool {
        self.start <= ppn < self.current && !self.recycled.contains(ppn)
    }

    /// The frames that are handed out and not given back.
    pub open spec fn allocated(self) -> Set<usize> {
        Set::new(|ppn: usize| self.is_allocated(ppn))
    }

    /// How many frames can still be handed out.
    pub open spec fn free_count(self) -> int {
        (self.end - self.current) + self.recycled.len()
    }

    /// The frame that is handed out next, where one is left.
    pub open spec fn next(self) -> usize {
        if self.recycled.len() > 0 {
            self.recycled.last()
        } else {
            self.current
        }
    }

    /// The state after handing out `next()`.
    pub open spec fn after_alloc(self) -> FrameAllocatorView {
        if self.recycled.len() > 0 {
            FrameAllocatorView { recycled: self.recycled.drop_last(), ..self }
        } else {
            FrameAllocatorView { current: (self.current + 1) as usize, ..self }
        }
    }

    /// The state after frame `ppn` was given back.
    pub open spec fn after_dealloc(self, ppn: usize) -> FrameAllocatorView {
        FrameAllocatorView { recycled: self.recycled.push(ppn), ..self }
    }
}

/// Handing out a frame keeps the state well formed, hands out a frame that
/// was not allocated, and adds exactly that frame to the allocated ones.
pub proof fn lemma_alloc(a: FrameAllocatorView)
    requires
        a.wf(),
        a.free_count() > 0,
    ensures
        a.after_alloc().wf(),
        a.start <= a.next() < a.end,
        !a.is_allocated(a.next()),
        a.after_alloc().allocated() == a.allocated().insert(a.next()),
        a.after_alloc().free_count() == a.free_count() - 1,
{
    let b = a.after_alloc();
    let p = a.next();
    if a.recycled.len() > 0 {
        let n = a.recycled.len() - 1;
        assert(a.recycled[n] == p);
        assert forall|q: usize| b.is_allocated(q) == (a.is_allocated(q) || q == p) by {
            if q == p {
                if b.recycled.contains(q) {
                    let i = choose|i: int| 0 <= i < b.recycled.len() && b.recycled[i] == q;
                    assert(a.recycled[i] == q);
                }
            } else {
                if a.recycled.contains(q) {
                    let i = choose|i: int| 0 <= i < a.recycled.len() && a.recycled[i] == q;
                    assert(b.recycled[i] == q);
                }
                if b.recycled.contains(q) {
                    let i = choose|i: int| 0 <= i < b.recycled.len() && b.recycled[i] == q;
                    assert(a.recycled[i] == q);
                }
            }
        }
    } else {
        assert forall|q: usize| b.is_allocated(q) == (a.is_allocated(q) || q == p) by {}
    }
    assert(b.allocated() =~= a.allocated().insert(p));
}

/// Giving back an allocated frame keeps the state well formed and takes
/// exactly that frame from the allocated ones.
pub proof fn lemma_dealloc(a: FrameAllocatorView, ppn: usize)
    requires
        a.wf(),
        a.is_allocated(ppn),
    ensures
        a.after_dealloc(ppn).wf(),
        a.after_dealloc(ppn).allocated() == a.allocated().remove(ppn),
        a.after_dealloc(ppn).free_count() == a.free_count() + 1,
{
    let b = a.after_dealloc(ppn);
    assert forall|i: int, j: int| 0 <= i < j < b.recycled.len() implies b.recycled[i]
        != b.recycled[j] by {
        if j == a.recycled.len() {
            assert(a.recycled[i] == b.recycled[i]);
        }
    }
    assert forall|q: usize| b.is_allocated(q) == (a.is_allocated(q) && q != ppn) by {
        if q == ppn {
            assert(b.recycled[a.recycled.len() as int] == q);
        } else {
            if a.recycled.contains(q) {
                let i = choose|i: int| 0 <= i < a.recycled.len() && a.recycled[i] == q;
                assert(b.recycled[i] == q);
            }
            if b.recycled.contains(q) {
                let i = choose|i: int| 0 <= i < b.recycled.len() && b.recycled[i] == q;
                assert(a.recycled[i] == q);
            }
        }
    }
    assert(b.allocated() =~= a.allocated().remove(ppn));
}

/// The state after handing out `n` frames, one after the other.
pub open spec fn alloc_state(a: FrameAllocatorView, n: nat) -> FrameAllocatorView
    decreases n,
{
    if n == 0 {
        a
    } else {
        alloc_state(a, (n - 1) as nat).after_alloc()
    }
}

/// The `n` frames that are handed out one after the other, in that order.
pub open spec fn alloc_frames(a: FrameAllocatorView, n: nat) -> Seq<usize>
    decreases n,
{
    if n == 0 {
        Seq::empty()
    } else {
        alloc_frames(a, (n - 1) as nat).push(alloc_state(a, (n - 1) as nat).next())
    }
}

/// The state after the frames of `frames` were given back in that order.
pub open spec fn release_state(a: FrameAllocatorView, frames: Seq<usize>) -> FrameAllocatorView {
    FrameAllocatorView { recycled: a.recycled + frames, ..a }
}

/// Whether no frame occurs twice in `frames`.
pub open spec fn distinct_frames(frames: Seq<usize>) -> bool {
    forall|i: int, j: int| 0 <= i < j < frames.len() ==> frames[i] != frames[j]
}

/// Handing out `n` frames where that many are free: the frames are
/// distinct, none of them was allocated before, and afterwards exactly
/// they and the frames allocated before are allocated.
pub proof fn lemma_alloc_many(a: FrameAllocatorView, n: nat)
    requires
        a.wf(),
        a.free_count() >= n,
    ensures
        alloc_state(a, n).wf(),
        alloc_state(a, n).free_count() == a.free_count() - n,
        alloc_state(a, n).start == a.start,
        alloc_state(a, n).end == a.end,
        alloc_frames(a, n).len() == n,
        distinct_frames(alloc_frames(a, n)),
        forall|k: int|
            0 <= k < n ==> !a.is_allocated(#[trigger] alloc_frames(a, n)[k]) && a.start
                <= alloc_frames(a, n)[k] < a.end,
        forall|q: usize|
            alloc_state(a, n).is_allocated(q) <==> a.is_allocated(q) || alloc_frames(
                a,
                n,
            ).contains(q),
    decreases n,
{
    if n == 0 {
    } else {
        let m = (n - 1) as nat;
        lemma_alloc_many(a, m);
        let b = alloc_state(a, m);
        let fm = alloc_frames(a, m);
        let p = b.next();
        let f = alloc_frames(a, n);
        lemma_alloc(b);
        assert(f == fm.push(p));
        assert(!fm.contains(p));
        assert forall|i: int, j: int| 0 <= i < j < f.len() implies f[i] != f[j] by {
            if j == m {
                assert(fm[i] == f[i]);
                assert(fm.contains(f[i]));
            } else {
                assert(fm[i] == f[i] && fm[j] == f[j]);
            }
        }
        assert forall|k: int| 0 <= k < n implies !a.is_allocated(#[trigger] f[k]) && a.start
            <= f[k] < a.end by {
            if k < m {
                assert(f[k] == fm[k]);
            }
        }
        assert forall|q: usize|
            alloc_state(a, n).is_allocated(q) <==> a.is_allocated(q) || f.contains(q) by {
            assert(alloc_state(a, n).allocated().contains(q) == b.allocated().insert(p).contains(q));
            if fm.contains(q) {
                let i = choose|i: int| 0 <= i < fm.len() && fm[i] == q;
                assert(f[i] == q);
            }
            if q == p {
                assert(f[m as int] == q);
            }
            if f.contains(q) {
                let i = choose|i: int| 0 <= i < f.len() && f[i] == q;
                if i < m {
                    assert(fm[i] == q);
                }
            }
        }
    }
}

/// Giving back distinct allocated frames: afterwards exactly the frames
/// allocated before, less those given back, are allocated.
pub proof fn lemma_release(a: FrameAllocatorView, frames: Seq<usize>)
    requires
        a.wf(),
        distinct_frames(frames),
        forall|k: int| 0 <= k < frames.len() ==> a.is_allocated(#[trigger] frames[k]),
    ensures
        release_state(a, frames).wf(),
        release_state(a, frames).free_count() == a.free_count() + frames.len(),
        forall|q: usize|
            release_state(a, frames).is_allocated(q) <==> a.is_allocated(q) && !frames.contains(q),
    decreases frames.len(),
{
    let b = release_state(a, frames);
    if frames.len() == 0 {
        assert(a.recycled + frames =~= a.recycled);
    } else {
        let init = frames.drop_last();
        let p = frames.last();
        assert forall|k: int| 0 <= k < init.len() implies a.is_allocated(#[trigger] init[k]) by {
            assert(init[k] == frames[k]);
        }
        lemma_release(a, init);
        let c = release_state(a, init);
        assert(!init.contains(p)) by {
            if init.contains(p) {
                let i = choose|i: int| 0 <= i < init.len() && init[i] == p;
                assert(frames[i] == p);
            }
        }
        assert(a.is_allocated(frames[frames.len() - 1]));
        lemma_dealloc(c, p);
        assert(c.after_dealloc(p).recycled =~= a.recycled + frames);
        assert(c.after_dealloc(p) == b);
        assert forall|q: usize| b.is_allocated(q) <==> a.is_allocated(q) && !frames.contains(
            q,
        ) by {
            assert(b.allocated().contains(q) == c.allocated().remove(p).contains(q));
            if init.contains(q) {
                let i = choose|i: int| 0 <= i < init.len() && init[i] == q;
                assert(frames[i] == q);
            }
            if frames.contains(q) {
                let i = choose|i: int| 0 <= i < frames.len() && frames[i] == q;
                if i < init.len() {
                    assert(init[i] == q);
                }
            }
        }
    }
}

/// An allocator of frames over a range of frame numbers.
pub struct StackFrameAllocator {
    start: usize,
    current: usize,
    end: usize,
    recycled: Vec<usize>,
}

impl View for StackFrameAllocator {
    type V = FrameAllocatorView;

    closed spec fn view(&self) -> FrameAllocatorView {
        FrameAllocatorView {
            start: self.start,
            current: self.current,
            end: self.end,
            recycled: self.recycled@,
        }
    }
}

impl StackFrameAllocator {
    /// The state of the allocator is well formed.
    pub open spec fn wf(&self) -> bool {
        self@.wf()
    }

    /// An allocator over the frames from `start` up to, not including,
    /// `end`, none of them handed out. With `end` before `start` it has no
    /// frame at all.
    pub fn new(start: PhysPageNum, end: PhysPageNum) -> (a: StackFrameAllocator)
        ensures
            a.wf(),
            a@.start == start.0,
            a@.current == start.0,
            a@.end == (if start.0 <= end.0 {
                end.0
            } else {
                start.0
            }),
            a@.recycled == Seq::<usize>::empty(),
    {
        let end = if start.0 <= end.0 {
            end.0
        } else {
            start.0
        };
        StackFrameAllocator { start: start.0, current: start.0, end, recycled: Vec::new() }
    }

    /// How many frames can still be handed out.
    pub fn free_frames(&self) -> (n: usize)
        requires
            self.wf(),
        ensures
            n == self@.free_count(),
    {
        proof {
            lemma_recycled_count(self@);
        }
        (self.end - self.current) + self.recycled.len()
    }

    /// Hands out a frame: the one given back most recently, or else the
    /// lowest that was never handed out; `None` when no frame is left.
    pub fn frame_alloc(&mut self) -> (res: Option<PhysPageNum>)
        requires
            old(self).wf(),
        ensures
            final(self).wf(),
            old(self)@.free_count() == 0 ==> res is None && final(self)@ == old(self)@,
            old(self)@.free_count() > 0 ==> res == Some(PhysPageNum(old(self)@.next()))
                && final(self)@ == old(self)@.after_alloc(),
    {
        proof {
            if self@.free_count() > 0 {
                lemma_alloc(self@);
            }
        }
        match self.recycled.pop() {
            Some(ppn) => Some(PhysPageNum(ppn)),
            None => {
                if self.current == self.end {
                    None
                } else {
                    self.current = self.current + 1;
                    Some(PhysPageNum(self.current - 1))
                }
            },
        }
    }

    /// Takes back frame `ppn`, which must be handed out and not yet given
    /// back.
    pub fn frame_dealloc(&mut self, ppn: PhysPageNum)
        requires
            old(self).wf(),
            old(self)@.is_allocated(ppn.0),
        ensures
            final(self).wf(),
            final(self)@ == old(self)@.after_dealloc(ppn.0),
    {
        proof {
            lemma_dealloc(self@, ppn.0);
        }
        self.recycled.push(ppn.0);
    }

    /// Whether frame `ppn` is handed out and not given back.
    pub fn is_allocated(&self, ppn: PhysPageNum) -> (b: bool)
        requires
            self.wf(),
        ensures
            b == self@.is_allocated(ppn.0),
    {
        if ppn.0 < self.start || ppn.0 >= self.current {
            return false;
        }
        let mut i: usize = 0;
        while i < self.recycled.len()
            invariant
                i <= self.recycled.len(),
                forall|j: int| 0 <= j < i ==> self.recycled@[j] != ppn.0,
            decreases self.recycled.len() - i,
        {
            if self.recycled[i] == ppn.0 {
                return false;
            }
            i = i + 1;
        }
        true
    }
}

/// Distinct frames out of a range are no more than the range holds.
proof fn lemma_distinct_in_range(s: Seq<usize>, lo: int, hi: int)
    requires
        lo <= hi,
        forall|i: int| 0 <= i < s.len() ==> lo <= #[trigger] s[i] < hi,
        forall|i: int, j: int| 0 <= i < j < s.len() ==> s[i] != s[j],
    ensures
        s.len() <= hi - lo,
    decreases hi - lo,
{
    if s.len() == 0 {
    } else if lo == hi {
        assert(lo <= s[0] < hi);
    } else {
        // Drop the one occurrence of `hi - 1`, if there is one.
        let top = (hi - 1) as usize;
        if s.contains(top) {
            let k = choose|k: int| 0 <= k < s.len() && s[k] == top;
            let t = s.remove(k);
            assert forall|i: int| 0 <= i < t.len() implies lo <= #[trigger] t[i] < hi - 1 by {
                if i < k {
                    assert(t[i] == s[i]);
                } else {
                    assert(t[i] == s[i + 1]);
                }
            }
            assert forall|i: int, j: int| 0 <= i < j < t.len() implies t[i] != t[j] by {
                let si = if i < k { i } else { i + 1 };
                let sj = if j < k { j } else { j + 1 };
                assert(t[i] == s[si]);
                assert(t[j] == s[sj]);
            }
            lemma_distinct_in_range(t, lo, hi - 1);
        } else {
            assert forall|i: int| 0 <= i < s.len() implies lo <= #[trigger] s[i] < hi - 1 by {
                assert(s.contains(s[i]));
            }
            lemma_distinct_in_range(s, lo, hi - 1);
        }
    }
}

/// In a well-formed state the recycled frames are no more than the frames
/// handed out so far, so the free frames are no more than the range.
pub proof fn lemma_recycled_count(a: FrameAllocatorView)
    requires
        a.wf(),
    ensures
        a.recycled.len() <= a.current - a.start,
        a.free_count() <= a.end - a.start,
{
    lemma_distinct_in_range(a.recycled, a.start as int, a.current as int);
}

} // verus!
