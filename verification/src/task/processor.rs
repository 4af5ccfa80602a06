//! The processor: the task that runs, the tasks that wait, and the frames
//! they share.

use vstd::prelude::*;
use crate::config::BIG_STRIDE;
use crate::mm::address::{page_ceil, page_floor, VirtAddr};
use crate::mm::frame_allocator::{alloc_frames, alloc_state, FrameAllocatorView, StackFrameAllocator};
use crate::mm::memory_set::{
    frames_given,
    frames_taken,
    AreaView,
    MapType,
    MemorySet,
    MemorySetView,
};
use crate::mm::page_table::{MapPermission, PageTableEntry};
use crate::task::manager::{dispatched, is_pick, lemma_pick, pick, stride_fits, TaskManager};
use crate::task::task::{TaskControlBlock, TaskStatus, TrapContext};

verus! {

/// Whether task `i` of `tasks` exists and a region of its memory image
/// owns frame `ppn`.
pub open spec fn holds(tasks: Seq<TaskControlBlock>, i: int, ppn: usize) -> bool {
    0 <= i < tasks.len() && tasks[i].memory_set@.owns_frame(ppn)
}

/// Whether the tasks of `tasks` share the frames of `a` properly: each
/// task is well formed, every frame that a task holds is allocated, and no
/// frame is held by two tasks.
pub open spec fn frames_shared(tasks: Seq<TaskControlBlock>, a: FrameAllocatorView) -> bool {
    &&& forall|i: int| 0 <= i < tasks.len() ==> (#[trigger] tasks[i]).wf()
    &&& forall|i: int, ppn: usize| #[trigger] holds(tasks, i, ppn) ==> a.is_allocated(ppn)
    &&& forall|i: int, j: int, ppn: usize|
        #[trigger] holds(tasks, i, ppn) && #[trigger] holds(tasks, j, ppn) ==> i == j
}

/// `task` as it is once it has the processor at time `now`.
pub open spec fn running(task: TaskControlBlock, now: usize) -> TaskControlBlock {
    TaskControlBlock {
        task_status: TaskStatus::Running,
        first_run: if task.first_run is None {
            Some(now)
        } else {
            task.first_run
        },
        ..task
    }
}

/// `task` as it is once it has given up the processor and waits again.
pub open spec fn suspended(task: TaskControlBlock) -> TaskControlBlock {
    TaskControlBlock { task_status: TaskStatus::Ready, ..task }
}

/// One processor with everything that runs on it.
pub struct Processor {
    /// The task that runs, if any.
    pub current: Option<TaskControlBlock>,
    /// The tasks that wait.
    pub manager: TaskManager,
    /// The allocator of the frames behind all their memory.
    pub frames: StackFrameAllocator,
}

impl Processor {
    /// All tasks: those that wait, in queue order, then the one that runs.
    pub open spec fn tasks(&self) -> Seq<TaskControlBlock> {
        match self.current {
            Some(task) => self.manager@.push(task),
            None => self.manager@,
        }
    }

    /// The invariant of the processor: the allocator and the queue are
    /// well formed, the current task is marked as running, and the tasks
    /// share the frames properly.
    pub open spec fn wf(&self) -> bool {
        &&& self.frames.wf()
        &&& self.manager.wf()
        &&& self.current is Some ==> self.current->0.task_status == TaskStatus::Running
        &&& frames_shared(self.tasks(), self.frames@)
    }

    /// A processor without tasks, over the allocator `frames`.
    pub fn new(frames: StackFrameAllocator) -> (p: Processor)
        requires
            frames.wf(),
        ensures
            p.wf(),
            p.current is None,
            p.manager@ == Seq::<TaskControlBlock>::empty(),
            p.frames == frames,
    {
        Processor { current: None, manager: TaskManager::new(), frames }
    }
}

/// Tasks that are some of the tasks of a proper sharing, each at most
/// once, share the frames properly too. `from` says for each position of
/// `some` which task of `all` has the same memory image.
pub proof fn lemma_frames_shared_by_some(
    all: Seq<TaskControlBlock>,
    some: Seq<TaskControlBlock>,
    a: FrameAllocatorView,
    from: spec_fn(int) -> int,
)
    requires
        frames_shared(all, a),
        forall|j: int|
            0 <= j < some.len() ==> 0 <= #[trigger] from(j) < all.len() && some[j].memory_set
                == all[from(j)].memory_set && some[j].wf(),
        forall|j: int, l: int|
            0 <= j < some.len() && 0 <= l < some.len() && #[trigger] from(j) == #[trigger] from(
                l,
            ) ==> j == l,
    ensures
        frames_shared(some, a),
{
    assert forall|i: int| 0 <= i < some.len() implies (#[trigger] some[i]).wf() by {
        assert(0 <= from(i) < all.len());
    }
    assert forall|i: int, ppn: usize| #[trigger] holds(some, i, ppn) implies a.is_allocated(
        ppn,
    ) by {
        assert(holds(all, from(i), ppn));
    }
    assert forall|i: int, j: int, ppn: usize|
        #[trigger] holds(some, i, ppn) && #[trigger] holds(some, j, ppn) implies i == j by {
        assert(holds(all, from(i), ppn));
        assert(holds(all, from(j), ppn));
    }
}

/// Where the last task of a proper sharing takes frames out of the
/// allocator and the other tasks stay as they are, the sharing stays
/// proper.
pub proof fn lemma_last_took(
    all0: Seq<TaskControlBlock>,
    a0: FrameAllocatorView,
    all1: Seq<TaskControlBlock>,
    a1: FrameAllocatorView,
)
    requires
        frames_shared(all0, a0),
        all0.len() > 0,
        all1.len() == all0.len(),
        forall|i: int| 0 <= i < all0.len() - 1 ==> all1[i] == all0[i],
        all1.last().wf(),
        frames_taken(all0.last().memory_set@, a0, all1.last().memory_set@, a1),
    ensures
        frames_shared(all1, a1),
{
    let last = all0.len() - 1;
    let ms0 = all0[last].memory_set@;
    let ms1 = all1[last].memory_set@;
    assert forall|i: int| 0 <= i < all1.len() implies (#[trigger] all1[i]).wf() by {
        if i < last {
            assert(all0[i].wf());
        }
    }
    assert forall|i: int, ppn: usize| #[trigger] holds(all1, i, ppn) implies a1.is_allocated(
        ppn,
    ) by {
        if i < last {
            assert(holds(all0, i, ppn));
        }
    }
    assert forall|i: int, j: int, ppn: usize|
        #[trigger] holds(all1, i, ppn) && #[trigger] holds(all1, j, ppn) implies i == j by {
        if i < last {
            assert(holds(all0, i, ppn));
        }
        if j < last {
            assert(holds(all0, j, ppn));
        }
        if ms0.owns_frame(ppn) {
            assert(holds(all0, last, ppn));
        }
    }
}

/// Where the last task of a proper sharing gives frames back to the
/// allocator and the other tasks stay as they are, the sharing stays
/// proper.
pub proof fn lemma_last_gave(
    all0: Seq<TaskControlBlock>,
    a0: FrameAllocatorView,
    all1: Seq<TaskControlBlock>,
    a1: FrameAllocatorView,
)
    requires
        frames_shared(all0, a0),
        all0.len() > 0,
        all1.len() == all0.len(),
        forall|i: int| 0 <= i < all0.len() - 1 ==> all1[i] == all0[i],
        all1.last().wf(),
        frames_given(all0.last().memory_set@, a0, all1.last().memory_set@, a1),
    ensures
        frames_shared(all1, a1),
{
    let last = all0.len() - 1;
    let ms0 = all0[last].memory_set@;
    let ms1 = all1[last].memory_set@;
    assert forall|i: int| 0 <= i < all1.len() implies (#[trigger] all1[i]).wf() by {
        if i < last {
            assert(all0[i].wf());
        }
    }
    assert forall|i: int, ppn: usize| #[trigger] holds(all1, i, ppn) implies a1.is_allocated(
        ppn,
    ) by {
        if i < last {
            assert(holds(all0, i, ppn));
            if ms0.owns_frame(ppn) {
                assert(holds(all0, last, ppn));
            }
        } else {
            assert(ms0.owns_frame(ppn));
            assert(holds(all0, last, ppn));
        }
    }
    assert forall|i: int, j: int, ppn: usize|
        #[trigger] holds(all1, i, ppn) && #[trigger] holds(all1, j, ppn) implies i == j by {
        assert(holds(all0, i, ppn));
        assert(holds(all0, j, ppn));
    }
}

impl Processor {
    /// The tasks that wait once the current task, if there is one, has
    /// joined them at the back.
    pub open spec fn yield_queue(&self) -> Seq<TaskControlBlock> {
        match self.current {
            Some(task) => self.manager@.push(suspended(task)),
            None => self.manager@,
        }
    }

    /// Whether the task that `queue` puts forward has left the queue and
    /// runs, as of time `now`, and the others wait as before. With an
    /// empty queue no task runs.
    pub open spec fn dispatched_from(&self, queue: Seq<TaskControlBlock>, now: usize) -> bool {
        &&& queue.len() == 0 ==> self.current is None && self.manager@ == queue
        &&& queue.len() > 0 ==> {
            &&& is_pick(queue, pick(queue))
            &&& self.current == Some(running(dispatched(queue[pick(queue)]), now))
            &&& self.manager@ == queue.remove(pick(queue))
        }
    }

    /// Whether `sys_yield` may be called: the stride of the task that
    /// would run next can grow by that task's pass within the machine
    /// word.
    pub fn yield_fits(&self) -> (fits: bool)
        requires
            self.wf(),
        ensures
            fits == stride_fits(self.yield_queue()),
    {
        let n = self.manager.len();
        let ghost queue = self.yield_queue();
        match &self.current {
            None => self.manager.stride_fits(),
            Some(current) => {
                // The current task joins at the back, so it runs next only
                // where its stride is less than every stride in the queue.
                let mut best_stride = current.stride;
                let mut best_priority = current.priority;
                let mut best: usize = n;
                let mut idx: usize = n;
                proof {
                    assert(self.tasks()[n as int].wf());
                }
                while idx > 0
                    invariant
                        self.wf(),
                        n == self.manager@.len(),
                        queue == self.manager@.push(suspended(*current)),
                        idx <= best <= n,
                        best_stride == queue[best as int].stride,
                        best_priority == queue[best as int].priority,
                        forall|j: int| idx <= j < best ==> best_stride < (#[trigger] queue[j]).stride,
                        forall|j: int| best < j <= n ==> best_stride <= (#[trigger] queue[j]).stride,
                    decreases idx,
                {
                    idx = idx - 1;
                    let task = self.manager.get(idx);
                    if task.stride <= best_stride {
                        best_stride = task.stride;
                        best_priority = task.priority;
                        best = idx;
                    }
                }
                proof {
                    assert(is_pick(queue, best as int));
                    lemma_pick(queue);
                    assert(queue[best as int].priority >= 1) by {
                        if best < n {
                            assert(self.manager@[best as int].priority >= 1);
                        }
                    }
                }
                BIG_STRIDE / best_priority <= usize::MAX - best_stride
            },
        }
    }

    /// Gives the processor, which no task has, to the task that the ready
    /// queue puts forward, at time `now`. With an empty queue nothing
    /// changes.
    pub fn run_next(&mut self, now: usize)
        requires
            old(self).wf(),
            old(self).current is None,
            stride_fits(old(self).manager@),
        ensures
            final(self).wf(),
            final(self).dispatched_from(old(self).manager@, now),
            final(self).frames == old(self).frames,
    {
        let ghost queue = self.manager@;
        let ghost a = self.frames@;
        match self.manager.fetch_task() {
            None => {},
            Some(mut task) => {
                task.mark_running(now);
                self.current = Some(task);
                proof {
                    let i = pick(queue);
                    let from = |j: int|
                        if j == queue.len() - 1 {
                            i
                        } else if j < i {
                            j
                        } else {
                            j + 1
                        };
                    let some = self.tasks();
                    assert forall|j: int| 0 <= j < some.len() implies 0 <= #[trigger] from(j)
                        < queue.len() && some[j].memory_set == queue[from(j)].memory_set
                        && some[j].wf() by {
                        assert(queue[from(j)].wf());
                    }
                    lemma_frames_shared_by_some(queue, some, a, from);
                }
            },
        }
    }
}

/// The permission of a heap: reading and writing from user mode.
pub open spec fn heap_permission() -> MapPermission {
    MapPermission { r: true, w: true, x: false, u: true }
}

/// The number of pages that a fresh heap at `heap_bottom` holds: none
/// where `heap_bottom` is page aligned, else the one page that
/// `heap_bottom` lies in.
pub open spec fn heap_pages(heap_bottom: usize) -> nat {
    (page_ceil(heap_bottom as int) - page_floor(heap_bottom as int)) as nat
}

/// The address space of a fresh task: nothing but its heap region, with
/// frames out of `a`.
pub open spec fn fresh_memory(a: FrameAllocatorView, heap_bottom: usize) -> MemorySetView {
    (MemorySetView {
        areas: Seq::<AreaView>::empty(),
        table: Map::<usize, PageTableEntry>::empty(),
    }).push_area(
        AreaView {
            start: page_floor(heap_bottom as int) as usize,
            end: page_ceil(heap_bottom as int) as usize,
            map_type: MapType::Framed,
            perm: heap_permission(),
            frames: alloc_frames(a, heap_pages(heap_bottom)),
        },
    )
}

impl Processor {
    /// Whether `task` can join the tasks of the processor: it is well
    /// formed and ready, and the frames it holds are allocated and held
    /// by no other task.
    pub open spec fn admits(&self, task: TaskControlBlock) -> bool {
        &&& task.wf()
        &&& task.task_status == TaskStatus::Ready
        &&& forall|ppn: usize| #[trigger]
            task.memory_set@.owns_frame(ppn) ==> self.frames@.is_allocated(ppn)
        &&& forall|i: int, ppn: usize|
            task.memory_set@.owns_frame(ppn) ==> !#[trigger] holds(self.tasks(), i, ppn)
    }

    /// Puts `task`, whose memory was built with frames of this processor,
    /// at the back of the ready queue.
    pub fn add_task(&mut self, task: TaskControlBlock)
        requires
            old(self).wf(),
            old(self).admits(task),
        ensures
            final(self).wf(),
            final(self).current == old(self).current,
            final(self).frames == old(self).frames,
            final(self).manager@ == old(self).manager@.push(task),
    {
        let ghost all0 = self.tasks();
        let ghost n = self.manager@.len() as int;
        self.manager.add(task);
        proof {
            let all1 = self.tasks();
            let a = self.frames@;
            // Where each task of the new sequence stood before; the new
            // task, at position `n`, stood nowhere.
            let from = |i: int|
                if i < n {
                    i
                } else {
                    i - 1
                };
            assert forall|i: int| 0 <= i < all1.len() && i != n implies all1[i] == all0[from(
                i,
            )] by {}
            assert forall|i: int| 0 <= i < all1.len() implies (#[trigger] all1[i]).wf() by {
                if i != n {
                    assert(all0[from(i)].wf());
                }
            }
            assert forall|i: int, ppn: usize| #[trigger] holds(all1, i, ppn) implies a.is_allocated(
                ppn,
            ) by {
                if i != n {
                    assert(holds(all0, from(i), ppn));
                }
            }
            assert forall|i: int, j: int, ppn: usize|
                #[trigger] holds(all1, i, ppn) && #[trigger] holds(all1, j, ppn) implies i
                == j by {
                if i != n {
                    assert(holds(all0, from(i), ppn));
                }
                if j != n {
                    assert(holds(all0, from(j), ppn));
                }
            }
        }
    }

    /// Makes a task that is ready to run for the first time and puts it at
    /// the back of the ready queue. Its address space holds nothing but
    /// the heap region, which begins at the page of `heap_bottom` and is
    /// empty where `heap_bottom` is page aligned.
    ///
    /// Returns whether the task was made. It is not, and nothing changes,
    /// where `heap_bottom` does not fit the word in which a syscall
    /// answers or no frame is free for the page of an unaligned
    /// `heap_bottom`.
    pub fn spawn(&mut self, trap_cx: TrapContext, heap_bottom: usize) -> (made: bool)
        requires
            old(self).wf(),
        ensures
            final(self).wf(),
            final(self).current == old(self).current,
            made == (heap_bottom <= isize::MAX && old(self).frames@.free_count() >= heap_pages(
                heap_bottom,
            )),
            !made ==> *final(self) == *old(self),
            made ==> {
                let task = final(self).manager@.last();
                &&& final(self).manager@ == old(self).manager@.push(task)
                &&& final(self).frames@ == alloc_state(old(self).frames@, heap_pages(heap_bottom))
                &&& task.memory_set@ == fresh_memory(old(self).frames@, heap_bottom)
                &&& task.task_status == TaskStatus::Ready
                &&& task.trap_cx == trap_cx
                &&& task.heap_bottom == heap_bottom
                &&& task.program_brk == heap_bottom
                &&& task.stride == 0
                &&& task.priority == crate::config::DEFAULT_PRIORITY
                &&& forall|id: int|
                    0 <= id < crate::config::MAX_SYSCALL_NUM ==> task.syscall_times@[id] == 0
                &&& task.first_run is None
                &&& task.exit_code == 0
            },
    {
        if heap_bottom > isize::MAX as usize {
            return false;
        }
        let bottom = VirtAddr(heap_bottom);
        let pages = bottom.ceil().0 - bottom.floor().0;
        if self.frames.free_frames() < pages {
            return false;
        }
        let ghost all0 = self.tasks();
        let ghost a0 = self.frames@;
        let mut memory_set = MemorySet::new_bare();
        proof {
            memory_set.lemma_wf();
            assert forall|ppn: usize| !memory_set@.owns_frame(ppn) by {
                if memory_set@.owns_frame(ppn) {
                    let (i, k) = choose|i: int, k: int| memory_set@.owns(i, k, ppn);
                    assert(memory_set@.owns(i, k, ppn));
                }
            }
        }
        memory_set.insert_framed_area(
            bottom,
            bottom,
            MapPermission { r: true, w: true, x: false, u: true },
            &mut self.frames,
        );
        let task = TaskControlBlock::new(memory_set, trap_cx, heap_bottom);
        proof {
            let a1 = self.frames@;
            let all1 = self.tasks();
            assert(all1 == all0);
            assert forall|i: int, ppn: usize| #[trigger] holds(all1, i, ppn) implies a1.is_allocated(
                ppn,
            ) by {
                assert(holds(all0, i, ppn));
            }
            assert forall|i: int, ppn: usize|
                task.memory_set@.owns_frame(ppn) implies !#[trigger] holds(all1, i, ppn) by {
                if holds(all1, i, ppn) {
                    assert(holds(all0, i, ppn));
                    assert(a0.is_allocated(ppn));
                }
            }
        }
        self.add_task(task);
        true
    }
}

} // verus!
