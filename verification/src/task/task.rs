//! Task control blocks.

use vstd::prelude::*;
use crate::config::{BIG_STRIDE, DEFAULT_PRIORITY, MAX_SYSCALL_NUM};
use crate::mm::address::{page_ceil, page_floor, VirtAddr};
use crate::mm::frame_allocator::{FrameAllocatorView, StackFrameAllocator};
use crate::mm::memory_set::{frames_given, frames_taken, MemorySet, MemorySetView};

verus! {

/// Where a task stands in its life.
#[derive(Clone, Copy, Debug, PartialEq, Eq, Structural)]
pub enum TaskStatus {
    /// Waiting in the ready queue.
    Ready,
    /// On the processor.
    Running,
    /// Finished, never to run again.
    Exited,
}

/// The registers of a task, saved while it is not running.
#[derive(Clone, Copy, Debug)]
pub struct TrapContext {
    /// The general registers.
    pub x: [usize; 32],
    /// The status register.
    pub sstatus: usize,
    /// The address at which the task goes on.
    pub sepc: usize,
}

impl TrapContext {
    /// The context of a task that has not run yet: it starts at address
    /// `entry` with its stack pointer, register 2, at `sp`; every other
    /// register is zero.
    pub fn app_init_context(entry: usize, sp: usize) -> (cx: TrapContext)
        ensures
            cx.sepc == entry,
            cx.sstatus == 0,
            cx.x@[2] == sp,
            forall|i: int| 0 <= i < 32 && i != 2 ==> cx.x@[i] == 0,
    {
        let mut x = [0usize; 32];
        x[2] = sp;
        TrapContext { x, sstatus: 0, sepc: entry }
    }
}

/// The stride that one dispatch adds to a task of priority `priority`.
pub open spec fn pass_of(priority: usize) -> int {
    (BIG_STRIDE / priority) as int
}

/// Everything the kernel keeps about one task.
pub struct TaskControlBlock {
    /// Where the task stands in its life.
    pub task_status: TaskStatus,
    /// The saved registers.
    pub trap_cx: TrapContext,
    /// The memory image.
    pub memory_set: MemorySet,
    /// The lowest address the program break may have.
    pub heap_bottom: usize,
    /// The program break: the end of the heap.
    pub program_brk: usize,
    /// The stride of the task: how much processor time it has had,
    /// weighted by its priority.
    pub stride: usize,
    /// The priority of the task, at least 1.
    pub priority: usize,
    /// For each syscall id, how often the task has made that call.
    pub syscall_times: [u32; MAX_SYSCALL_NUM],
    /// The time, in microseconds, at which the task first got the
    /// processor.
    pub first_run: Option<usize>,
    /// The code with which the task exited.
    pub exit_code: i32,
}

impl TaskControlBlock {
    /// The invariant of a task: its priority is at least 1, its memory
    /// image is well formed, and its program break is not below the heap
    /// bottom and fits the word in which a syscall answers.
    pub open spec fn wf(&self) -> bool {
        &&& self.priority >= 1
        &&& self.memory_set.wf()
        &&& self.heap_bottom <= self.program_brk <= isize::MAX
    }

    /// A task that is ready to run for the first time: stride 0, the
    /// default priority, no syscall counted, an empty heap at
    /// `heap_bottom`.
    pub fn new(memory_set: MemorySet, trap_cx: TrapContext, heap_bottom: usize) -> (task:
        TaskControlBlock)
        requires
            memory_set.wf(),
            heap_bottom <= isize::MAX,
        ensures
            task.wf(),
            task.task_status == TaskStatus::Ready,
            task.trap_cx == trap_cx,
            task.memory_set == memory_set,
            task.heap_bottom == heap_bottom,
            task.program_brk == heap_bottom,
            task.stride == 0,
            task.priority == DEFAULT_PRIORITY,
            forall|id: int| 0 <= id < MAX_SYSCALL_NUM ==> task.syscall_times@[id] == 0,
            task.first_run is None,
            task.exit_code == 0,
    {
        TaskControlBlock {
            task_status: TaskStatus::Ready,
            trap_cx,
            memory_set,
            heap_bottom,
            program_brk: heap_bottom,
            stride: 0,
            priority: DEFAULT_PRIORITY,
            syscall_times: [0u32; MAX_SYSCALL_NUM],
            first_run: None,
            exit_code: 0,
        }
    }

    /// Gives the task the priority `priority`. A priority of 0 is refused
    /// and nothing changes.
    pub fn set_priority(&mut self, priority: usize) -> (set: bool)
        ensures
            set == (priority >= 1),
            set ==> *final(self) == (TaskControlBlock { priority, ..*old(self) }),
            !set ==> *final(self) == *old(self),
    {
        if priority == 0 {
            return false;
        }
        self.priority = priority;
        true
    }

    /// The stride that one dispatch adds to the task.
    pub fn pass(&self) -> (pass: usize)
        requires
            self.priority >= 1,
        ensures
            pass == pass_of(self.priority),
            pass <= BIG_STRIDE,
    {
        BIG_STRIDE / self.priority
    }

    /// Counts one invocation of syscall `id`. An id beyond the counted
    /// ones is refused and nothing changes; a counter that has reached the
    /// largest count stays there.
    pub fn record_syscall(&mut self, id: usize) -> (counted: bool)
        ensures
            counted == (id < MAX_SYSCALL_NUM),
            !counted ==> *final(self) == *old(self),
            counted ==> *final(self) == (TaskControlBlock {
                syscall_times: final(self).syscall_times,
                ..*old(self)
            }) && final(self).syscall_times@ == old(self).syscall_times@.update(
                id as int,
                if old(self).syscall_times@[id as int] < u32::MAX {
                    (old(self).syscall_times@[id as int] + 1) as u32
                } else {
                    u32::MAX
                },
            ),
    {
        if id >= MAX_SYSCALL_NUM {
            return false;
        }
        let count = self.syscall_times[id];
        if count < u32::MAX {
            self.syscall_times[id] = count + 1;
        } else {
            proof {
                assert(self.syscall_times@ =~= old(self).syscall_times@.update(
                    id as int,
                    u32::MAX,
                ));
            }
        }
        true
    }

    /// Notes that the task gets the processor at time `now`, in
    /// microseconds: the task is running, and the first such time is
    /// kept.
    pub fn mark_running(&mut self, now: usize)
        ensures
            *final(self) == (TaskControlBlock {
                task_status: TaskStatus::Running,
                first_run: if old(self).first_run is None {
                    Some(now)
                } else {
                    old(self).first_run
                },
                ..*old(self)
            }),
    {
        self.task_status = TaskStatus::Running;
        if self.first_run.is_none() {
            self.first_run = Some(now);
        }
    }

    /// The time, in microseconds, since the task first got the processor,
    /// as of time `now`: 0 for a task that never ran or where `now` lies
    /// before that first time.
    pub fn running_time(&self, now: usize) -> (elapsed: usize)
        ensures
            elapsed == elapsed_since(self.first_run, now),
    {
        match self.first_run {
            Some(first) => if now >= first {
                now - first
            } else {
                0
            },
            None => 0,
        }
    }
}

/// What moving the program break by `size` bytes comes to for a heap from
/// `heap_bottom` up to `program_brk`: the address space and the allocator
/// afterwards, or `None` where it cannot be done.
///
/// It cannot be done where the new break would lie below the heap bottom
/// or beyond the largest answer of a syscall; nor where the heap region,
/// the first region that begins at the page of the heap bottom, is
/// missing or cannot be extended. The heap region is made to end at the
/// first page boundary at or after the new break: it never gets shorter
/// when the break goes up, nor longer when it goes down.
pub open spec fn brk_change(
    ms: MemorySetView,
    a: FrameAllocatorView,
    heap_bottom: usize,
    program_brk: usize,
    size: i32,
) -> Option<(MemorySetView, FrameAllocatorView)> {
    let new_brk = program_brk + size;
    if new_brk < heap_bottom || new_brk > isize::MAX {
        None
    } else if size < 0 {
        ms.shrunk_to(a, page_floor(heap_bottom as int) as usize, page_ceil(new_brk) as usize)
    } else {
        ms.grown_to(a, page_floor(heap_bottom as int) as usize, page_ceil(new_brk) as usize)
    }
}

impl TaskControlBlock {
    /// Moves the program break by `size` bytes, up or down, and makes the
    /// heap region follow, with frames from or to `frames`. Returns the
    /// break as it was; `None` where the move cannot be done, and then
    /// nothing has changed.
    pub fn change_program_brk(&mut self, size: i32, frames: &mut StackFrameAllocator) -> (res:
        Option<usize>)
        requires
            old(self).wf(),
            old(self).memory_set.wf_with(old(frames)),
        ensures
            final(self).wf(),
            final(self).memory_set.wf_with(final(frames)),
            *final(self) == (TaskControlBlock {
                program_brk: final(self).program_brk,
                memory_set: final(self).memory_set,
                ..*old(self)
            }),
            match brk_change(
                old(self).memory_set@,
                old(frames)@,
                old(self).heap_bottom,
                old(self).program_brk,
                size,
            ) {
                Some((ms, a)) => {
                    &&& res == Some(old(self).program_brk)
                    &&& final(self).program_brk == old(self).program_brk + size
                    &&& final(self).memory_set@ == ms
                    &&& final(frames)@ == a
                },
                None => {
                    &&& res is None
                    &&& final(self).program_brk == old(self).program_brk
                    &&& final(self).memory_set@ == old(self).memory_set@
                    &&& final(frames)@ == old(frames)@
                },
            },
            size < 0 ==> frames_given(
                old(self).memory_set@,
                old(frames)@,
                final(self).memory_set@,
                final(frames)@,
            ),
            size >= 0 ==> frames_taken(
                old(self).memory_set@,
                old(frames)@,
                final(self).memory_set@,
                final(frames)@,
            ),
    {
        let old_brk = self.program_brk;
        if size >= 0 {
            let delta = size as usize;
            if delta > (isize::MAX as usize) - old_brk {
                return None;
            }
            let new_brk = old_brk + delta;
            if self.memory_set.append_to(VirtAddr(self.heap_bottom), VirtAddr(new_brk), frames) {
                self.program_brk = new_brk;
                Some(old_brk)
            } else {
                None
            }
        } else {
            let delta = (-(size as i64)) as usize;
            if delta > old_brk - self.heap_bottom {
                return None;
            }
            let new_brk = old_brk - delta;
            if self.memory_set.shrink_to(VirtAddr(self.heap_bottom), VirtAddr(new_brk), frames) {
                self.program_brk = new_brk;
                Some(old_brk)
            } else {
                None
            }
        }
    }
}

/// The time from `first_run` to `now`, where there is such a time.
pub open spec fn elapsed_since(first_run: Option<usize>, now: usize) -> usize {
    match first_run {
        Some(first) => if now >= first {
            (now - first) as usize
        } else {
            0
        },
        None => 0,
    }
}

} // verus!
