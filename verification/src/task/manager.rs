//! The ready queue and the choice of the task to run next.
//!
//! Scheduling is by stride: every task carries a stride that grows, each
//! time the task is dispatched, by a pass that is the smaller the higher
//! the task's priority; the task with the least stride runs next.

use std::collections::VecDeque;
use vstd::prelude::*;
use crate::config::BIG_STRIDE;
use crate::task::task::{pass_of, TaskControlBlock, TaskStatus};

verus! {

/// Whether the task at position `i` is the one to run next: it has the
/// least stride of the queue and is the first with that stride.
pub open spec fn is_pick(queue: Seq<TaskControlBlock>, i: int) -> bool {
    &&& 0 <= i < queue.len()
    &&& forall|j: int| 0 <= j < i ==> queue[i].stride < (#[trigger] queue[j]).stride
    &&& forall|j: int| i < j < queue.len() ==> queue[i].stride <= (#[trigger] queue[j]).stride
}

/// The position of the task to run next in a queue that is not empty.
pub open spec fn pick(queue: Seq<TaskControlBlock>) -> int {
    choose|i: int| is_pick(queue, i)
}

/// The task as it is after one dispatch: its stride has grown by its pass.
pub open spec fn dispatched(task: TaskControlBlock) -> TaskControlBlock {
    TaskControlBlock { stride: (task.stride + pass_of(task.priority)) as usize, ..task }
}

/// Whether the stride of the task to run next can take one more pass
/// without leaving the machine word. An empty queue has no such task.
pub open spec fn stride_fits(queue: Seq<TaskControlBlock>) -> bool {
    queue.len() > 0 ==> queue[pick(queue)].stride + pass_of(queue[pick(queue)].priority)
        <= usize::MAX
}

/// Whether every task of the queue can be scheduled: it is ready and its
/// priority is at least 1.
pub open spec fn all_schedulable(queue: Seq<TaskControlBlock>) -> bool {
    forall|i: int|
        0 <= i < queue.len() ==> (#[trigger] queue[i]).priority >= 1 && queue[i].task_status
            == TaskStatus::Ready
}

/// A queue that is not empty has a task to run next; the result is its
/// position.
proof fn lemma_pick_exists(queue: Seq<TaskControlBlock>) -> (i: int)
    requires
        queue.len() > 0,
    ensures
        is_pick(queue, i),
    decreases queue.len(),
{
    if queue.len() == 1 {
        0
    } else {
        let init = queue.drop_last();
        let r = lemma_pick_exists(init);
        let last = queue.len() - 1;
        assert forall|j: int| 0 <= j < last implies init[j] == queue[j] by {}
        if queue[last].stride < queue[r].stride {
            assert forall|j: int| 0 <= j < last implies queue[last].stride < (
            #[trigger] queue[j]).stride by {
                assert(init[j].stride >= init[r].stride);
            }
            last
        } else {
            assert forall|j: int| 0 <= j < r implies queue[r].stride < (
            #[trigger] queue[j]).stride by {
                assert(init[j].stride > init[r].stride);
            }
            assert forall|j: int| r < j < queue.len() implies queue[r].stride <= (
            #[trigger] queue[j]).stride by {
                if j < last {
                    assert(init[j].stride >= init[r].stride);
                }
            }
            r
        }
    }
}

/// In a queue that is not empty exactly one position is the one to run
/// next, and `pick` names it.
pub proof fn lemma_pick(queue: Seq<TaskControlBlock>)
    requires
        queue.len() > 0,
    ensures
        is_pick(queue, pick(queue)),
        forall|i: int| is_pick(queue, i) ==> i == pick(queue),
{
    let w = lemma_pick_exists(queue);
    let p = pick(queue);
    assert forall|i: int| is_pick(queue, i) implies i == p by {
        if i < p {
            assert(queue[p].stride < queue[i].stride);
            assert(queue[i].stride <= queue[p].stride);
        } else if p < i {
            assert(queue[i].stride < queue[p].stride);
            assert(queue[p].stride <= queue[i].stride);
        }
    }
}

/// One dispatch adds exactly the pass to the stride of the dispatched
/// task, where the sum fits the machine word; the stride never gets less.
pub proof fn lemma_stride_grows(task: TaskControlBlock)
    requires
        task.priority >= 1,
        task.stride + pass_of(task.priority) <= usize::MAX,
    ensures
        dispatched(task).stride == task.stride + BIG_STRIDE / task.priority,
        dispatched(task).stride >= task.stride,
        1 <= task.priority <= BIG_STRIDE ==> dispatched(task).stride > task.stride,
{
    if 1 <= task.priority <= BIG_STRIDE {
        assert(BIG_STRIDE / task.priority >= 1) by (nonlinear_arith)
            requires
                1 <= task.priority <= BIG_STRIDE,
        ;
    }
    assert(BIG_STRIDE / task.priority >= 0) by (nonlinear_arith)
        requires
            1 <= task.priority,
    ;
}

/// The queue after one round: the task to run next is dispatched and put
/// back behind the others, as `fetch_task` followed by `add` of the task
/// it gave does.
pub open spec fn cycle(queue: Seq<TaskControlBlock>) -> Seq<TaskControlBlock> {
    queue.remove(pick(queue)).push(dispatched(queue[pick(queue)]))
}

/// The queue after `n` rounds.
pub open spec fn cycles(queue: Seq<TaskControlBlock>, n: nat) -> Seq<TaskControlBlock>
    decreases n,
{
    if n == 0 {
        queue
    } else {
        cycle(cycles(queue, (n - 1) as nat))
    }
}

/// `task` with the stride `stride` in place of its own.
pub open spec fn with_stride(task: TaskControlBlock, stride: int) -> TaskControlBlock {
    TaskControlBlock { stride: stride as usize, ..task }
}

/// Two tasks that start with the same stride share the processor in
/// proportion to their priorities.
///
/// After `n` rounds the two tasks have been dispatched `n` times between
/// them, each has a stride of the common start plus its pass for each of
/// its dispatches, and the strides differ by no more than the pass of the
/// task that is ahead. The result names where the first task stands in the
/// queue and how often each of the two was dispatched.
pub proof fn lemma_two_tasks_share_fairly(queue: Seq<TaskControlBlock>, n: nat) -> (res: (
    int,
    nat,
    nat,
))
    requires
        queue.len() == 2,
        queue[0].priority >= 1,
        queue[1].priority >= 1,
        queue[0].stride == queue[1].stride,
        queue[0].stride + (n + 1) * BIG_STRIDE <= usize::MAX,
    ensures
        ({
            let (at, runs0, runs1) = res;
            let after = cycles(queue, n);
            let pass0 = pass_of(queue[0].priority);
            let pass1 = pass_of(queue[1].priority);
            &&& after.len() == 2
            &&& 0 <= at <= 1
            &&& runs0 + runs1 == n
            &&& after[at] == with_stride(queue[0], queue[0].stride + runs0 * pass0)
            &&& after[1 - at] == with_stride(queue[1], queue[1].stride + runs1 * pass1)
            &&& runs0 * pass0 - runs1 * pass1 <= pass0
            &&& runs1 * pass1 - runs0 * pass0 <= pass1
        }),
    decreases n,
{
    let pass0 = pass_of(queue[0].priority);
    let pass1 = pass_of(queue[1].priority);
    let start = queue[0].stride as int;
    assert(0 <= pass0 <= BIG_STRIDE && 0 <= pass1 <= BIG_STRIDE) by (nonlinear_arith)
        requires
            queue[0].priority >= 1,
            queue[1].priority >= 1,
            pass0 == BIG_STRIDE as int / queue[0].priority as int,
            pass1 == BIG_STRIDE as int / queue[1].priority as int,
    ;
    if n == 0 {
        assert(queue[0] == with_stride(queue[0], start + 0 * pass0));
        assert(queue[1] == with_stride(queue[1], start + 0 * pass1));
        (0, 0, 0)
    } else {
        let m = (n - 1) as nat;
        assert(start + (m + 1) * BIG_STRIDE <= usize::MAX) by (nonlinear_arith)
            requires
                start + (n + 1) * BIG_STRIDE <= usize::MAX,
                m == n - 1,
        ;
        let (at, runs0, runs1) = lemma_two_tasks_share_fairly(queue, m);
        let before = cycles(queue, m);
        let after = cycles(queue, n);
        assert(after == cycle(before));
        lemma_pick(before);
        let p = pick(before);
        let stride0 = start + runs0 * pass0;
        let stride1 = start + runs1 * pass1;
        assert(0 <= runs0 * pass0 <= m * BIG_STRIDE && 0 <= runs1 * pass1 <= m * BIG_STRIDE)
            by (nonlinear_arith)
            requires
                0 <= runs0 <= m,
                0 <= runs1 <= m,
                0 <= pass0 <= BIG_STRIDE,
                0 <= pass1 <= BIG_STRIDE,
        ;
        assert((m + 1) * BIG_STRIDE == m * BIG_STRIDE + BIG_STRIDE) by (nonlinear_arith);
        assert((n + 1) * BIG_STRIDE == (m + 1) * BIG_STRIDE + BIG_STRIDE) by (nonlinear_arith)
            requires
                m == n - 1,
        ;
        assert(before[at].stride == stride0);
        assert(before[1 - at].stride == stride1);
        assert(after[0] == before[1 - p]);
        assert(after[1] == dispatched(before[p]));
        if p == at {
            assert((runs0 + 1) * pass0 == runs0 * pass0 + pass0) by (nonlinear_arith);
            assert(stride0 <= stride1);
            assert(after[1] == with_stride(queue[0], start + (runs0 + 1) * pass0));
            (1, (runs0 + 1) as nat, runs1)
        } else {
            assert((runs1 + 1) * pass1 == runs1 * pass1 + pass1) by (nonlinear_arith);
            assert(stride1 <= stride0);
            assert(after[1] == with_stride(queue[1], start + (runs1 + 1) * pass1));
            (0, runs0, (runs1 + 1) as nat)
        }
    }
}

/// The ready queue: the tasks that wait for the processor, in the order
/// in which they were added.
pub struct TaskManager {
    ready_queue: VecDeque<TaskControlBlock>,
}

impl View for TaskManager {
    type V = Seq<TaskControlBlock>;

    closed spec fn view(&self) -> Seq<TaskControlBlock> {
        self.ready_queue@
    }
}

impl TaskManager {
    /// Every queued task is ready and has a priority of at least 1.
    pub open spec fn wf(&self) -> bool {
        all_schedulable(self@)
    }

    /// An empty ready queue.
    pub fn new() -> (manager: TaskManager)
        ensures
            manager.wf(),
            manager@ == Seq::<TaskControlBlock>::empty(),
    {
        TaskManager { ready_queue: VecDeque::new() }
    }

    /// The number of tasks that wait.
    pub fn len(&self) -> (n: usize)
        ensures
            n == self@.len(),
    {
        self.ready_queue.len()
    }

    /// The task at position `i` of the queue.
    pub fn get(&self, i: usize) -> (task: &TaskControlBlock)
        requires
            i < self@.len(),
        ensures
            *task == self@[i as int],
    {
        &self.ready_queue[i]
    }

    /// Puts a ready task at the back of the queue.
    pub fn add(&mut self, task: TaskControlBlock)
        requires
            old(self).wf(),
            task.priority >= 1,
            task.task_status == TaskStatus::Ready,
        ensures
            final(self).wf(),
            final(self)@ == old(self)@.push(task),
    {
        self.ready_queue.push_back(task);
    }

    /// Takes the task at the front of the queue, whatever its stride, and
    /// leaves it as it is.
    pub fn fetch(&mut self) -> (res: Option<TaskControlBlock>)
        requires
            old(self).wf(),
        ensures
            final(self).wf(),
            old(self)@.len() == 0 ==> res is None && final(self)@ == old(self)@,
            old(self)@.len() > 0 ==> res == Some(old(self)@[0]) && final(self)@ == old(
                self,
            )@.remove(0),
    {
        let res = self.ready_queue.pop_front();
        proof {
            if old(self)@.len() > 0 {
                assert(old(self)@.subrange(1, old(self)@.len() as int) =~= old(self)@.remove(0));
            }
        }
        res
    }

    /// Whether `fetch_task` may be called: the stride of the task it would
    /// take can grow by that task's pass within the machine word.
    pub fn stride_fits(&self) -> (fits: bool)
        requires
            self.wf(),
        ensures
            fits == stride_fits(self@),
    {
        let n = self.ready_queue.len();
        if n == 0 {
            return true;
        }
        let i = self.pick_index();
        let task = &self.ready_queue[i];
        task.pass() <= usize::MAX - task.stride
    }

    /// The position of the task to run next.
    fn pick_index(&self) -> (min_index: usize)
        requires
            self@.len() > 0,
        ensures
            min_index == pick(self@),
            is_pick(self@, min_index as int),
    {
        let n = self.ready_queue.len();
        let mut min_stride: usize = usize::MAX;
        let mut min_index: usize = 0;
        let mut idx: usize = 0;
        while idx < n
            invariant
                n == self@.len(),
                n > 0,
                idx <= n,
                min_index < n,
                idx == 0 ==> min_index == 0 && min_stride == usize::MAX,
                idx > 0 ==> min_index < idx && min_stride == self@[min_index as int].stride,
                forall|j: int| 0 <= j < min_index ==> min_stride < (#[trigger] self@[j]).stride,
                forall|j: int| min_index < j < idx ==> min_stride <= (#[trigger] self@[j]).stride,
            decreases n - idx,
        {
            let stride = self.ready_queue[idx].stride;
            if stride < min_stride {
                min_stride = stride;
                min_index = idx;
            }
            idx = idx + 1;
        }
        proof {
            lemma_pick(self@);
        }
        min_index
    }

    /// Takes the task to run next out of the queue: the one with the least
    /// stride, the first of them in the queue where several have it. Its
    /// stride grows by its pass. `None` when the queue is empty.
    pub fn fetch_task(&mut self) -> (res: Option<TaskControlBlock>)
        requires
            old(self).wf(),
            stride_fits(old(self)@),
        ensures
            final(self).wf(),
            old(self)@.len() == 0 ==> res is None && final(self)@ == old(self)@,
            old(self)@.len() > 0 ==> {
                let i = pick(old(self)@);
                &&& is_pick(old(self)@, i)
                &&& res == Some(dispatched(old(self)@[i]))
                &&& final(self)@ == old(self)@.remove(i)
            },
    {
        if self.ready_queue.len() == 0 {
            return None;
        }
        let min_index = self.pick_index();
        let mut task = self.ready_queue.remove(min_index).unwrap();
        let pass = task.pass();
        task.stride = task.stride + pass;
        Some(task)
    }
}

/// Puts a ready task at the back of the ready queue `manager`.
pub fn add_task(manager: &mut TaskManager, task: TaskControlBlock)
    requires
        old(manager).wf(),
        task.priority >= 1,
        task.task_status == TaskStatus::Ready,
    ensures
        final(manager).wf(),
        final(manager)@ == old(manager)@.push(task),
{
    manager.add(task);
}

/// Takes the task to run next out of the ready queue `manager`, as
/// `TaskManager::fetch_task` does.
pub fn fetch_task(manager: &mut TaskManager) -> (res: Option<TaskControlBlock>)
    requires
        old(manager).wf(),
        stride_fits(old(manager)@),
    ensures
        final(manager).wf(),
        old(manager)@.len() == 0 ==> res is None && final(manager)@ == old(manager)@,
        old(manager)@.len() > 0 ==> {
            let i = pick(old(manager)@);
            &&& is_pick(old(manager)@, i)
            &&& res == Some(dispatched(old(manager)@[i]))
            &&& final(manager)@ == old(manager)@.remove(i)
        },
{
    manager.fetch_task()
}

} // verus!
