//! The syscalls that manage processes and their memory.
//!
//! Each of them works on the processor on behalf of its current task and
//! answers with one word: 0 or more for success, -1 for failure.

use vstd::prelude::*;
use crate::config::{MAX_SYSCALL_NUM, MICRO_PER_SEC, PAGE_SIZE};
use crate::mm::address::{
    lemma_page_aligned,
    lemma_page_bounds,
    lemma_page_start,
    page_ceil,
    page_floor,
    page_offset,
    VirtAddr,
    VirtPageNum,
};
use crate::mm::frame_allocator::{
    alloc_frames,
    alloc_state,
    release_state,
    FrameAllocatorView,
};
use crate::mm::memory_set::{release_all, AreaView, MapType, MemorySet, MemorySetView};
use crate::mm::page_table::{
    buffer_mapped,
    flags_of,
    lemma_segments_fill,
    segments,
    translated_byte_buffer,
    MapPermission,
    PTEFlags,
    PageTableEntry,
};
use crate::mm::user_buffer::{
    is_scatter,
    le_bytes,
    lemma_le_bytes_len,
    push_le_bytes,
    scatter,
    UserWrite,
};
use crate::task::manager::stride_fits;
use crate::task::processor::{
    holds,
    lemma_frames_shared_by_some,
    lemma_last_gave,
    lemma_last_took,
    Processor,
};
use crate::task::task::{brk_change, elapsed_since, TaskControlBlock, TaskStatus};

verus! {

/// A time: whole seconds, and the microseconds of the second that has
/// begun.
#[derive(Clone, Copy, Debug, PartialEq, Eq, Structural)]
pub struct TimeVal {
    pub sec: usize,
    pub usec: usize,
}

/// The number of bytes that a `TimeVal` takes in a task's memory.
pub const TIME_VAL_SIZE: usize = 16;

/// The time that a clock of `us` microseconds shows.
pub open spec fn time_val(us: usize) -> TimeVal {
    TimeVal { sec: us / MICRO_PER_SEC, usec: us % MICRO_PER_SEC }
}

impl TimeVal {
    /// The time that a clock of `us` microseconds shows.
    pub fn from_us(us: usize) -> (tv: TimeVal)
        ensures
            tv == time_val(us),
            tv.usec < MICRO_PER_SEC,
            tv.sec * MICRO_PER_SEC + tv.usec == us,
    {
        TimeVal { sec: us / MICRO_PER_SEC, usec: us % MICRO_PER_SEC }
    }

    /// The bytes of this time in a task's memory: the seconds as a word of
    /// 8 bytes, then the microseconds as one, each lowest byte first.
    pub open spec fn bytes(self) -> Seq<u8> {
        le_bytes(self.sec as int, 8) + le_bytes(self.usec as int, 8)
    }

    /// The bytes of this time in a task's memory.
    pub fn to_bytes(&self) -> (out: Vec<u8>)
        ensures
            out@ == self.bytes(),
            out@.len() == TIME_VAL_SIZE,
    {
        let mut out: Vec<u8> = Vec::new();
        push_le_bytes(&mut out, self.sec as u64, 8);
        push_le_bytes(&mut out, self.usec as u64, 8);
        proof {
            lemma_le_bytes_len(self.sec as int, 8);
            lemma_le_bytes_len(self.usec as int, 8);
            assert(out@ =~= self.bytes());
        }
        out
    }
}

/// A clock that has not gone back shows a time that is not earlier: more
/// seconds, or as many and no fewer microseconds.
pub proof fn lemma_time_monotonic(earlier: usize, later: usize)
    requires
        earlier <= later,
    ensures
        time_val(earlier).sec < time_val(later).sec || (time_val(earlier).sec == time_val(
            later,
        ).sec && time_val(earlier).usec <= time_val(later).usec),
        time_val(earlier).usec < MICRO_PER_SEC,
        time_val(later).usec < MICRO_PER_SEC,
{
}

/// What a task may learn about itself.
#[derive(Clone, Copy, Debug)]
pub struct TaskInfo {
    /// Where the task stands in its life.
    pub status: TaskStatus,
    /// For each syscall id, how often the task has made that call.
    pub syscall_times: [u32; MAX_SYSCALL_NUM],
    /// The time, in microseconds, since the task first got the processor.
    pub time: usize,
}

/// The number of bytes that a `TaskInfo` takes in a task's memory.
pub const TASK_INFO_SIZE: usize = 2016;

/// The byte that stands for a status in a task's memory.
pub open spec fn status_code(status: TaskStatus) -> u8 {
    match status {
        TaskStatus::Ready => 1,
        TaskStatus::Running => 2,
        TaskStatus::Exited => 3,
    }
}

/// The bytes of the first `n` of the counters `counts`: each as a word of
/// 4 bytes, lowest byte first.
pub open spec fn count_bytes(counts: Seq<u32>, n: nat) -> Seq<u8>
    decreases n,
{
    if n == 0 {
        Seq::empty()
    } else {
        count_bytes(counts, (n - 1) as nat) + le_bytes(counts[n - 1] as int, 4)
    }
}

/// The bytes of `n` counters are four times as many.
pub proof fn lemma_count_bytes_len(counts: Seq<u32>, n: nat)
    ensures
        count_bytes(counts, n).len() == 4 * n,
    decreases n,
{
    if n > 0 {
        lemma_count_bytes_len(counts, (n - 1) as nat);
        lemma_le_bytes_len(counts[n - 1] as int, 4);
    }
}

impl TaskInfo {
    /// The bytes of this information in a task's memory: the status code
    /// in a word of 4 bytes, the counters in syscall order, 4 bytes that
    /// are zero, and the time as a word of 8 bytes.
    pub open spec fn bytes(self) -> Seq<u8> {
        seq![status_code(self.status), 0u8, 0u8, 0u8] + count_bytes(
            self.syscall_times@,
            MAX_SYSCALL_NUM as nat,
        ) + seq![0u8, 0u8, 0u8, 0u8] + le_bytes(self.time as int, 8)
    }

    /// The bytes of this information in a task's memory.
    pub fn to_bytes(&self) -> (out: Vec<u8>)
        ensures
            out@ == self.bytes(),
            out@.len() == TASK_INFO_SIZE,
    {
        let code: u8 = match self.status {
            TaskStatus::Ready => 1,
            TaskStatus::Running => 2,
            TaskStatus::Exited => 3,
        };
        let mut out: Vec<u8> = Vec::new();
        out.push(code);
        out.push(0);
        out.push(0);
        out.push(0);
        let ghost head = out@;
        proof {
            assert(head =~= seq![status_code(self.status), 0u8, 0u8, 0u8]);
            assert(out@ =~= head + count_bytes(self.syscall_times@, 0));
        }
        let mut i: usize = 0;
        while i < MAX_SYSCALL_NUM
            invariant
                i <= MAX_SYSCALL_NUM,
                out@ == head + count_bytes(self.syscall_times@, i as nat),
            decreases MAX_SYSCALL_NUM - i,
        {
            let ghost before = out@;
            push_le_bytes(&mut out, self.syscall_times[i] as u64, 4);
            proof {
                let word = le_bytes(self.syscall_times@[i as int] as int, 4);
                let done = count_bytes(self.syscall_times@, i as nat);
                assert(count_bytes(self.syscall_times@, (i + 1) as nat) == done + word);
                assert((head + done) + word =~= head + (done + word));
            }
            i = i + 1;
        }
        out.push(0);
        out.push(0);
        out.push(0);
        out.push(0);
        proof {
            assert(out@ =~= head + count_bytes(self.syscall_times@, MAX_SYSCALL_NUM as nat)
                + seq![0u8, 0u8, 0u8, 0u8]);
        }
        push_le_bytes(&mut out, self.time as u64, 8);
        proof {
            lemma_count_bytes_len(self.syscall_times@, MAX_SYSCALL_NUM as nat);
            lemma_le_bytes_len(self.time as int, 8);
        }
        out
    }
}

/// What `task` may learn about itself at time `now`.
pub open spec fn task_info(task: TaskControlBlock, now: usize) -> TaskInfo {
    TaskInfo {
        status: task.task_status,
        syscall_times: task.syscall_times,
        time: elapsed_since(task.first_run, now),
    }
}

/// What the current task may learn about itself at time `now`; `None`
/// where no task runs.
pub fn get_current_task_info(processor: &Processor, now: usize) -> (res: Option<TaskInfo>)
    ensures
        res == match processor.current {
            Some(task) => Some(task_info(task, now)),
            None => None,
        },
{
    match &processor.current {
        None => None,
        Some(task) => Some(
            TaskInfo {
                status: task.task_status,
                syscall_times: task.syscall_times,
                time: task.running_time(now),
            },
        ),
    }
}

/// Whether `port` is a permission request that `sys_mmap` takes: no bit
/// but the lowest three is set, and one of those is.
pub open spec fn port_valid(port: usize) -> bool {
    port & !0x7 == 0 && port & 0x7 != 0
}

/// The permission that `port` asks for: bit 0 for reading, bit 1 for
/// writing, bit 2 for executing; access from user mode in any case.
pub open spec fn port_permission(port: usize) -> MapPermission {
    MapPermission { r: port & 1 != 0, w: port & 2 != 0, x: port & 4 != 0, u: true }
}

/// Whether the pages from address `start` on that `len` bytes need end
/// within the address space.
pub open spec fn range_fits(start: usize, len: usize) -> bool {
    start + page_ceil(len as int) * PAGE_SIZE <= usize::MAX
}

/// The first page of a request that starts at address `start`.
pub open spec fn first_page(start: usize) -> usize {
    page_floor(start as int) as usize
}

/// The page after the last page of a request for `len` bytes from address
/// `start`.
pub open spec fn end_page(start: usize, len: usize) -> usize {
    (page_floor(start as int) + page_ceil(len as int)) as usize
}

/// Whether `sys_mmap` grants the request: `start` is page aligned, `port`
/// is valid, and, unless no page is asked for, the pages end within the
/// address space, are in no region's way, and there is a free frame for
/// each.
pub open spec fn mmap_accepts(
    ms: MemorySetView,
    a: FrameAllocatorView,
    start: usize,
    len: usize,
    port: usize,
) -> bool {
    &&& page_offset(start as int) == 0
    &&& port_valid(port)
    &&& page_ceil(len as int) > 0 ==> {
        &&& range_fits(start, len)
        &&& !ms.conflicts(first_page(start), end_page(start, len))
        &&& a.free_count() >= page_ceil(len as int)
    }
}

/// The region that a granted request makes, with frames out of `a`.
pub open spec fn mmap_region(a: FrameAllocatorView, start: usize, len: usize, port: usize) -> AreaView {
    AreaView {
        start: first_page(start),
        end: end_page(start, len),
        map_type: MapType::Framed,
        perm: port_permission(port),
        frames: alloc_frames(a, page_ceil(len as int) as nat),
    }
}

/// Whether `sys_munmap` grants the request: `start` is page aligned, and,
/// unless no page is named, the pages end within the address space and
/// are exactly the pages of one region.
pub open spec fn munmap_accepts(ms: MemorySetView, start: usize, len: usize) -> bool {
    &&& page_offset(start as int) == 0
    &&& page_ceil(len as int) > 0 ==> {
        &&& range_fits(start, len)
        &&& exists|i: int| ms.spans(i, first_page(start), end_page(start, len))
    }
}

/// The region that a granted request takes away.
pub open spec fn munmap_index(ms: MemorySetView, start: usize, len: usize) -> int {
    choose|i: int| ms.spans(i, first_page(start), end_page(start, len))
}

/// The valid permission requests are the numbers from 1 to 7.
pub proof fn lemma_port_valid(port: usize)
    ensures
        port_valid(port) <==> 1 <= port <= 7,
{
    assert((port & !0x7 == 0 && port & 0x7 != 0) <==> (1 <= port && port <= 7)) by (bit_vector);
}

/// A region that a granted request makes gives each of its pages exactly
/// what the request asks for: the page is mapped and valid, open to user
/// mode, and may be read, written and executed as bits 0, 1 and 2 of
/// `port` say. Every page that was mapped before stays mapped as it was.
pub proof fn lemma_mmap_permissions(
    ms: MemorySetView,
    a: FrameAllocatorView,
    start: usize,
    len: usize,
    port: usize,
    vpn: usize,
)
    requires
        ms.wf(),
        mmap_accepts(ms, a, start, len, port),
        page_ceil(len as int) > 0,
    ensures
        first_page(start) <= vpn < end_page(start, len) ==> {
            let after = ms.push_area(mmap_region(a, start, len, port));
            &&& after.table.contains_key(vpn)
            &&& after.table[vpn].flags == (PTEFlags {
                v: true,
                r: port & 1 != 0,
                w: port & 2 != 0,
                x: port & 4 != 0,
                u: true,
            })
        },
        ms.table.contains_key(vpn) ==> {
            let after = ms.push_area(mmap_region(a, start, len, port));
            &&& after.table.contains_key(vpn)
            &&& after.table[vpn] == ms.table[vpn]
        },
{
    if ms.table.contains_key(vpn) {
        let i = choose|i: int| ms.covers(i, vpn);
        assert(ms.covers(i, vpn));
        if first_page(start) <= vpn < end_page(start, len) {
            assert(ms.areas[i].conflicts(first_page(start), end_page(start, len)));
        }
    }
}

/// In a well-formed address space every page of every region is mapped
/// with the permission of its region, whatever other regions there are.
pub proof fn lemma_region_permissions(ms: MemorySetView, i: int, vpn: usize)
    requires
        ms.wf(),
        ms.covers(i, vpn),
    ensures
        ms.table.contains_key(vpn),
        ms.table[vpn].flags == flags_of(ms.areas[i].perm),
{
}

/// A request for a page that a region holds already is refused.
pub proof fn lemma_mmap_rejects_overlap(
    ms: MemorySetView,
    a: FrameAllocatorView,
    start: usize,
    len: usize,
    port: usize,
    i: int,
    vpn: usize,
)
    requires
        ms.covers(i, vpn),
        first_page(start) <= vpn < end_page(start, len),
    ensures
        !mmap_accepts(ms, a, start, len, port),
{
    assert(ms.areas[i].conflicts(first_page(start), end_page(start, len)));
    lemma_page_bounds(len as int);
}

/// A request to unmap at least one page is granted only for the exact
/// pages of one region: it is refused where every region begins or ends
/// at another page than the request.
pub proof fn lemma_munmap_needs_exact(ms: MemorySetView, start: usize, len: usize)
    requires
        page_ceil(len as int) > 0,
        forall|i: int|
            0 <= i < ms.areas.len() ==> (#[trigger] ms.areas[i]).start != first_page(start)
                || ms.areas[i].end != end_page(start, len),
    ensures
        !munmap_accepts(ms, start, len),
{
    assert forall|i: int| !ms.spans(i, first_page(start), end_page(start, len)) by {
        if ms.spans(i, first_page(start), end_page(start, len)) {
            assert(ms.areas[i].start == first_page(start));
        }
    }
}

/// The page after the last page of the request, where the request ends
/// within the address space.
fn request_end(start: usize, len: usize) -> (res: Option<usize>)
    requires
        page_offset(start as int) == 0,
    ensures
        res is Some <==> range_fits(start, len),
        res is Some ==> res->0 == end_page(start, len) && res->0 * PAGE_SIZE <= usize::MAX,
{
    let pages = VirtAddr(len).ceil().0;
    proof {
        lemma_page_aligned(start as int);
    }
    match pages.checked_mul(PAGE_SIZE) {
        None => None,
        Some(bytes) => match start.checked_add(bytes) {
            None => None,
            Some(end) => Some(end / PAGE_SIZE),
        },
    }
}

/// Maps `len` bytes from address `start`, rounded up to whole pages, as a
/// new region of the current task with the permission that `port` asks
/// for. Returns 0 when the request is granted, else -1; a refused request
/// and one for no page change nothing.
pub fn sys_mmap(processor: &mut Processor, start: usize, len: usize, port: usize) -> (ret: isize)
    requires
        old(processor).wf(),
    ensures
        final(processor).wf(),
        ret == 0 || ret == -1,
        ret == 0 <==> old(processor).current is Some && mmap_accepts(
            old(processor).current->0.memory_set@,
            old(processor).frames@,
            start,
            len,
            port,
        ),
        ret == -1 || page_ceil(len as int) == 0 ==> *final(processor) == *old(processor),
        ret == 0 && page_ceil(len as int) > 0 ==> {
            &&& final(processor).manager == old(processor).manager
            &&& final(processor).current is Some
            &&& final(processor).current->0 == (TaskControlBlock {
                memory_set: final(processor).current->0.memory_set,
                ..old(processor).current->0
            })
            &&& final(processor).current->0.memory_set@ == old(
                processor,
            ).current->0.memory_set@.push_area(
                mmap_region(old(processor).frames@, start, len, port),
            )
            &&& final(processor).frames@ == alloc_state(
                old(processor).frames@,
                page_ceil(len as int) as nat,
            )
        },
{
    if start % PAGE_SIZE != 0 {
        return -1;
    }
    if port & !0x7 != 0 {
        return -1;
    }
    if port & 0x7 == 0 {
        return -1;
    }
    let permission = MapPermission {
        r: port & 1 != 0,
        w: port & 2 != 0,
        x: port & 4 != 0,
        u: true,
    };
    let pages = VirtAddr(len).ceil().0;
    let ghost tasks0 = processor.tasks();
    let ghost a0 = processor.frames@;
    let cur = processor.current.take();
    match cur {
        None => -1,
        Some(mut task) => {
            if pages == 0 {
                processor.current = Some(task);
                return 0;
            }
            let ghost task0 = task;
            let ghost last = processor.manager@.len() as int;
            assert(tasks0[last] == task0);
            assert(tasks0[last].wf());
            let start_vpn = VirtAddr(start).floor();
            let end_vpn = match request_end(start, len) {
                None => {
                    processor.current = Some(task);
                    return -1;
                },
                Some(end) => VirtPageNum(end),
            };
            if task.memory_set.conflicts(start_vpn, end_vpn) {
                processor.current = Some(task);
                return -1;
            }
            if processor.frames.free_frames() < pages {
                processor.current = Some(task);
                return -1;
            }
            proof {
                lemma_page_start(end_vpn.0 as int);
                assert forall|ppn: usize| #[trigger]
                    task.memory_set@.owns_frame(ppn) implies a0.is_allocated(ppn) by {
                    assert(holds(tasks0, last, ppn));
                }
            }
            task.memory_set.insert_framed_area(
                VirtAddr(start),
                VirtAddr(end_vpn.0 * PAGE_SIZE),
                permission,
                &mut processor.frames,
            );
            processor.current = Some(task);
            proof {
                lemma_last_took(tasks0, a0, processor.tasks(), processor.frames@);
            }
            0
        },
    }
}

/// Unmaps `len` bytes from address `start`, rounded up to whole pages.
/// The pages must be exactly those of one region of the current task:
/// that region goes, with its pages and frames. Returns 0 when the request
/// is granted, else -1; a refused request and one for no page change
/// nothing.
pub fn sys_munmap(processor: &mut Processor, start: usize, len: usize) -> (ret: isize)
    requires
        old(processor).wf(),
    ensures
        final(processor).wf(),
        ret == 0 || ret == -1,
        ret == 0 <==> old(processor).current is Some && munmap_accepts(
            old(processor).current->0.memory_set@,
            start,
            len,
        ),
        ret == -1 || page_ceil(len as int) == 0 ==> *final(processor) == *old(processor),
        ret == 0 && page_ceil(len as int) > 0 ==> {
            let ms = old(processor).current->0.memory_set@;
            let idx = munmap_index(ms, start, len);
            &&& ms.spans(idx, first_page(start), end_page(start, len))
            &&& final(processor).manager == old(processor).manager
            &&& final(processor).current is Some
            &&& final(processor).current->0 == (TaskControlBlock {
                memory_set: final(processor).current->0.memory_set,
                ..old(processor).current->0
            })
            &&& final(processor).current->0.memory_set@ == ms.remove_area(idx)
            &&& final(processor).frames@ == release_state(
                old(processor).frames@,
                ms.areas[idx].frames,
            )
        },
{
    if start % PAGE_SIZE != 0 {
        return -1;
    }
    let pages = VirtAddr(len).ceil().0;
    let ghost tasks0 = processor.tasks();
    let ghost a0 = processor.frames@;
    let cur = processor.current.take();
    match cur {
        None => -1,
        Some(mut task) => {
            if pages == 0 {
                processor.current = Some(task);
                return 0;
            }
            let ghost task0 = task;
            let ghost ms0 = task.memory_set@;
            let ghost last = processor.manager@.len() as int;
            assert(tasks0[last] == task0);
            assert(tasks0[last].wf());
            let start_vpn = VirtAddr(start).floor();
            let end_vpn = match request_end(start, len) {
                None => {
                    processor.current = Some(task);
                    return -1;
                },
                Some(end) => VirtPageNum(end),
            };
            let idx = match task.memory_set.find_area(start_vpn, end_vpn) {
                None => {
                    proof {
                        assert(start_vpn.0 == first_page(start));
                        assert(end_vpn.0 == end_page(start, len));
                        assert(forall|i: int| !ms0.spans(i, first_page(start), end_page(start, len)));
                    }
                    processor.current = Some(task);
                    return -1;
                },
                Some(idx) => idx,
            };
            proof {
                task.memory_set.lemma_wf();
                lemma_span_unique(ms0, start_vpn.0, end_vpn.0, idx as int);
                assert forall|ppn: usize| #[trigger]
                    task.memory_set@.owns_frame(ppn) implies a0.is_allocated(ppn) by {
                    assert(holds(tasks0, last, ppn));
                }
            }
            task.memory_set.remove_area(idx, &mut processor.frames);
            processor.current = Some(task);
            proof {
                lemma_last_gave(tasks0, a0, processor.tasks(), processor.frames@);
            }
            0
        },
    }
}

/// In a well-formed address space at most one region spans a given run of
/// at least one page.
pub proof fn lemma_span_unique(ms: MemorySetView, start: usize, end: usize, i: int)
    requires
        ms.wf(),
        start < end,
        ms.spans(i, start, end),
    ensures
        forall|j: int| ms.spans(j, start, end) ==> j == i,
{
    assert forall|j: int| ms.spans(j, start, end) implies j == i by {
        if j != i {
            assert(ms.clash(i, j));
        }
    }
}

/// The writes that hand `bytes` to the current task at address `ptr`, cut
/// along the frames behind the buffer. There are none, and the answer is
/// -1, where no task runs or the buffer is not wholly mapped.
fn copy_to_user(processor: &Processor, ptr: usize, bytes: &Vec<u8>) -> (res: (
    isize,
    Vec<UserWrite>,
))
    requires
        processor.wf(),
    ensures
        user_copy(processor, ptr, bytes@, res),
{
    match &processor.current {
        None => (-1, Vec::new()),
        Some(task) => {
            proof {
                let last = processor.manager@.len() as int;
                assert(processor.tasks()[last] == *task);
                assert(processor.tasks()[last].wf());
            }
            let segs = translated_byte_buffer(task.memory_set.page_table(), ptr, bytes.len());
            if segs.len() == 0 {
                proof {
                    if bytes@.len() > 0 && ptr + bytes@.len() <= usize::MAX {
                        lemma_segments_fill(
                            task.memory_set@.table,
                            ptr as int,
                            ptr + bytes@.len(),
                            0,
                        );
                    }
                }
                return (-1, Vec::new());
            }
            proof {
                let table = task.memory_set@.table;
                let end = ptr + bytes@.len();
                assert forall|k: int| 0 <= k < segs@.len() implies (#[trigger] segs@[k]).start
                    <= segs@[k].end by {
                    lemma_segments_fill(table, ptr as int, end, k);
                }
                lemma_segments_fill(table, ptr as int, end, segs@.len() as int);
            }
            match scatter(&segs, bytes) {
                None => (-1, Vec::new()),
                Some(writes) => (0, writes),
            }
        },
    }
}

/// What handing `bytes` to the current task at address `ptr` comes to:
/// the answer 0 and the writes that lay the bytes along the frames behind
/// the buffer, or the answer -1 and no write where no task runs or the
/// buffer is not wholly mapped.
pub open spec fn user_copy(
    processor: &Processor,
    ptr: usize,
    bytes: Seq<u8>,
    res: (isize, Vec<UserWrite>),
) -> bool {
    if processor.current is Some && buffer_mapped(
        processor.current->0.memory_set@.table,
        ptr,
        bytes.len() as usize,
    ) {
        &&& res.0 == 0
        &&& is_scatter(
            res.1@,
            segments(processor.current->0.memory_set@.table, ptr as int, ptr + bytes.len()),
            bytes,
        )
    } else {
        &&& res.0 == -1
        &&& res.1@.len() == 0
    }
}

/// Gives the current task the time of a clock that shows `now`
/// microseconds: the writes that put a `TimeVal` at address `ts` of its
/// memory, with the answer 0; or the answer -1 and no write where no task
/// runs or the 16 bytes from `ts` are not wholly mapped. The second
/// argument is not used.
pub fn sys_get_time(processor: &Processor, ts: usize, _tz: usize, now: usize) -> (res: (
    isize,
    Vec<UserWrite>,
))
    requires
        processor.wf(),
    ensures
        user_copy(processor, ts, time_val(now).bytes(), res),
        time_val(now).bytes().len() == TIME_VAL_SIZE,
{
    let tv = TimeVal::from_us(now);
    let bytes = tv.to_bytes();
    copy_to_user(processor, ts, &bytes)
}

/// Gives the current task what it may learn about itself at time `now`:
/// the writes that put a `TaskInfo` at address `ti` of its memory, with
/// the answer 0; or the answer -1 and no write where no task runs or the
/// bytes from `ti` are not wholly mapped.
pub fn sys_task_info(processor: &Processor, ti: usize, now: usize) -> (res: (
    isize,
    Vec<UserWrite>,
))
    requires
        processor.wf(),
    ensures
        processor.current is None ==> res.0 == -1 && res.1@.len() == 0,
        processor.current is Some ==> user_copy(
            processor,
            ti,
            task_info(processor.current->0, now).bytes(),
            res,
        ) && task_info(processor.current->0, now).bytes().len() == TASK_INFO_SIZE,
{
    match get_current_task_info(processor, now) {
        None => (-1, Vec::new()),
        Some(info) => {
            let bytes = info.to_bytes();
            copy_to_user(processor, ti, &bytes)
        },
    }
}

/// The current task gives up the processor: it joins the ready queue at
/// the back, and the task that the queue then puts forward runs, as of
/// time `now`. Returns 0.
pub fn sys_yield(processor: &mut Processor, now: usize) -> (ret: isize)
    requires
        old(processor).wf(),
        stride_fits(old(processor).yield_queue()),
    ensures
        final(processor).wf(),
        ret == 0,
        final(processor).dispatched_from(old(processor).yield_queue(), now),
        final(processor).frames == old(processor).frames,
{
    let ghost all = processor.tasks();
    let ghost a = processor.frames@;
    let ghost last = processor.manager@.len() as int;
    match processor.current.take() {
        None => {},
        Some(mut task) => {
            proof {
                assert(all[last] == task);
                assert(all[last].wf());
            }
            task.task_status = TaskStatus::Ready;
            processor.manager.add(task);
            proof {
                let some = processor.tasks();
                let from = |j: int| j;
                assert forall|j: int| 0 <= j < some.len() implies 0 <= #[trigger] from(j)
                    < all.len() && some[j].memory_set == all[from(j)].memory_set
                    && some[j].wf() by {
                    assert(all[j].wf());
                }
                lemma_frames_shared_by_some(all, some, a, from);
            }
        },
    }
    processor.run_next(now);
    0
}

/// `task` as it is once it has exited with `exit_code`: its memory image
/// is `memory_set`, which is the empty one.
pub open spec fn exited(
    task: TaskControlBlock,
    exit_code: i32,
    memory_set: MemorySet,
) -> TaskControlBlock {
    TaskControlBlock { task_status: TaskStatus::Exited, exit_code, memory_set, ..task }
}

/// The current task exits with `exit_code`: its regions are unmapped and
/// their frames given back, and the task that the ready queue puts
/// forward runs, as of time `now`. Returns the task that has exited, with
/// nothing mapped any more; `None` where no task ran.
pub fn sys_exit(processor: &mut Processor, exit_code: i32, now: usize) -> (res: Option<
    TaskControlBlock,
>)
    requires
        old(processor).wf(),
        stride_fits(old(processor).manager@),
    ensures
        final(processor).wf(),
        final(processor).dispatched_from(old(processor).manager@, now),
        res is Some <==> old(processor).current is Some,
        res is None ==> final(processor).frames == old(processor).frames,
        res is Some ==> {
            let task = old(processor).current->0;
            &&& res->0 == exited(task, exit_code, res->0.memory_set)
            &&& res->0.memory_set@.areas == Seq::<AreaView>::empty()
            &&& res->0.memory_set@.table == Map::<usize, PageTableEntry>::empty()
            &&& final(processor).frames@ == release_all(
                old(processor).frames@,
                task.memory_set@.areas,
            )
            &&& forall|ppn: usize|
                final(processor).frames@.is_allocated(ppn) <==> old(processor).frames@.is_allocated(
                    ppn,
                ) && !task.memory_set@.owns_frame(ppn)
        },
{
    let ghost all = processor.tasks();
    let ghost a = processor.frames@;
    let ghost last = processor.manager@.len() as int;
    let res = match processor.current.take() {
        None => None,
        Some(mut task) => {
            proof {
                assert(all[last] == task);
                assert(all[last].wf());
                assert forall|ppn: usize| #[trigger]
                    task.memory_set@.owns_frame(ppn) implies a.is_allocated(ppn) by {
                    assert(holds(all, last, ppn));
                }
            }
            task.task_status = TaskStatus::Exited;
            task.exit_code = exit_code;
            task.memory_set.recycle_data_pages(&mut processor.frames);
            proof {
                let some = processor.tasks();
                let a1 = processor.frames@;
                assert forall|i: int| 0 <= i < some.len() implies (#[trigger] some[i]).wf() by {
                    assert(some[i] == all[i]);
                    assert(all[i].wf());
                }
                assert forall|i: int, ppn: usize| #[trigger]
                    holds(some, i, ppn) implies a1.is_allocated(ppn) by {
                    assert(holds(all, i, ppn));
                    if all[last].memory_set@.owns_frame(ppn) {
                        assert(holds(all, last, ppn));
                    }
                }
                assert forall|i: int, j: int, ppn: usize|
                    #[trigger] holds(some, i, ppn) && #[trigger] holds(
                        some,
                        j,
                        ppn,
                    ) implies i == j by {
                    assert(holds(all, i, ppn));
                    assert(holds(all, j, ppn));
                }
            }
            Some(task)
        },
    };
    processor.run_next(now);
    res
}

/// Moves the program break of the current task by `size` bytes, up or
/// down; the heap grows or shrinks by whole pages to follow it. Returns
/// the break as it was, or -1 where no task runs or the move cannot be
/// done; then nothing has changed.
pub fn sys_sbrk(processor: &mut Processor, size: i32) -> (ret: isize)
    requires
        old(processor).wf(),
    ensures
        final(processor).wf(),
        final(processor).manager == old(processor).manager,
        old(processor).current is None ==> ret == -1 && *final(processor) == *old(processor),
        old(processor).current is Some ==> {
            let task = old(processor).current->0;
            &&& final(processor).current is Some
            &&& final(processor).current->0 == (TaskControlBlock {
                program_brk: final(processor).current->0.program_brk,
                memory_set: final(processor).current->0.memory_set,
                ..task
            })
            &&& match brk_change(
                task.memory_set@,
                old(processor).frames@,
                task.heap_bottom,
                task.program_brk,
                size,
            ) {
                Some((ms, a)) => {
                    &&& ret == task.program_brk
                    &&& final(processor).current->0.program_brk == task.program_brk + size
                    &&& final(processor).current->0.memory_set@ == ms
                    &&& final(processor).frames@ == a
                },
                None => {
                    &&& ret == -1
                    &&& final(processor).current->0.program_brk == task.program_brk
                    &&& final(processor).current->0.memory_set@ == task.memory_set@
                    &&& final(processor).frames@ == old(processor).frames@
                },
            }
        },
{
    let ghost tasks0 = processor.tasks();
    let ghost a0 = processor.frames@;
    let ghost last = processor.manager@.len() as int;
    match processor.current.take() {
        None => -1,
        Some(mut task) => {
            proof {
                assert(tasks0[last] == task);
                assert(tasks0[last].wf());
                assert forall|ppn: usize| #[trigger]
                    task.memory_set@.owns_frame(ppn) implies a0.is_allocated(ppn) by {
                    assert(holds(tasks0, last, ppn));
                }
            }
            let res = task.change_program_brk(size, &mut processor.frames);
            processor.current = Some(task);
            proof {
                if size < 0 {
                    lemma_last_gave(tasks0, a0, processor.tasks(), processor.frames@);
                } else {
                    lemma_last_took(tasks0, a0, processor.tasks(), processor.frames@);
                }
            }
            match res {
                Some(old_brk) => old_brk as isize,
                None => -1,
            }
        },
    }
}

} // verus!
