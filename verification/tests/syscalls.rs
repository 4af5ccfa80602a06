use os::config::{BIG_STRIDE, DEFAULT_PRIORITY, MAX_SYSCALL_NUM, PAGE_SIZE};
use os::mm::address::{PhysPageNum, VirtPageNum};
use os::mm::frame_allocator::StackFrameAllocator;
use os::mm::page_table::ByteSegment;
use os::mm::user_buffer::{push_le_bytes, scatter};
use os::syscall::process::{
    get_current_task_info, sys_exit, sys_get_time, sys_mmap, sys_task_info, sys_yield, TaskInfo,
    TimeVal,
    TASK_INFO_SIZE, TIME_VAL_SIZE,
};
use os::task::processor::Processor;
use os::task::task::{TaskStatus, TrapContext};

fn processor_with_tasks(count: usize, frames: usize) -> Processor {
    let allocator = StackFrameAllocator::new(PhysPageNum(0x200), PhysPageNum(0x200 + frames));
    let mut processor = Processor::new(allocator);
    for i in 0..count {
        assert!(processor.spawn(TrapContext::app_init_context(0x1000 * (i + 1), 0x7000), 0x80000));
    }
    processor.run_next(100);
    processor
}

fn frame_of(processor: &Processor, vpn: usize) -> PhysPageNum {
    processor.current.as_ref().unwrap().memory_set.translate(VirtPageNum(vpn)).unwrap().ppn()
}

#[test]
fn time_splits_into_seconds_and_microseconds() {
    assert_eq!(TimeVal::from_us(0), TimeVal { sec: 0, usec: 0 });
    assert_eq!(TimeVal::from_us(999_999), TimeVal { sec: 0, usec: 999_999 });
    assert_eq!(TimeVal::from_us(1_000_000), TimeVal { sec: 1, usec: 0 });
    assert_eq!(TimeVal::from_us(3_500_042), TimeVal { sec: 3, usec: 500_042 });
    let last = TimeVal::from_us(usize::MAX);
    assert!(last.usec < 1_000_000);
    assert_eq!(last.sec, usize::MAX / 1_000_000);
}

#[test]
fn time_never_goes_back_when_the_clock_does_not() {
    let samples = [0usize, 1, 999_999, 1_000_000, 1_000_001, 1_999_999, 2_000_000, 77_123_456];
    for pair in samples.windows(2) {
        let a = TimeVal::from_us(pair[0]);
        let b = TimeVal::from_us(pair[1]);
        assert!(a.usec < 1_000_000 && b.usec < 1_000_000);
        assert!((a.sec, a.usec) <= (b.sec, b.usec));
    }
}

#[test]
fn time_val_bytes_are_two_little_endian_words() {
    let bytes = TimeVal { sec: 0x0102, usec: 0x0a0b0c }.to_bytes();
    assert_eq!(bytes.len(), TIME_VAL_SIZE);
    assert_eq!(bytes, vec![0x02, 0x01, 0, 0, 0, 0, 0, 0, 0x0c, 0x0b, 0x0a, 0, 0, 0, 0, 0]);
}

#[test]
fn push_le_bytes_appends_the_low_bytes_lowest_first() {
    let mut out = vec![0xee];
    push_le_bytes(&mut out, 0x1122334455667788, 8);
    assert_eq!(out, vec![0xee, 0x88, 0x77, 0x66, 0x55, 0x44, 0x33, 0x22, 0x11]);
    let mut out = Vec::new();
    push_le_bytes(&mut out, 0x1122334455667788, 3);
    assert_eq!(out, vec![0x88, 0x77, 0x66]);
    push_le_bytes(&mut out, 5, 0);
    assert_eq!(out.len(), 3);
    push_le_bytes(&mut out, 0x0100, 4);
    assert_eq!(out, vec![0x88, 0x77, 0x66, 0, 1, 0, 0]);
}

#[test]
fn scatter_cuts_the_bytes_along_the_segments() {
    let segs = vec![
        ByteSegment { ppn: PhysPageNum(9), start: 0xffd, end: 0x1000 },
        ByteSegment { ppn: PhysPageNum(4), start: 0, end: 2 },
    ];
    let writes = scatter(&segs, &vec![1, 2, 3, 4, 5]).unwrap();
    assert_eq!(writes.len(), 2);
    assert_eq!(writes[0].ppn, PhysPageNum(9));
    assert_eq!(writes[0].offset, 0xffd);
    assert_eq!(writes[0].bytes, vec![1, 2, 3]);
    assert_eq!(writes[1].ppn, PhysPageNum(4));
    assert_eq!(writes[1].offset, 0);
    assert_eq!(writes[1].bytes, vec![4, 5]);
    assert!(scatter(&segs, &vec![1, 2, 3, 4]).is_none());
    assert!(scatter(&segs, &vec![1, 2, 3, 4, 5, 6]).is_none());
    let reversed = vec![ByteSegment { ppn: PhysPageNum(9), start: 5, end: 4 }];
    assert!(scatter(&reversed, &Vec::new()).is_none());
    assert_eq!(scatter(&Vec::new(), &Vec::new()).unwrap().len(), 0);
}

#[test]
fn get_time_writes_the_time_into_one_page() {
    let mut processor = processor_with_tasks(1, 8);
    assert_eq!(sys_mmap(&mut processor, 0x10000, PAGE_SIZE, 3), 0);
    let (ret, writes) = sys_get_time(&processor, 0x10020, 0, 3_500_042);
    assert_eq!(ret, 0);
    assert_eq!(writes.len(), 1);
    assert_eq!(writes[0].ppn, frame_of(&processor, 0x10));
    assert_eq!(writes[0].offset, 0x20);
    assert_eq!(writes[0].bytes, TimeVal { sec: 3, usec: 500_042 }.to_bytes());
    assert_eq!(&writes[0].bytes[..8], &3u64.to_le_bytes());
    assert_eq!(&writes[0].bytes[8..], &500_042u64.to_le_bytes());
}

#[test]
fn get_time_splits_a_value_that_straddles_two_pages() {
    let mut processor = processor_with_tasks(1, 8);
    assert_eq!(sys_mmap(&mut processor, 0x10000, 2 * PAGE_SIZE, 3), 0);
    let (ret, writes) = sys_get_time(&processor, 0x10ffa, 99, 7_000_001);
    assert_eq!(ret, 0);
    assert_eq!(writes.len(), 2);
    let all = TimeVal { sec: 7, usec: 1 }.to_bytes();
    assert_eq!(writes[0].ppn, frame_of(&processor, 0x10));
    assert_eq!(writes[0].offset, 0xffa);
    assert_eq!(writes[0].bytes, all[..6].to_vec());
    assert_eq!(writes[1].ppn, frame_of(&processor, 0x11));
    assert_eq!(writes[1].offset, 0);
    assert_eq!(writes[1].bytes, all[6..].to_vec());
    assert_ne!(writes[0].ppn, writes[1].ppn);
}

#[test]
fn get_time_fails_on_an_unmapped_buffer() {
    let mut processor = processor_with_tasks(1, 8);
    assert_eq!(sys_mmap(&mut processor, 0x10000, PAGE_SIZE, 3), 0);
    let (ret, writes) = sys_get_time(&processor, 0x10ff8, 0, 5);
    assert_eq!(ret, -1);
    assert!(writes.is_empty());
    let (ret, writes) = sys_get_time(&processor, 0x40000, 0, 5);
    assert_eq!(ret, -1);
    assert!(writes.is_empty());
    let (ret, _) = sys_get_time(&processor, usize::MAX - 7, 0, 5);
    assert_eq!(ret, -1);
    let (ret, _) = sys_get_time(&processor, 0x10ff0, 0, 5);
    assert_eq!(ret, 0);
}

#[test]
fn get_time_and_task_info_fail_when_no_task_runs() {
    let processor = processor_with_tasks(0, 8);
    assert!(processor.current.is_none());
    let (ret, writes) = sys_get_time(&processor, 0x10000, 0, 5);
    assert_eq!(ret, -1);
    assert!(writes.is_empty());
    let (ret, writes) = sys_task_info(&processor, 0x10000, 5);
    assert_eq!(ret, -1);
    assert!(writes.is_empty());
}

#[test]
fn task_info_bytes_hold_status_counters_and_time() {
    let mut counts = [0u32; MAX_SYSCALL_NUM];
    counts[0] = 1;
    counts[64] = 0x01020304;
    counts[MAX_SYSCALL_NUM - 1] = u32::MAX;
    let info = TaskInfo { status: TaskStatus::Running, syscall_times: counts, time: 0x1234 };
    let bytes = info.to_bytes();
    assert_eq!(bytes.len(), TASK_INFO_SIZE);
    assert_eq!(&bytes[..4], &[2, 0, 0, 0]);
    assert_eq!(&bytes[4..8], &[1, 0, 0, 0]);
    assert_eq!(&bytes[8..12], &[0, 0, 0, 0]);
    assert_eq!(&bytes[4 + 64 * 4..8 + 64 * 4], &[4, 3, 2, 1]);
    assert_eq!(&bytes[2000..2004], &[0xff, 0xff, 0xff, 0xff]);
    assert_eq!(&bytes[2004..2008], &[0, 0, 0, 0]);
    assert_eq!(&bytes[2008..], &0x1234u64.to_le_bytes());
    let ready = TaskInfo { status: TaskStatus::Ready, syscall_times: counts, time: 0 };
    assert_eq!(ready.to_bytes()[0], 1);
    let gone = TaskInfo { status: TaskStatus::Exited, syscall_times: counts, time: 0 };
    assert_eq!(gone.to_bytes()[0], 3);
}

#[test]
fn task_info_reports_the_current_task() {
    let mut processor = processor_with_tasks(1, 8);
    assert_eq!(sys_mmap(&mut processor, 0x10000, PAGE_SIZE, 3), 0);
    {
        let task = processor.current.as_mut().unwrap();
        assert!(task.record_syscall(64));
        assert!(task.record_syscall(64));
        assert!(task.record_syscall(MAX_SYSCALL_NUM - 1));
        assert!(!task.record_syscall(MAX_SYSCALL_NUM));
        assert!(!task.record_syscall(usize::MAX));
        assert_eq!(task.running_time(350), 250);
        assert_eq!(task.running_time(50), 0);
    }
    let (ret, writes) = sys_task_info(&processor, 0x10000, 350);
    assert_eq!(ret, 0);
    assert_eq!(writes.len(), 1);
    assert_eq!(writes[0].offset, 0);
    let bytes = &writes[0].bytes;
    assert_eq!(bytes.len(), TASK_INFO_SIZE);
    assert_eq!(bytes[0], 2);
    assert_eq!(&bytes[4 + 64 * 4..8 + 64 * 4], &[2, 0, 0, 0]);
    assert_eq!(&bytes[2000..2004], &[1, 0, 0, 0]);
    assert_eq!(&bytes[2008..], &250u64.to_le_bytes());
    let (ret, writes) = sys_task_info(&processor, 0x10900, 350);
    assert_eq!(ret, -1);
    assert!(writes.is_empty());
}

#[test]
fn task_info_is_scattered_over_every_page_it_touches() {
    let mut processor = processor_with_tasks(1, 8);
    assert_eq!(sys_mmap(&mut processor, 0x10000, 2 * PAGE_SIZE, 3), 0);
    let (ret, writes) = sys_task_info(&processor, 0x10c00, 100);
    assert_eq!(ret, 0);
    assert_eq!(writes.len(), 2);
    assert_eq!(writes[0].offset, 0xc00);
    assert_eq!(writes[0].bytes.len(), 0x400);
    assert_eq!(writes[1].offset, 0);
    assert_eq!(writes[1].bytes.len(), TASK_INFO_SIZE - 0x400);
    let whole: Vec<u8> = writes.iter().flat_map(|w| w.bytes.iter().copied()).collect();
    let task = processor.current.as_ref().unwrap();
    let info = TaskInfo { status: task.task_status, syscall_times: task.syscall_times, time: 0 };
    assert_eq!(whole, info.to_bytes());
}

#[test]
fn a_counter_stays_at_its_largest_count() {
    let mut processor = processor_with_tasks(1, 8);
    let task = processor.current.as_mut().unwrap();
    task.syscall_times[3] = u32::MAX - 1;
    assert!(task.record_syscall(3));
    assert_eq!(task.syscall_times[3], u32::MAX);
    assert!(task.record_syscall(3));
    assert_eq!(task.syscall_times[3], u32::MAX);
    assert_eq!(task.syscall_times[2], 0);
}

#[test]
fn run_next_marks_the_task_running_and_stamps_its_first_run() {
    let processor = processor_with_tasks(2, 8);
    let task = processor.current.as_ref().unwrap();
    assert_eq!(task.task_status, TaskStatus::Running);
    assert_eq!(task.first_run, Some(100));
    assert_eq!(task.stride, BIG_STRIDE / DEFAULT_PRIORITY);
    assert_eq!(task.trap_cx.sepc, 0x1000);
    assert_eq!(processor.manager.len(), 1);
    assert_eq!(processor.manager.get(0).task_status, TaskStatus::Ready);
    assert!(processor.manager.get(0).first_run.is_none());
}

#[test]
fn yield_hands_the_processor_to_the_least_stride() {
    let mut processor = processor_with_tasks(3, 8);
    assert_eq!(processor.current.as_ref().unwrap().trap_cx.sepc, 0x1000);
    assert!(processor.yield_fits());
    assert_eq!(sys_yield(&mut processor, 200), 0);
    assert_eq!(processor.current.as_ref().unwrap().trap_cx.sepc, 0x2000);
    assert_eq!(processor.current.as_ref().unwrap().first_run, Some(200));
    assert_eq!(processor.manager.len(), 2);
    assert_eq!(processor.manager.get(1).trap_cx.sepc, 0x1000);
    assert_eq!(processor.manager.get(1).task_status, TaskStatus::Ready);
    assert_eq!(sys_yield(&mut processor, 300), 0);
    assert_eq!(processor.current.as_ref().unwrap().trap_cx.sepc, 0x3000);
    assert_eq!(sys_yield(&mut processor, 400), 0);
    let task = processor.current.as_ref().unwrap();
    assert_eq!(task.trap_cx.sepc, 0x1000);
    assert_eq!(task.first_run, Some(100));
    assert_eq!(task.stride, 2 * (BIG_STRIDE / DEFAULT_PRIORITY));
    assert_eq!(task.task_status, TaskStatus::Running);
}

#[test]
fn a_lone_task_yields_to_itself() {
    let mut processor = processor_with_tasks(1, 8);
    assert_eq!(sys_yield(&mut processor, 200), 0);
    let task = processor.current.as_ref().unwrap();
    assert_eq!(task.trap_cx.sepc, 0x1000);
    assert_eq!(task.stride, 2 * (BIG_STRIDE / DEFAULT_PRIORITY));
    assert_eq!(processor.manager.len(), 0);
}

#[test]
fn yield_without_any_task_changes_nothing() {
    let mut processor = processor_with_tasks(0, 8);
    assert!(processor.yield_fits());
    assert_eq!(sys_yield(&mut processor, 200), 0);
    assert!(processor.current.is_none());
    assert_eq!(processor.manager.len(), 0);
}

#[test]
fn yield_fits_sees_an_overflow_of_the_next_stride() {
    let mut processor = processor_with_tasks(1, 8);
    processor.current.as_mut().unwrap().stride = usize::MAX - 10;
    assert!(!processor.yield_fits());
    assert!(processor.spawn(TrapContext::app_init_context(0x2000, 0x7000), 0x80000));
    assert!(processor.yield_fits());
    assert_eq!(sys_yield(&mut processor, 200), 0);
    assert_eq!(processor.current.as_ref().unwrap().trap_cx.sepc, 0x2000);
    assert!(processor.yield_fits());
    processor.current.as_mut().unwrap().stride = usize::MAX;
    assert!(!processor.yield_fits());
}

#[test]
fn higher_priority_runs_more_often_under_yield() {
    let mut processor = processor_with_tasks(2, 8);
    processor.current.as_mut().unwrap().priority = 10;
    processor.current.as_mut().unwrap().stride = 0;
    assert_eq!(sys_yield(&mut processor, 1), 0);
    processor.current.as_mut().unwrap().priority = 30;
    processor.current.as_mut().unwrap().stride = 0;
    let mut low = 0;
    let mut high = 0;
    for now in 2..1202 {
        assert_eq!(sys_yield(&mut processor, now), 0);
        if processor.current.as_ref().unwrap().priority == 10 {
            low += 1;
        } else {
            high += 1;
        }
    }
    assert_eq!(low + high, 1200);
    assert!((299..=301).contains(&low));
    assert!((899..=901).contains(&high));
}

#[test]
fn exit_releases_the_memory_and_runs_the_next_task() {
    let mut processor = processor_with_tasks(2, 8);
    assert_eq!(sys_mmap(&mut processor, 0x10000, 3 * PAGE_SIZE, 3), 0);
    assert_eq!(sys_mmap(&mut processor, 0x20000, 2 * PAGE_SIZE, 1), 0);
    assert_eq!(processor.frames.free_frames(), 3);
    let exited = sys_exit(&mut processor, -7, 500).unwrap();
    assert_eq!(exited.task_status, TaskStatus::Exited);
    assert_eq!(exited.exit_code, -7);
    assert_eq!(exited.trap_cx.sepc, 0x1000);
    assert_eq!(exited.memory_set.area_count(), 0);
    assert!(exited.memory_set.translate(VirtPageNum(0x10)).is_none());
    assert_eq!(processor.frames.free_frames(), 8);
    for ppn in 0x200..0x208 {
        assert!(!processor.frames.is_allocated(PhysPageNum(ppn)));
    }
    let task = processor.current.as_ref().unwrap();
    assert_eq!(task.trap_cx.sepc, 0x2000);
    assert_eq!(task.task_status, TaskStatus::Running);
    assert_eq!(task.first_run, Some(500));
    assert_eq!(processor.manager.len(), 0);
}

#[test]
fn exit_leaves_the_frames_of_other_tasks_alone() {
    let mut processor = processor_with_tasks(2, 8);
    assert_eq!(sys_mmap(&mut processor, 0x10000, 2 * PAGE_SIZE, 3), 0);
    assert_eq!(sys_yield(&mut processor, 200), 0);
    assert_eq!(sys_mmap(&mut processor, 0x10000, 3 * PAGE_SIZE, 3), 0);
    let mine: Vec<PhysPageNum> = (0x10..0x13).map(|vpn| frame_of(&processor, vpn)).collect();
    let exited = sys_exit(&mut processor, 0, 300).unwrap();
    assert_eq!(exited.trap_cx.sepc, 0x2000);
    assert_eq!(processor.frames.free_frames(), 6);
    let theirs: Vec<PhysPageNum> = (0x10..0x12).map(|vpn| frame_of(&processor, vpn)).collect();
    for ppn in &theirs {
        assert!(processor.frames.is_allocated(*ppn));
        assert!(!mine.contains(ppn));
    }
    for ppn in &mine {
        assert!(!processor.frames.is_allocated(*ppn));
    }
}

#[test]
fn exit_of_the_last_task_leaves_the_processor_idle() {
    let mut processor = processor_with_tasks(1, 8);
    let exited = sys_exit(&mut processor, 3, 500).unwrap();
    assert_eq!(exited.exit_code, 3);
    assert!(processor.current.is_none());
    assert_eq!(processor.manager.len(), 0);
    assert!(sys_exit(&mut processor, 4, 600).is_none());
    assert!(processor.current.is_none());
}

#[test]
fn current_task_info_is_a_snapshot_of_the_running_task() {
    let mut processor = processor_with_tasks(1, 8);
    assert!(processor.current.as_mut().unwrap().record_syscall(169));
    let info = get_current_task_info(&processor, 1100).unwrap();
    assert_eq!(info.status, TaskStatus::Running);
    assert_eq!(info.time, 1000);
    assert_eq!(info.syscall_times[169], 1);
    assert_eq!(info.syscall_times.iter().map(|&n| n as usize).sum::<usize>(), 1);
    let idle = processor_with_tasks(0, 8);
    assert!(get_current_task_info(&idle, 5).is_none());
}
