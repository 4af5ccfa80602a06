use os::config::PAGE_SIZE;
use os::mm::address::{PhysAddr, PhysPageNum, VirtAddr, VirtPageNum};
use os::mm::frame_allocator::StackFrameAllocator;
use os::mm::memory_set::{MapArea, MapType, MemorySet};
use os::mm::page_table::{
    translated_byte_buffer, ByteSegment, MapPermission, PTEFlags, PageTable, PageTableEntry,
};
use os::syscall::process::{sys_mmap, sys_munmap, sys_sbrk};
use os::task::processor::Processor;
use os::task::task::TrapContext;

const HEAP: usize = 0x80000;

fn running_processor(frames: usize) -> Processor {
    let allocator = StackFrameAllocator::new(PhysPageNum(0x100), PhysPageNum(0x100 + frames));
    let mut processor = Processor::new(allocator);
    assert!(processor.spawn(TrapContext::app_init_context(0x1000, 0x7000), HEAP));
    processor.run_next(0);
    assert!(processor.current.is_some());
    processor
}

fn entry(processor: &Processor, vpn: usize) -> Option<PageTableEntry> {
    processor.current.as_ref().unwrap().memory_set.translate(VirtPageNum(vpn))
}

fn regions(processor: &Processor) -> Vec<(usize, usize)> {
    let ms = &processor.current.as_ref().unwrap().memory_set;
    (0..ms.area_count()).map(|i| (ms.area(i).get_start().0, ms.area(i).get_end().0)).collect()
}

#[test]
fn floor_and_ceil_round_to_whole_pages() {
    assert_eq!(VirtAddr(0).floor(), VirtPageNum(0));
    assert_eq!(VirtAddr(0).ceil(), VirtPageNum(0));
    assert_eq!(VirtAddr(1).floor(), VirtPageNum(0));
    assert_eq!(VirtAddr(1).ceil(), VirtPageNum(1));
    assert_eq!(VirtAddr(4095).ceil(), VirtPageNum(1));
    assert_eq!(VirtAddr(4096).floor(), VirtPageNum(1));
    assert_eq!(VirtAddr(4096).ceil(), VirtPageNum(1));
    assert_eq!(VirtAddr(4097).ceil(), VirtPageNum(2));
    assert_eq!(VirtAddr(0x10abc).page_offset(), 0xabc);
    assert!(VirtAddr(0x10000).aligned());
    assert!(!VirtAddr(0x10001).aligned());
    assert_eq!(VirtAddr(usize::MAX).ceil(), VirtPageNum(usize::MAX / PAGE_SIZE + 1));
    assert_eq!(PhysAddr(8191).floor(), PhysPageNum(1));
    assert_eq!(PhysAddr(8191).ceil(), PhysPageNum(2));
    assert_eq!(PhysAddr(8193).page_offset(), 1);
    assert!(PhysAddr(8192).aligned());
}

#[test]
fn page_table_maps_translates_and_unmaps() {
    let mut table = PageTable::new();
    assert!(table.translate(VirtPageNum(5)).is_none());
    let flags = PTEFlags { v: false, r: true, w: false, x: true, u: true };
    table.map(VirtPageNum(5), PhysPageNum(77), flags);
    let pte = table.translate(VirtPageNum(5)).unwrap();
    assert_eq!(pte.ppn(), PhysPageNum(77));
    assert!(pte.is_valid());
    assert!(pte.readable());
    assert!(!pte.writable());
    assert!(pte.executable());
    assert!(pte.flags().u);
    assert!(table.is_mapped(VirtPageNum(5)));
    assert!(!table.is_mapped(VirtPageNum(6)));
    table.unmap(VirtPageNum(5));
    assert!(table.translate(VirtPageNum(5)).is_none());
}

#[test]
fn an_entry_that_is_not_valid_grants_nothing() {
    let pte = PageTableEntry::new(
        PhysPageNum(3),
        PTEFlags { v: false, r: true, w: true, x: true, u: true },
    );
    assert!(!pte.is_valid());
    assert!(!pte.readable());
    assert!(!pte.writable());
    assert!(!pte.executable());
    let empty = PageTableEntry::empty();
    assert_eq!(empty.ppn(), PhysPageNum(0));
    assert!(!empty.is_valid());
    let perm = MapPermission { r: true, w: false, x: false, u: true };
    assert_eq!(
        PTEFlags::from_permission(perm),
        PTEFlags { v: true, r: true, w: false, x: false, u: true }
    );
}

#[test]
fn allocator_hands_out_recycled_frames_first() {
    let mut frames = StackFrameAllocator::new(PhysPageNum(10), PhysPageNum(13));
    assert_eq!(frames.free_frames(), 3);
    assert_eq!(frames.frame_alloc(), Some(PhysPageNum(10)));
    assert_eq!(frames.frame_alloc(), Some(PhysPageNum(11)));
    assert!(frames.is_allocated(PhysPageNum(10)));
    assert!(!frames.is_allocated(PhysPageNum(12)));
    assert!(!frames.is_allocated(PhysPageNum(9)));
    frames.frame_dealloc(PhysPageNum(10));
    assert!(!frames.is_allocated(PhysPageNum(10)));
    assert_eq!(frames.free_frames(), 2);
    assert_eq!(frames.frame_alloc(), Some(PhysPageNum(10)));
    assert_eq!(frames.frame_alloc(), Some(PhysPageNum(12)));
    assert_eq!(frames.frame_alloc(), None);
    assert_eq!(frames.free_frames(), 0);
}

#[test]
fn allocator_over_a_reversed_range_is_empty() {
    let mut frames = StackFrameAllocator::new(PhysPageNum(13), PhysPageNum(10));
    assert_eq!(frames.free_frames(), 0);
    assert_eq!(frames.frame_alloc(), None);
}

#[test]
fn mmap_then_munmap_then_munmap_again() {
    let mut processor = running_processor(16);
    assert_eq!(sys_mmap(&mut processor, 0x10000, 8192, 0b011), 0);
    assert_eq!(regions(&processor), vec![(0x80, 0x80), (0x10, 0x12)]);
    assert_eq!(processor.frames.free_frames(), 14);
    assert_eq!(sys_munmap(&mut processor, 0x10000, 8192), 0);
    assert_eq!(regions(&processor), vec![(0x80, 0x80)]);
    assert_eq!(processor.frames.free_frames(), 16);
    assert!(entry(&processor, 0x10).is_none());
    assert_eq!(sys_munmap(&mut processor, 0x10000, 8192), -1);
    assert_eq!(regions(&processor), vec![(0x80, 0x80)]);
}

#[test]
fn mmap_rejects_a_misaligned_start() {
    let mut processor = running_processor(16);
    assert_eq!(sys_mmap(&mut processor, 0x10001, 4096, 0b001), -1);
    assert_eq!(regions(&processor), vec![(0x80, 0x80)]);
    assert_eq!(processor.frames.free_frames(), 16);
}

#[test]
fn mmap_rejects_an_empty_port_and_stray_bits() {
    let mut processor = running_processor(16);
    assert_eq!(sys_mmap(&mut processor, 0x10000, 4096, 0), -1);
    assert_eq!(sys_mmap(&mut processor, 0x10000, 4096, 0xF), -1);
    assert_eq!(sys_mmap(&mut processor, 0x10000, 4096, 0b1000), -1);
    assert_eq!(sys_mmap(&mut processor, 0x10000, 0, 0), -1);
    assert_eq!(regions(&processor), vec![(0x80, 0x80)]);
    assert_eq!(sys_mmap(&mut processor, 0x10000, 4096, 0b111), 0);
}

#[test]
fn each_region_has_exactly_the_permission_asked_for() {
    let mut processor = running_processor(32);
    for port in 1..=7usize {
        assert_eq!(sys_mmap(&mut processor, port * 0x10000, 2 * PAGE_SIZE, port), 0);
    }
    for port in 1..=7usize {
        for page in 0..2 {
            let pte = entry(&processor, port * 0x10 + page).unwrap();
            assert!(pte.is_valid());
            assert!(pte.flags().u);
            assert_eq!(pte.readable(), port & 1 != 0);
            assert_eq!(pte.writable(), port & 2 != 0);
            assert_eq!(pte.executable(), port & 4 != 0);
        }
        assert!(entry(&processor, port * 0x10 + 2).is_none());
    }
    let ms = &processor.current.as_ref().unwrap().memory_set;
    let area = ms.area(3);
    assert_eq!(area.map_type(), MapType::Framed);
    assert_eq!(area.permission(), MapPermission { r: true, w: true, x: false, u: true });
}

#[test]
fn regions_get_frames_of_their_own() {
    let mut processor = running_processor(8);
    assert_eq!(sys_mmap(&mut processor, 0x10000, 3 * PAGE_SIZE, 1), 0);
    assert_eq!(sys_mmap(&mut processor, 0x20000, 2 * PAGE_SIZE, 1), 0);
    let mut seen = Vec::new();
    for vpn in [0x10, 0x11, 0x12, 0x20, 0x21] {
        let ppn = entry(&processor, vpn).unwrap().ppn();
        assert!(processor.frames.is_allocated(ppn));
        assert!(!seen.contains(&ppn));
        seen.push(ppn);
    }
    assert_eq!(
        seen,
        vec![
            PhysPageNum(0x100),
            PhysPageNum(0x101),
            PhysPageNum(0x102),
            PhysPageNum(0x103),
            PhysPageNum(0x104)
        ]
    );
}

#[test]
fn mmap_rejects_a_range_that_meets_a_region() {
    let mut processor = running_processor(32);
    assert_eq!(sys_mmap(&mut processor, 0x10000, 4 * PAGE_SIZE, 3), 0);
    for (start, len) in [
        (0x10000, 4 * PAGE_SIZE),
        (0x10000, 1),
        (0x13000, PAGE_SIZE),
        (0x0f000, PAGE_SIZE + 1),
        (0x0f000, 8 * PAGE_SIZE),
        (0x11000, PAGE_SIZE),
    ] {
        assert_eq!(sys_mmap(&mut processor, start, len, 3), -1);
    }
    assert_eq!(regions(&processor), vec![(0x80, 0x80), (0x10, 0x14)]);
    assert_eq!(processor.frames.free_frames(), 28);
    assert_eq!(sys_mmap(&mut processor, 0x0f000, PAGE_SIZE, 3), 0);
    assert_eq!(sys_mmap(&mut processor, 0x14000, PAGE_SIZE, 3), 0);
}

#[test]
fn munmap_wants_the_exact_bounds_of_a_region() {
    let mut processor = running_processor(32);
    assert_eq!(sys_mmap(&mut processor, 0x10000, 4 * PAGE_SIZE, 3), 0);
    assert_eq!(sys_mmap(&mut processor, 0x14000, 2 * PAGE_SIZE, 3), 0);
    for (start, len) in [
        (0x10000, 3 * PAGE_SIZE),
        (0x11000, 3 * PAGE_SIZE),
        (0x10000, 6 * PAGE_SIZE),
        (0x10000, 5 * PAGE_SIZE),
        (0x30000, PAGE_SIZE),
        (0x10001, 4 * PAGE_SIZE),
    ] {
        assert_eq!(sys_munmap(&mut processor, start, len), -1);
    }
    assert_eq!(regions(&processor), vec![(0x80, 0x80), (0x10, 0x14), (0x14, 0x16)]);
    assert_eq!(sys_munmap(&mut processor, 0x10000, 3 * PAGE_SIZE + 1), 0);
    assert_eq!(regions(&processor), vec![(0x80, 0x80), (0x14, 0x16)]);
    assert!(entry(&processor, 0x13).is_none());
    assert!(entry(&processor, 0x14).is_some());
}

#[test]
fn zero_length_requests_succeed_and_change_nothing() {
    let mut processor = running_processor(4);
    assert_eq!(sys_mmap(&mut processor, 0x10000, 0, 1), 0);
    assert_eq!(sys_munmap(&mut processor, 0x10000, 0), 0);
    assert_eq!(sys_munmap(&mut processor, 0x50000, 0), 0);
    assert_eq!(regions(&processor), vec![(0x80, 0x80)]);
    assert_eq!(processor.frames.free_frames(), 4);
    assert_eq!(sys_mmap(&mut processor, 0x10001, 0, 1), -1);
    assert_eq!(sys_munmap(&mut processor, 0x10001, 0), -1);
}

#[test]
fn mmap_rejects_a_range_that_leaves_the_address_space() {
    let mut processor = running_processor(4);
    let top = usize::MAX - PAGE_SIZE + 1;
    assert_eq!(sys_mmap(&mut processor, top, PAGE_SIZE, 1), -1);
    assert_eq!(sys_mmap(&mut processor, 0x10000, usize::MAX, 1), -1);
    assert_eq!(sys_mmap(&mut processor, 0, usize::MAX, 1), -1);
    assert_eq!(sys_munmap(&mut processor, top, PAGE_SIZE), -1);
    assert_eq!(sys_munmap(&mut processor, 0x10000, usize::MAX), -1);
    assert_eq!(regions(&processor), vec![(0x80, 0x80)]);
    assert_eq!(sys_mmap(&mut processor, top - PAGE_SIZE, PAGE_SIZE, 1), 0);
}

#[test]
fn mmap_fails_without_enough_free_frames() {
    let mut processor = running_processor(3);
    assert_eq!(sys_mmap(&mut processor, 0x10000, 4 * PAGE_SIZE, 1), -1);
    assert_eq!(processor.frames.free_frames(), 3);
    assert_eq!(sys_mmap(&mut processor, 0x10000, 3 * PAGE_SIZE, 1), 0);
    assert_eq!(processor.frames.free_frames(), 0);
    assert_eq!(sys_mmap(&mut processor, 0x20000, 1, 1), -1);
    assert_eq!(sys_munmap(&mut processor, 0x10000, 3 * PAGE_SIZE), 0);
    assert_eq!(sys_mmap(&mut processor, 0x20000, 1, 1), 0);
    assert_eq!(entry(&processor, 0x20).unwrap().ppn(), PhysPageNum(0x102));
}

#[test]
fn syscalls_fail_when_no_task_runs() {
    let allocator = StackFrameAllocator::new(PhysPageNum(0), PhysPageNum(8));
    let mut processor = Processor::new(allocator);
    assert_eq!(sys_mmap(&mut processor, 0x10000, PAGE_SIZE, 1), -1);
    assert_eq!(sys_mmap(&mut processor, 0x10000, 0, 1), -1);
    assert_eq!(sys_munmap(&mut processor, 0x10000, PAGE_SIZE), -1);
    assert_eq!(sys_sbrk(&mut processor, 0), -1);
}

#[test]
fn sbrk_returns_the_old_break_and_moves_it() {
    let mut processor = running_processor(8);
    assert_eq!(sys_sbrk(&mut processor, 0), HEAP as isize);
    assert_eq!(sys_sbrk(&mut processor, 100), HEAP as isize);
    assert_eq!(processor.current.as_ref().unwrap().program_brk, HEAP + 100);
    assert_eq!(regions(&processor), vec![(0x80, 0x81)]);
    assert_eq!(processor.frames.free_frames(), 7);
    let pte = entry(&processor, 0x80).unwrap();
    assert!(pte.readable() && pte.writable() && !pte.executable());
    assert_eq!(sys_sbrk(&mut processor, 2 * PAGE_SIZE as i32), (HEAP + 100) as isize);
    assert_eq!(regions(&processor), vec![(0x80, 0x83)]);
    assert_eq!(sys_sbrk(&mut processor, -(PAGE_SIZE as i32)), (HEAP + 100 + 2 * PAGE_SIZE) as isize);
    assert_eq!(regions(&processor), vec![(0x80, 0x82)]);
    assert!(entry(&processor, 0x82).is_none());
    assert_eq!(processor.frames.free_frames(), 6);
    assert_eq!(
        sys_sbrk(&mut processor, -((PAGE_SIZE + 100) as i32)),
        (HEAP + 100 + PAGE_SIZE) as isize
    );
    assert_eq!(processor.current.as_ref().unwrap().program_brk, HEAP);
    assert_eq!(regions(&processor), vec![(0x80, 0x80)]);
    assert_eq!(processor.frames.free_frames(), 8);
}

#[test]
fn sbrk_refuses_a_break_below_the_heap_bottom() {
    let mut processor = running_processor(8);
    assert_eq!(sys_sbrk(&mut processor, -1), -1);
    assert_eq!(sys_sbrk(&mut processor, 10), HEAP as isize);
    assert_eq!(sys_sbrk(&mut processor, -11), -1);
    assert_eq!(sys_sbrk(&mut processor, i32::MIN), -1);
    assert_eq!(processor.current.as_ref().unwrap().program_brk, HEAP + 10);
    assert_eq!(regions(&processor), vec![(0x80, 0x81)]);
    assert_eq!(sys_sbrk(&mut processor, -10), (HEAP + 10) as isize);
}

#[test]
fn sbrk_refuses_to_grow_into_another_region_or_past_the_frames() {
    let mut processor = running_processor(4);
    assert_eq!(sys_mmap(&mut processor, HEAP + 2 * PAGE_SIZE, PAGE_SIZE, 3), 0);
    assert_eq!(sys_sbrk(&mut processor, 2 * PAGE_SIZE as i32), HEAP as isize);
    assert_eq!(sys_sbrk(&mut processor, 1), -1);
    assert_eq!(processor.current.as_ref().unwrap().program_brk, HEAP + 2 * PAGE_SIZE);
    assert_eq!(processor.frames.free_frames(), 1);
    assert_eq!(sys_munmap(&mut processor, HEAP + 2 * PAGE_SIZE, PAGE_SIZE), 0);
    assert_eq!(sys_sbrk(&mut processor, 3 * PAGE_SIZE as i32), -1);
    assert_eq!(sys_sbrk(&mut processor, 2 * PAGE_SIZE as i32), (HEAP + 2 * PAGE_SIZE) as isize);
    assert_eq!(processor.frames.free_frames(), 0);
}

#[test]
fn spawn_with_an_unaligned_heap_bottom_maps_its_page() {
    let allocator = StackFrameAllocator::new(PhysPageNum(0), PhysPageNum(1));
    let mut processor = Processor::new(allocator);
    assert!(processor.spawn(TrapContext::app_init_context(0, 0), 0x5010));
    assert_eq!(processor.frames.free_frames(), 0);
    assert_eq!(processor.manager.get(0).memory_set.area(0).get_start(), VirtPageNum(5));
    assert_eq!(processor.manager.get(0).memory_set.area(0).get_end(), VirtPageNum(6));
    assert!(!processor.spawn(TrapContext::app_init_context(0, 0), 0x9010));
    assert!(processor.spawn(TrapContext::app_init_context(0, 0), 0x9000));
    assert!(!processor.spawn(TrapContext::app_init_context(0, 0), usize::MAX));
    assert_eq!(processor.manager.len(), 2);
}

#[test]
fn memory_set_grows_and_shrinks_a_region_by_its_start() {
    let mut frames = StackFrameAllocator::new(PhysPageNum(0), PhysPageNum(8));
    let mut ms = MemorySet::new_bare();
    let perm = MapPermission { r: true, w: true, x: false, u: true };
    ms.insert_framed_area(VirtAddr(0x4000), VirtAddr(0x5001), perm, &mut frames);
    assert_eq!(ms.area_count(), 1);
    assert_eq!(ms.area(0).get_start(), VirtPageNum(4));
    assert_eq!(ms.area(0).get_end(), VirtPageNum(6));
    assert!(ms.conflicts(VirtPageNum(5), VirtPageNum(9)));
    assert!(!ms.conflicts(VirtPageNum(6), VirtPageNum(9)));
    assert_eq!(ms.find_area(VirtPageNum(4), VirtPageNum(6)), Some(0));
    assert_eq!(ms.find_area(VirtPageNum(4), VirtPageNum(5)), None);
    assert_eq!(ms.find_by_start(VirtPageNum(4)), Some(0));
    assert_eq!(ms.find_by_start(VirtPageNum(5)), None);
    assert!(!ms.append_to(VirtAddr(0x5000), VirtAddr(0x9000), &mut frames));
    assert!(ms.append_to(VirtAddr(0x4fff), VirtAddr(0x8000), &mut frames));
    assert_eq!(ms.area(0).get_end(), VirtPageNum(8));
    assert_eq!(frames.free_frames(), 4);
    assert!(ms.append_to(VirtAddr(0x4000), VirtAddr(0x6000), &mut frames));
    assert_eq!(ms.area(0).get_end(), VirtPageNum(8));
    assert!(!ms.append_to(VirtAddr(0x4000), VirtAddr(0x20000), &mut frames));
    assert!(!ms.shrink_to(VirtAddr(0x4000), VirtAddr(0x3000), &mut frames));
    assert!(ms.shrink_to(VirtAddr(0x4000), VirtAddr(0x4001), &mut frames));
    assert_eq!(ms.area(0).get_end(), VirtPageNum(5));
    assert_eq!(frames.free_frames(), 7);
    assert!(ms.translate(VirtPageNum(4)).is_some());
    assert!(ms.translate(VirtPageNum(5)).is_none());
    assert!(ms.page_table().is_mapped(VirtPageNum(4)));
    ms.recycle_data_pages(&mut frames);
    assert_eq!(ms.area_count(), 0);
    assert_eq!(frames.free_frames(), 8);
    assert!(ms.translate(VirtPageNum(4)).is_none());
}

#[test]
fn an_identical_region_maps_each_page_to_its_own_number() {
    let mut frames = StackFrameAllocator::new(PhysPageNum(0), PhysPageNum(2));
    let mut table = PageTable::new();
    let perm = MapPermission { r: true, w: false, x: true, u: false };
    let mut area = MapArea::new(VirtPageNum(0x40), MapType::Identical, perm);
    area.append_to(&mut table, VirtPageNum(0x43), &mut frames);
    assert_eq!(frames.free_frames(), 2);
    assert_eq!(area.get_start(), VirtPageNum(0x40));
    assert_eq!(area.get_end(), VirtPageNum(0x43));
    for vpn in 0x40..0x43 {
        let pte = table.translate(VirtPageNum(vpn)).unwrap();
        assert_eq!(pte.ppn(), PhysPageNum(vpn));
        assert!(pte.readable() && !pte.writable() && pte.executable() && !pte.flags().u);
    }
    area.shrink_to(&mut table, VirtPageNum(0x41), &mut frames);
    assert_eq!(area.get_end(), VirtPageNum(0x41));
    assert!(table.translate(VirtPageNum(0x40)).is_some());
    assert!(table.translate(VirtPageNum(0x41)).is_none());
    assert_eq!(frames.free_frames(), 2);
}

#[test]
fn a_buffer_is_cut_at_page_boundaries() {
    let mut table = PageTable::new();
    let flags = PTEFlags { v: true, r: true, w: true, x: false, u: true };
    table.map(VirtPageNum(0x10), PhysPageNum(0x90), flags);
    table.map(VirtPageNum(0x11), PhysPageNum(0x55), flags);
    table.map(VirtPageNum(0x12), PhysPageNum(0x33), flags);
    assert_eq!(
        translated_byte_buffer(&table, 0x10ff8, 16),
        vec![
            ByteSegment { ppn: PhysPageNum(0x90), start: 0xff8, end: 0x1000 },
            ByteSegment { ppn: PhysPageNum(0x55), start: 0, end: 8 },
        ]
    );
    assert_eq!(
        translated_byte_buffer(&table, 0x10ffe, 2 * PAGE_SIZE),
        vec![
            ByteSegment { ppn: PhysPageNum(0x90), start: 0xffe, end: 0x1000 },
            ByteSegment { ppn: PhysPageNum(0x55), start: 0, end: 0x1000 },
            ByteSegment { ppn: PhysPageNum(0x33), start: 0, end: 0xffe },
        ]
    );
    assert_eq!(
        translated_byte_buffer(&table, 0x11000, PAGE_SIZE),
        vec![ByteSegment { ppn: PhysPageNum(0x55), start: 0, end: 0x1000 }]
    );
    assert_eq!(
        translated_byte_buffer(&table, 0x12010, 1),
        vec![ByteSegment { ppn: PhysPageNum(0x33), start: 0x10, end: 0x11 }]
    );
    assert_eq!(ByteSegment { ppn: PhysPageNum(1), start: 3, end: 10 }.len(), 7);
}

#[test]
fn a_buffer_with_an_unmapped_page_gives_no_segment() {
    let mut table = PageTable::new();
    let flags = PTEFlags { v: true, r: true, w: true, x: false, u: true };
    table.map(VirtPageNum(0x10), PhysPageNum(0x90), flags);
    table.map(VirtPageNum(0x12), PhysPageNum(0x33), flags);
    assert!(translated_byte_buffer(&table, 0x10ff8, 16).is_empty());
    assert!(translated_byte_buffer(&table, 0x10000, 2 * PAGE_SIZE + 1).is_empty());
    assert!(translated_byte_buffer(&table, 0x11ffc, 8).is_empty());
    assert!(translated_byte_buffer(&table, 0x13000, 1).is_empty());
    assert!(translated_byte_buffer(&table, 0x10000, 0).is_empty());
    assert!(translated_byte_buffer(&table, usize::MAX - 3, 8).is_empty());
    assert_eq!(translated_byte_buffer(&table, 0x10000, PAGE_SIZE).len(), 1);
}

#[test]
fn addresses_convert_from_and_to_plain_numbers() {
    assert_eq!(VirtAddr::from(0x1234usize), VirtAddr(0x1234));
    assert_eq!(usize::from(VirtAddr(0x1234)), 0x1234);
    assert_eq!(VirtPageNum::from(7usize), VirtPageNum(7));
    assert_eq!(usize::from(VirtPageNum(7)), 7);
    assert_eq!(PhysAddr::from(9usize), PhysAddr(9));
    assert_eq!(usize::from(PhysAddr(9)), 9);
    assert_eq!(PhysPageNum::from(3usize), PhysPageNum(3));
    assert_eq!(usize::from(PhysPageNum(3)), 3);
    let back: usize = VirtAddr(5).into();
    assert_eq!(back, 5);
}

#[test]
fn a_page_starts_at_its_number_times_the_page_size() {
    assert_eq!(VirtPageNum(0).start_addr(), Some(VirtAddr(0)));
    assert_eq!(VirtPageNum(0x10).start_addr(), Some(VirtAddr(0x10000)));
    assert_eq!(PhysPageNum(3).start_addr(), Some(PhysAddr(3 * PAGE_SIZE)));
    let last = usize::MAX / PAGE_SIZE;
    assert_eq!(VirtPageNum(last).start_addr(), Some(VirtAddr(last * PAGE_SIZE)));
    assert_eq!(VirtPageNum(last + 1).start_addr(), None);
    assert_eq!(PhysPageNum(usize::MAX).start_addr(), None);
    assert_eq!(VirtPageNum(0x10).start_addr().unwrap().floor(), VirtPageNum(0x10));
    assert_eq!(VirtPageNum(0x10).start_addr().unwrap().ceil(), VirtPageNum(0x10));
}

#[test]
fn an_identical_region_in_an_address_space_takes_no_frame() {
    let mut frames = StackFrameAllocator::new(PhysPageNum(0), PhysPageNum(4));
    let mut ms = MemorySet::new_bare();
    let kernel = MapPermission { r: true, w: true, x: false, u: false };
    ms.insert_identical_area(VirtAddr(0x80200000), VirtAddr(0x80202001), kernel, &mut frames);
    assert_eq!(frames.free_frames(), 4);
    assert_eq!(ms.area_count(), 1);
    assert_eq!(ms.area(0).map_type(), MapType::Identical);
    assert_eq!(ms.area(0).get_start(), VirtPageNum(0x80200));
    assert_eq!(ms.area(0).get_end(), VirtPageNum(0x80203));
    for vpn in 0x80200..0x80203 {
        let pte = ms.translate(VirtPageNum(vpn)).unwrap();
        assert_eq!(pte.ppn(), PhysPageNum(vpn));
        assert!(pte.readable() && pte.writable() && !pte.flags().u);
    }
    assert!(ms.translate(VirtPageNum(0x80203)).is_none());
    let user = MapPermission { r: true, w: false, x: false, u: true };
    ms.insert_framed_area(VirtAddr(0x1000), VirtAddr(0x2000), user, &mut frames);
    assert_eq!(frames.free_frames(), 3);
    ms.remove_area(0, &mut frames);
    assert_eq!(frames.free_frames(), 3);
    assert!(ms.translate(VirtPageNum(0x80200)).is_none());
    assert_eq!(ms.translate(VirtPageNum(1)).unwrap().ppn(), PhysPageNum(0));
    ms.remove_area(0, &mut frames);
    assert_eq!(frames.free_frames(), 4);
    assert_eq!(ms.area_count(), 0);
}
