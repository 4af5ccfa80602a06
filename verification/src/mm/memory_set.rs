//! Mapped regions and address spaces.
//!
//! A mapped region is a run of virtual pages with one mapping kind and one
//! permission set. An address space is a page table together with the
//! regions that account for every page the table maps.

use vstd::prelude::*;
use crate::mm::address::{page_ceil, page_floor, PhysPageNum, VirtAddr, VirtPageNum};
use crate::mm::frame_allocator::{
    alloc_frames,
    alloc_state,
    distinct_frames,
    lemma_alloc_many,
    lemma_release,
    release_state,
    FrameAllocatorView,
    StackFrameAllocator,
};
use crate::mm::page_table::{flags_of, MapPermission, PTEFlags, PageTable, PageTableEntry};

verus! {

/// How the pages of a region get their frames.
#[derive(Clone, Copy, Debug, PartialEq, Eq, Structural)]
pub enum MapType {
    /// Each page maps to the frame of the same number; the region owns no
    /// frame.
    Identical,
    /// Each page maps to a frame of its own, allocated for it and owned by
    /// the region.
    Framed,
}

/// A mapped region, as mathematics: the pages from `start` up to, not
/// including, `end`; for a framed region `frames` holds the frame of each
/// page, in page order.
pub struct AreaView {
    pub start: usize,
    pub end: usize,
    pub map_type: MapType,
    pub perm: MapPermission,
    pub frames: Seq<usize>,
}

impl AreaView {
    /// The bounds are in order, and a framed region has one frame for each
    /// page, an identical one none.
    pub open spec fn wf(self) -> bool {
        &&& self.start <= self.end
        &&& self.map_type == MapType::Framed ==> self.frames.len() == self.end - self.start
        &&& self.map_type == MapType::Identical ==> self.frames.len() == 0
    }

    /// Whether page `vpn` belongs to the region.
    pub open spec fn contains(self, vpn: usize) -> bool {
        self.start <= vpn < self.end
    }

    /// Whether the pages from `start` up to `end` get in the way of this
    /// region: neither lies wholly before the other.
    pub open spec fn conflicts(self, start: usize, end: usize) -> bool {
        start < self.end && self.start < end
    }

    /// The frame behind page `vpn` of the region.
    pub open spec fn frame_of(self, vpn: usize) -> usize {
        match self.map_type {
            MapType::Identical => vpn,
            MapType::Framed => self.frames[vpn - self.start],
        }
    }

    /// The page-table entry of page `vpn` of the region.
    pub open spec fn entry_of(self, vpn: usize) -> PageTableEntry {
        PageTableEntry { ppn: PhysPageNum(self.frame_of(vpn)), flags: flags_of(self.perm) }
    }
}

/// `table` with the pages from `lo` up to `hi` mapped as pages of `area`.
pub open spec fn map_range(
    table: Map<usize, PageTableEntry>,
    area: AreaView,
    lo: usize,
    hi: usize,
) -> Map<usize, PageTableEntry> {
    Map::new(
        |v: usize| table.contains_key(v) || lo <= v < hi,
        |v: usize|
            if lo <= v < hi {
                area.entry_of(v)
            } else {
                table[v]
            },
    )
}

/// `table` without the pages from `lo` up to `hi`.
pub open spec fn unmap_range(table: Map<usize, PageTableEntry>, lo: usize, hi: usize) -> Map<
    usize,
    PageTableEntry,
> {
    Map::new(|v: usize| table.contains_key(v) && !(lo <= v < hi), |v: usize| table[v])
}

/// One mapped region of an address space.
pub struct MapArea {
    start: VirtPageNum,
    end: VirtPageNum,
    map_type: MapType,
    map_perm: MapPermission,
    frames: Vec<usize>,
}

impl View for MapArea {
    type V = AreaView;

    closed spec fn view(&self) -> AreaView {
        AreaView {
            start: self.start.0,
            end: self.end.0,
            map_type: self.map_type,
            perm: self.map_perm,
            frames: self.frames@,
        }
    }
}

impl MapArea {
    /// A region without pages, which would begin at page `start`.
    pub fn new(start: VirtPageNum, map_type: MapType, map_perm: MapPermission) -> (area: MapArea)
        ensures
            area@ == (AreaView {
                start: start.0,
                end: start.0,
                map_type,
                perm: map_perm,
                frames: Seq::<usize>::empty(),
            }),
            area@.wf(),
    {
        MapArea { start, end: start, map_type, map_perm, frames: Vec::new() }
    }

    /// The first page of the region.
    pub fn get_start(&self) -> (vpn: VirtPageNum)
        ensures
            vpn.0 == self@.start,
    {
        self.start
    }

    /// The page after the last page of the region.
    pub fn get_end(&self) -> (vpn: VirtPageNum)
        ensures
            vpn.0 == self@.end,
    {
        self.end
    }

    /// The mapping kind of the region.
    pub fn map_type(&self) -> (t: MapType)
        ensures
            t == self@.map_type,
    {
        self.map_type
    }

    /// The permission set of the region.
    pub fn permission(&self) -> (p: MapPermission)
        ensures
            p == self@.perm,
    {
        self.map_perm
    }

    /// Extends the region up to page `new_end`: each added page is mapped
    /// in `page_table`, for a framed region to a frame taken from `frames`.
    pub fn append_to(
        &mut self,
        page_table: &mut PageTable,
        new_end: VirtPageNum,
        frames: &mut StackFrameAllocator,
    )
        requires
            old(self)@.wf(),
            old(self)@.end <= new_end.0,
            old(page_table).wf(),
            old(frames).wf(),
            forall|v: usize|
                old(self)@.end <= v < new_end.0 ==> !old(page_table)@.contains_key(v),
            old(self)@.map_type == MapType::Framed ==> old(frames)@.free_count() >= new_end.0
                - old(self)@.end,
        ensures
            final(self)@.wf(),
            final(self)@ == (AreaView {
                end: new_end.0,
                frames: if old(self)@.map_type == MapType::Framed {
                    old(self)@.frames + alloc_frames(
                        old(frames)@,
                        (new_end.0 - old(self)@.end) as nat,
                    )
                } else {
                    old(self)@.frames
                },
                ..old(self)@
            }),
            final(page_table).wf(),
            final(page_table)@ == map_range(
                old(page_table)@,
                final(self)@,
                old(self)@.end,
                new_end.0,
            ),
            final(frames).wf(),
            final(frames)@ == if old(self)@.map_type == MapType::Framed {
                alloc_state(old(frames)@, (new_end.0 - old(self)@.end) as nat)
            } else {
                old(frames)@
            },
    {
        let ghost area0 = self@;
        let ghost table0 = page_table@;
        let ghost a0 = frames@;
        let old_end: usize = self.end.0;
        let mut vpn: usize = old_end;
        let flags = PTEFlags::from_permission(self.map_perm);
        proof {
            assert(self.frames@ + alloc_frames(a0, 0) =~= self.frames@);
            assert(page_table@ =~= map_range(table0, self@, old_end, vpn));
        }
        while vpn < new_end.0
            invariant
                old_end <= vpn <= new_end.0,
                area0.wf(),
                area0.end == old_end,
                a0.wf(),
                flags == flags_of(area0.perm),
                self@ == (AreaView {
                    frames: if area0.map_type == MapType::Framed {
                        area0.frames + alloc_frames(a0, (vpn - old_end) as nat)
                    } else {
                        area0.frames
                    },
                    ..area0
                }),
                page_table.wf(),
                page_table@ == map_range(table0, self@, old_end, vpn),
                forall|v: usize| old_end <= v < new_end.0 ==> !table0.contains_key(v),
                frames.wf(),
                frames@ == if area0.map_type == MapType::Framed {
                    alloc_state(a0, (vpn - old_end) as nat)
                } else {
                    a0
                },
                area0.map_type == MapType::Framed ==> a0.free_count() >= new_end.0 - old_end,
            decreases new_end.0 - vpn,
        {
            let ghost done = (vpn - old_end) as nat;
            let ghost before = self@;
            let ghost table1 = page_table@;
            let ppn: usize = match self.map_type {
                MapType::Identical => vpn,
                MapType::Framed => {
                    proof {
                        lemma_alloc_many(a0, done);
                        lemma_alloc_many(a0, done + 1);
                    }
                    let frame = frames.frame_alloc().unwrap();
                    self.frames.push(frame.0);
                    proof {
                        assert(self.frames@ =~= area0.frames + alloc_frames(a0, done + 1));
                    }
                    frame.0
                },
            };
            page_table.map(VirtPageNum(vpn), PhysPageNum(ppn), flags);
            proof {
                let now = self@;
                assert(now.entry_of(vpn) == (PageTableEntry {
                    ppn: PhysPageNum(ppn),
                    flags,
                }));
                assert forall|v: usize| old_end <= v < vpn implies now.entry_of(v)
                    == before.entry_of(v) by {}
                assert(page_table@ =~= map_range(table0, now, old_end, (vpn + 1) as usize));
            }
            vpn = vpn + 1;
        }
        self.end = new_end;
        proof {
            let now = self@;
            let prev = AreaView { end: old_end, ..now };
            assert forall|v: usize| old_end <= v < new_end.0 implies now.entry_of(v)
                == prev.entry_of(v) by {}
            assert(map_range(table0, prev, old_end, new_end.0) =~= map_range(
                table0,
                now,
                old_end,
                new_end.0,
            ));
            if area0.map_type == MapType::Framed {
                lemma_alloc_many(a0, (new_end.0 - old_end) as nat);
            }
        }
    }

    /// Cuts the region back to end at page `new_end`: each page taken off
    /// is unmapped in `page_table`, and its frame, if it has one of its
    /// own, is given back to `frames`, lowest page first.
    pub fn shrink_to(
        &mut self,
        page_table: &mut PageTable,
        new_end: VirtPageNum,
        frames: &mut StackFrameAllocator,
    )
        requires
            old(self)@.wf(),
            old(self)@.start <= new_end.0 <= old(self)@.end,
            old(page_table).wf(),
            old(frames).wf(),
            forall|v: usize|
                new_end.0 <= v < old(self)@.end ==> old(page_table)@.contains_key(v),
            distinct_frames(old(self)@.frames),
            forall|k: int|
                0 <= k < old(self)@.frames.len() ==> old(frames)@.is_allocated(
                    #[trigger] old(self)@.frames[k],
                ),
        ensures
            final(self)@.wf(),
            final(self)@ == (AreaView {
                end: new_end.0,
                frames: if old(self)@.map_type == MapType::Framed {
                    old(self)@.frames.subrange(0, new_end.0 - old(self)@.start)
                } else {
                    old(self)@.frames
                },
                ..old(self)@
            }),
            final(page_table).wf(),
            final(page_table)@ == unmap_range(old(page_table)@, new_end.0, old(self)@.end),
            final(frames).wf(),
            final(frames)@ == if old(self)@.map_type == MapType::Framed {
                release_state(
                    old(frames)@,
                    old(self)@.frames.subrange(
                        new_end.0 - old(self)@.start,
                        old(self)@.frames.len() as int,
                    ),
                )
            } else {
                old(frames)@
            },
    {
        let ghost area0 = self@;
        let ghost table0 = page_table@;
        let ghost a0 = frames@;
        let old_end: usize = self.end.0;
        let start: usize = self.start.0;
        let mut vpn: usize = new_end.0;
        proof {
            assert(page_table@ =~= unmap_range(table0, new_end.0, vpn));
            if area0.map_type == MapType::Framed {
                assert(a0.recycled + area0.frames.subrange(new_end.0 - start, vpn - start)
                    =~= a0.recycled);
            }
        }
        while vpn < old_end
            invariant
                start <= new_end.0 <= vpn <= old_end,
                self@ == area0,
                area0.wf(),
                area0.start == start,
                area0.end == old_end,
                a0.wf(),
                distinct_frames(area0.frames),
                forall|k: int|
                    0 <= k < area0.frames.len() ==> a0.is_allocated(#[trigger] area0.frames[k]),
                page_table.wf(),
                page_table@ == unmap_range(table0, new_end.0, vpn),
                forall|v: usize| new_end.0 <= v < old_end ==> table0.contains_key(v),
                frames.wf(),
                frames@ == if area0.map_type == MapType::Framed {
                    release_state(a0, area0.frames.subrange(new_end.0 - start, vpn - start))
                } else {
                    a0
                },
            decreases old_end - vpn,
        {
            match self.map_type {
                MapType::Identical => {},
                MapType::Framed => {
                    let k: usize = vpn - start;
                    let ppn: usize = self.frames[k];
                    proof {
                        let gone = area0.frames.subrange(new_end.0 - start, vpn - start);
                        let more = area0.frames.subrange(new_end.0 - start, vpn + 1 - start);
                        assert forall|i: int| 0 <= i < gone.len() implies a0.is_allocated(
                            #[trigger] gone[i],
                        ) by {
                            assert(gone[i] == area0.frames[new_end.0 - start + i]);
                        }
                        lemma_release(a0, gone);
                        assert(!gone.contains(ppn)) by {
                            if gone.contains(ppn) {
                                let i = choose|i: int| 0 <= i < gone.len() && gone[i] == ppn;
                                assert(area0.frames[new_end.0 - start + i] == ppn);
                            }
                        }
                        assert(a0.is_allocated(area0.frames[k as int]));
                        assert(a0.recycled + more =~= (a0.recycled + gone).push(ppn));
                    }
                    frames.frame_dealloc(PhysPageNum(ppn));
                },
            }
            page_table.unmap(VirtPageNum(vpn));
            proof {
                assert(page_table@ =~= unmap_range(table0, new_end.0, (vpn + 1) as usize));
            }
            vpn = vpn + 1;
        }
        match self.map_type {
            MapType::Identical => {},
            MapType::Framed => {
                self.frames.truncate(new_end.0 - start);
            },
        }
        self.end = new_end;
    }
}

/// An address space, as mathematics: its regions in the order in which
/// they were added, and the map from mapped pages to their entries.
pub struct MemorySetView {
    pub areas: Seq<AreaView>,
    pub table: Map<usize, PageTableEntry>,
}

impl MemorySetView {
    /// Whether region `i` exists and holds page `vpn`.
    pub open spec fn covers(self, i: int, vpn: usize) -> bool {
        0 <= i < self.areas.len() && self.areas[i].contains(vpn)
    }

    /// Whether region `i` exists and its `k`-th frame is `ppn`.
    pub open spec fn owns(self, i: int, k: int, ppn: usize) -> bool {
        0 <= i < self.areas.len() && 0 <= k < self.areas[i].frames.len()
            && self.areas[i].frames[k] == ppn
    }

    /// Whether regions `i` and `j` are two different regions that get in
    /// each other's way.
    pub open spec fn clash(self, i: int, j: int) -> bool {
        0 <= i < self.areas.len() && 0 <= j < self.areas.len() && i != j
            && self.areas[i].conflicts(self.areas[j].start, self.areas[j].end)
    }

    /// The invariant of an address space: every region is well formed; no
    /// two regions overlap; the table maps exactly the pages of the
    /// regions, each as its region says; and no frame is owned twice.
    pub open spec fn wf(self) -> bool {
        &&& forall|i: int| 0 <= i < self.areas.len() ==> (#[trigger] self.areas[i]).wf()
        &&& forall|i: int, j: int| !#[trigger] self.clash(i, j)
        &&& forall|i: int, vpn: usize| #[trigger]
            self.covers(i, vpn) ==> self.table.contains_key(vpn) && self.table[vpn]
                == self.areas[i].entry_of(vpn)
        &&& forall|vpn: usize| #[trigger]
            self.table.contains_key(vpn) ==> exists|i: int| self.covers(i, vpn)
        &&& forall|i: int, k: int, j: int, l: int, ppn: usize|
            #[trigger] self.owns(i, k, ppn) && #[trigger] self.owns(j, l, ppn) ==> i == j && k
                == l
    }

    /// Whether frame `ppn` is owned by a region of this address space.
    pub open spec fn owns_frame(self, ppn: usize) -> bool {
        exists|i: int, k: int| self.owns(i, k, ppn)
    }

    /// The frames owned by the regions of this address space.
    pub open spec fn frames(self) -> Set<usize> {
        Set::new(|ppn: usize| self.owns_frame(ppn))
    }

    /// Whether every frame owned by a region is allocated in `a`.
    pub open spec fn frames_allocated(self, a: FrameAllocatorView) -> bool {
        forall|ppn: usize| #[trigger] self.owns_frame(ppn) ==> a.is_allocated(ppn)
    }

    /// Whether the pages from `start` up to `end` get in the way of some
    /// region.
    pub open spec fn conflicts(self, start: usize, end: usize) -> bool {
        exists|i: int| 0 <= i < self.areas.len() && #[trigger] self.areas[i].conflicts(start, end)
    }

    /// Whether region `i` exists and spans exactly the pages from `start`
    /// up to `end`.
    pub open spec fn spans(self, i: int, start: usize, end: usize) -> bool {
        0 <= i < self.areas.len() && self.areas[i].start == start && self.areas[i].end == end
    }

    /// Whether region `i` exists and begins at page `start`.
    pub open spec fn begins(self, i: int, start: usize) -> bool {
        0 <= i < self.areas.len() && self.areas[i].start == start
    }

    /// Whether region `idx`, were it to end at page `end`, would get in
    /// the way of another region.
    pub open spec fn blocked(self, idx: int, end: usize) -> bool {
        exists|j: int|
            0 <= j < self.areas.len() && j != idx && #[trigger] self.areas[j].conflicts(
                self.areas[idx].start,
                end,
            )
    }

    /// The address space with region `idx` extended up to page `end`, the
    /// added pages mapped to the frames `added`.
    pub open spec fn grow_area(self, idx: int, end: usize, added: Seq<usize>) -> MemorySetView {
        let grown = AreaView { end, frames: self.areas[idx].frames + added, ..self.areas[idx] };
        MemorySetView {
            areas: self.areas.update(idx, grown),
            table: map_range(self.table, grown, self.areas[idx].end, end),
        }
    }

    /// The address space with region `idx` cut back to end at page `end`,
    /// the pages taken off unmapped.
    pub open spec fn shrink_area(self, idx: int, end: usize) -> MemorySetView {
        let area = self.areas[idx];
        let cut = AreaView {
            end,
            frames: if area.map_type == MapType::Framed {
                area.frames.subrange(0, end - area.start)
            } else {
                area.frames
            },
            ..area
        };
        MemorySetView {
            areas: self.areas.update(idx, cut),
            table: unmap_range(self.table, end, area.end),
        }
    }

    /// The frames that region `idx` gives back when it is cut back to end
    /// at page `end`, in page order.
    pub open spec fn dropped_frames(self, idx: int, end: usize) -> Seq<usize> {
        let area = self.areas[idx];
        if area.map_type == MapType::Framed {
            area.frames.subrange(end - area.start, area.frames.len() as int)
        } else {
            Seq::empty()
        }
    }

    /// Whether region `i` is the first that begins at page `start`.
    pub open spec fn first_begin(self, i: int, start: usize) -> bool {
        self.begins(i, start) && forall|j: int| 0 <= j < i ==> !self.begins(j, start)
    }

    /// The first region that begins at page `start`, where there is one.
    pub open spec fn begin_index(self, start: usize) -> int {
        choose|i: int| self.first_begin(i, start)
    }

    /// What extending the first region that begins at page `start` up to
    /// page `target` comes to, with frames out of `a`: the address space
    /// and the allocator afterwards, or `None` where it cannot be done.
    ///
    /// It cannot be done where no region begins at `start`, where the
    /// added pages would get in another region's way, or where `a` has
    /// too few free frames. A region that reaches `target` already stays
    /// as it is.
    pub open spec fn grown_to(self, a: FrameAllocatorView, start: usize, target: usize) -> Option<
        (MemorySetView, FrameAllocatorView),
    > {
        let idx = self.begin_index(start);
        let area = self.areas[idx];
        let count = (target - area.end) as nat;
        if !self.first_begin(idx, start) {
            None
        } else if target <= area.end {
            Some((self, a))
        } else if self.blocked(idx, target) {
            None
        } else if area.map_type == MapType::Identical {
            Some((self.grow_area(idx, target, Seq::empty()), a))
        } else if a.free_count() < count {
            None
        } else {
            Some((self.grow_area(idx, target, alloc_frames(a, count)), alloc_state(a, count)))
        }
    }

    /// What cutting the first region that begins at page `start` back to
    /// end at page `target` comes to: the address space and the allocator
    /// afterwards, or `None` where no region begins at `start` or `target`
    /// lies before `start`. A region that ends at or before `target`
    /// already stays as it is.
    pub open spec fn shrunk_to(self, a: FrameAllocatorView, start: usize, target: usize) -> Option<
        (MemorySetView, FrameAllocatorView),
    > {
        let idx = self.begin_index(start);
        let area = self.areas[idx];
        if !self.first_begin(idx, start) {
            None
        } else if target >= area.end {
            Some((self, a))
        } else if target < start {
            None
        } else {
            Some(
                (
                    self.shrink_area(idx, target),
                    release_state(a, self.dropped_frames(idx, target)),
                ),
            )
        }
    }

    /// The address space with `area` added behind the other regions and
    /// its pages mapped.
    pub open spec fn push_area(self, area: AreaView) -> MemorySetView {
        MemorySetView {
            areas: self.areas.push(area),
            table: map_range(self.table, area, area.start, area.end),
        }
    }

    /// The address space without region `idx` and without its pages.
    pub open spec fn remove_area(self, idx: int) -> MemorySetView {
        MemorySetView {
            areas: self.areas.remove(idx),
            table: unmap_range(self.table, self.areas[idx].start, self.areas[idx].end),
        }
    }
}

/// In a well-formed address space every mapped page belongs to exactly one
/// region, and every owned frame stands behind exactly one page.
pub proof fn lemma_one_region_per_page(ms: MemorySetView, vpn: usize)
    requires
        ms.wf(),
        ms.table.contains_key(vpn),
    ensures
        exists|i: int| ms.covers(i, vpn),
        forall|i: int, j: int| ms.covers(i, vpn) && ms.covers(j, vpn) ==> i == j,
        forall|i: int, k: int, j: int, l: int, ppn: usize|
            ms.owns(i, k, ppn) && ms.owns(j, l, ppn) ==> i == j && k == l,
{
    assert forall|i: int, j: int| ms.covers(i, vpn) && ms.covers(j, vpn) implies i == j by {
        if i != j {
            assert(ms.clash(i, j));
        }
    }
}

/// Adding a region that is in no region's way, with frames that no region
/// owns, keeps the invariant; the owned frames are those owned before and
/// those of the new region.
pub proof fn lemma_push_area(ms: MemorySetView, area: AreaView)
    requires
        ms.wf(),
        area.wf(),
        !ms.conflicts(area.start, area.end),
        distinct_frames(area.frames),
        forall|k: int| 0 <= k < area.frames.len() ==> !ms.owns_frame(#[trigger] area.frames[k]),
    ensures
        ms.push_area(area).wf(),
        forall|ppn: usize|
            ms.push_area(area).owns_frame(ppn) <==> ms.owns_frame(ppn) || area.frames.contains(
                ppn,
            ),
{
    let n = ms.push_area(area);
    let last = ms.areas.len() as int;
    assert(n.areas[last] == area);
    assert forall|i: int| 0 <= i < n.areas.len() implies (#[trigger] n.areas[i]).wf() by {
        if i < last {
            assert(n.areas[i] == ms.areas[i]);
            assert(ms.areas[i].wf());
        }
    }
    assert forall|i: int, j: int| !#[trigger] n.clash(i, j) by {
        if n.clash(i, j) {
            if i < last && j < last {
                assert(ms.clash(i, j));
            } else if i < last {
                assert(ms.areas[i].conflicts(area.start, area.end));
            } else {
                assert(ms.areas[j].conflicts(area.start, area.end));
            }
        }
    }
    assert forall|i: int, vpn: usize| #[trigger] n.covers(i, vpn) implies n.table.contains_key(
        vpn,
    ) && n.table[vpn] == n.areas[i].entry_of(vpn) by {
        if i < last {
            assert(ms.covers(i, vpn));
            if area.contains(vpn) {
                assert(ms.areas[i].conflicts(area.start, area.end));
            }
        }
    }
    assert forall|vpn: usize| #[trigger] n.table.contains_key(vpn) implies exists|i: int|
        n.covers(i, vpn) by {
        if area.contains(vpn) {
            assert(n.covers(last, vpn));
        } else {
            assert(ms.table.contains_key(vpn));
            let i = choose|i: int| ms.covers(i, vpn);
            assert(n.covers(i, vpn));
        }
    }
    assert forall|i: int, k: int, j: int, l: int, ppn: usize|
        #[trigger] n.owns(i, k, ppn) && #[trigger] n.owns(j, l, ppn) implies i == j && k
        == l by {
        if i < last && j < last {
            assert(ms.owns(i, k, ppn) && ms.owns(j, l, ppn));
        } else if i < last {
            assert(ms.owns(i, k, ppn));
            assert(ms.owns_frame(area.frames[l]));
        } else if j < last {
            assert(ms.owns(j, l, ppn));
            assert(ms.owns_frame(area.frames[k]));
        }
    }
    assert forall|ppn: usize|
        n.owns_frame(ppn) <==> ms.owns_frame(ppn) || area.frames.contains(ppn) by {
        if n.owns_frame(ppn) {
            let (i, k) = choose|i: int, k: int| n.owns(i, k, ppn);
            if i < last {
                assert(ms.owns(i, k, ppn));
            } else {
                assert(area.frames[k] == ppn);
            }
        }
        if ms.owns_frame(ppn) {
            let (i, k) = choose|i: int, k: int| ms.owns(i, k, ppn);
            assert(n.owns(i, k, ppn));
        }
        if area.frames.contains(ppn) {
            let k = choose|k: int| 0 <= k < area.frames.len() && area.frames[k] == ppn;
            assert(n.owns(last, k, ppn));
        }
    }
}

/// Taking a region out keeps the invariant; the owned frames are those
/// owned before, less those of the region.
pub proof fn lemma_remove_area(ms: MemorySetView, idx: int)
    requires
        ms.wf(),
        0 <= idx < ms.areas.len(),
    ensures
        ms.remove_area(idx).wf(),
        distinct_frames(ms.areas[idx].frames),
        forall|ppn: usize|
            ms.remove_area(idx).owns_frame(ppn) <==> ms.owns_frame(ppn)
                && !ms.areas[idx].frames.contains(ppn),
{
    let n = ms.remove_area(idx);
    let gone = ms.areas[idx];
    let from = |i: int|
        if i < idx {
            i
        } else {
            i + 1
        };
    assert forall|i: int| 0 <= i < n.areas.len() implies n.areas[i] == ms.areas[from(i)] by {}
    assert forall|i: int| 0 <= i < n.areas.len() implies (#[trigger] n.areas[i]).wf() by {
        assert(ms.areas[from(i)].wf());
    }
    assert forall|i: int, j: int| !#[trigger] n.clash(i, j) by {
        if n.clash(i, j) {
            assert(ms.clash(from(i), from(j)));
        }
    }
    assert forall|i: int, vpn: usize| #[trigger] n.covers(i, vpn) implies n.table.contains_key(
        vpn,
    ) && n.table[vpn] == n.areas[i].entry_of(vpn) by {
        assert(ms.covers(from(i), vpn));
        if gone.contains(vpn) {
            assert(ms.clash(from(i), idx));
        }
    }
    assert forall|vpn: usize| #[trigger] n.table.contains_key(vpn) implies exists|i: int|
        n.covers(i, vpn) by {
        let i = choose|i: int| ms.covers(i, vpn);
        if i < idx {
            assert(n.covers(i, vpn));
        } else {
            assert(i != idx);
            assert(n.covers(i - 1, vpn));
        }
    }
    assert forall|i: int, k: int, j: int, l: int, ppn: usize|
        #[trigger] n.owns(i, k, ppn) && #[trigger] n.owns(j, l, ppn) implies i == j && k
        == l by {
        assert(ms.owns(from(i), k, ppn) && ms.owns(from(j), l, ppn));
    }
    assert forall|a: int, b: int| 0 <= a < b < gone.frames.len() implies gone.frames[a]
        != gone.frames[b] by {
        if gone.frames[a] == gone.frames[b] {
            assert(ms.owns(idx, a, gone.frames[a]) && ms.owns(idx, b, gone.frames[a]));
        }
    }
    assert forall|ppn: usize|
        n.owns_frame(ppn) <==> ms.owns_frame(ppn) && !gone.frames.contains(ppn) by {
        if n.owns_frame(ppn) {
            let (i, k) = choose|i: int, k: int| n.owns(i, k, ppn);
            assert(ms.owns(from(i), k, ppn));
            if gone.frames.contains(ppn) {
                let l = choose|l: int| 0 <= l < gone.frames.len() && gone.frames[l] == ppn;
                assert(ms.owns(idx, l, ppn));
            }
        }
        if ms.owns_frame(ppn) && !gone.frames.contains(ppn) {
            let (i, k) = choose|i: int, k: int| ms.owns(i, k, ppn);
            assert(i != idx);
            if i < idx {
                assert(n.owns(i, k, ppn));
            } else {
                assert(n.owns(i - 1, k, ppn));
            }
        }
    }
}

/// Extending a region by pages that get in no other region's way, with
/// frames that no region owns, keeps the invariant; the owned frames are
/// those owned before and the added ones.
pub proof fn lemma_grow_area(ms: MemorySetView, idx: int, end: usize, added: Seq<usize>)
    requires
        ms.wf(),
        0 <= idx < ms.areas.len(),
        ms.areas[idx].end <= end,
        !ms.blocked(idx, end),
        ms.areas[idx].map_type == MapType::Framed ==> added.len() == end - ms.areas[idx].end,
        ms.areas[idx].map_type == MapType::Identical ==> added.len() == 0,
        distinct_frames(added),
        forall|k: int| 0 <= k < added.len() ==> !ms.owns_frame(#[trigger] added[k]),
    ensures
        ms.grow_area(idx, end, added).wf(),
        forall|ppn: usize|
            ms.grow_area(idx, end, added).owns_frame(ppn) <==> ms.owns_frame(ppn)
                || added.contains(ppn),
{
    let n = ms.grow_area(idx, end, added);
    let old_area = ms.areas[idx];
    let grown = n.areas[idx];
    assert(old_area.wf());
    assert forall|i: int| 0 <= i < n.areas.len() implies (#[trigger] n.areas[i]).wf() by {
        if i != idx {
            assert(n.areas[i] == ms.areas[i]);
            assert(ms.areas[i].wf());
        }
    }
    assert forall|i: int, j: int| !#[trigger] n.clash(i, j) by {
        if n.clash(i, j) {
            if i != idx && j != idx {
                assert(ms.clash(i, j));
            } else if i == idx {
                assert(ms.areas[j].conflicts(old_area.start, end));
            } else {
                assert(ms.areas[i].conflicts(old_area.start, end));
            }
        }
    }
    assert forall|i: int, vpn: usize| #[trigger] n.covers(i, vpn) implies n.table.contains_key(
        vpn,
    ) && n.table[vpn] == n.areas[i].entry_of(vpn) by {
        if i != idx {
            assert(ms.covers(i, vpn));
            if old_area.end <= vpn < end {
                assert(ms.areas[i].conflicts(old_area.start, end));
            }
        } else if vpn < old_area.end {
            assert(ms.covers(idx, vpn));
            assert(grown.entry_of(vpn) == old_area.entry_of(vpn));
        }
    }
    assert forall|vpn: usize| #[trigger] n.table.contains_key(vpn) implies exists|i: int|
        n.covers(i, vpn) by {
        if old_area.end <= vpn < end {
            assert(n.covers(idx, vpn));
        } else {
            let i = choose|i: int| ms.covers(i, vpn);
            assert(n.covers(i, vpn));
        }
    }
    let base = old_area.frames.len() as int;
    assert forall|i: int, k: int, j: int, l: int, ppn: usize|
        #[trigger] n.owns(i, k, ppn) && #[trigger] n.owns(j, l, ppn) implies i == j && k
        == l by {
        let i_old = i != idx || k < base;
        let j_old = j != idx || l < base;
        if i_old {
            assert(ms.owns(i, k, ppn));
        }
        if j_old {
            assert(ms.owns(j, l, ppn));
        }
        if !i_old {
            assert(added[k - base] == ppn);
            assert(!ms.owns_frame(added[k - base]));
        }
        if !j_old {
            assert(added[l - base] == ppn);
            assert(!ms.owns_frame(added[l - base]));
        }
    }
    assert forall|ppn: usize| n.owns_frame(ppn) <==> ms.owns_frame(ppn) || added.contains(
        ppn,
    ) by {
        if n.owns_frame(ppn) {
            let (i, k) = choose|i: int, k: int| n.owns(i, k, ppn);
            if i != idx || k < base {
                assert(ms.owns(i, k, ppn));
            } else {
                assert(added[k - base] == ppn);
            }
        }
        if ms.owns_frame(ppn) {
            let (i, k) = choose|i: int, k: int| ms.owns(i, k, ppn);
            assert(n.owns(i, k, ppn));
        }
        if added.contains(ppn) {
            let k = choose|k: int| 0 <= k < added.len() && added[k] == ppn;
            assert(n.owns(idx, base + k, ppn));
        }
    }
}

/// Cutting a region back keeps the invariant; the owned frames are those
/// owned before, less the ones given back.
pub proof fn lemma_shrink_area(ms: MemorySetView, idx: int, end: usize)
    requires
        ms.wf(),
        0 <= idx < ms.areas.len(),
        ms.areas[idx].start <= end <= ms.areas[idx].end,
    ensures
        ms.shrink_area(idx, end).wf(),
        distinct_frames(ms.areas[idx].frames),
        forall|ppn: usize|
            ms.shrink_area(idx, end).owns_frame(ppn) <==> ms.owns_frame(ppn)
                && !ms.dropped_frames(idx, end).contains(ppn),
{
    let n = ms.shrink_area(idx, end);
    let area = ms.areas[idx];
    let cut = n.areas[idx];
    let dropped = ms.dropped_frames(idx, end);
    assert(area.wf());
    assert forall|i: int| 0 <= i < n.areas.len() implies (#[trigger] n.areas[i]).wf() by {
        if i != idx {
            assert(n.areas[i] == ms.areas[i]);
            assert(ms.areas[i].wf());
        }
    }
    assert forall|i: int, j: int| !#[trigger] n.clash(i, j) by {
        if n.clash(i, j) {
            assert(ms.clash(i, j));
        }
    }
    assert forall|i: int, vpn: usize| #[trigger] n.covers(i, vpn) implies n.table.contains_key(
        vpn,
    ) && n.table[vpn] == n.areas[i].entry_of(vpn) by {
        assert(ms.covers(i, vpn));
        if i != idx {
            if area.contains(vpn) {
                assert(ms.clash(i, idx));
            }
        } else {
            assert(cut.entry_of(vpn) == area.entry_of(vpn));
        }
    }
    assert forall|vpn: usize| #[trigger] n.table.contains_key(vpn) implies exists|i: int|
        n.covers(i, vpn) by {
        let i = choose|i: int| ms.covers(i, vpn);
        assert(n.covers(i, vpn));
    }
    assert forall|i: int, k: int, j: int, l: int, ppn: usize|
        #[trigger] n.owns(i, k, ppn) && #[trigger] n.owns(j, l, ppn) implies i == j && k
        == l by {
        assert(ms.owns(i, k, ppn) && ms.owns(j, l, ppn));
    }
    assert forall|a: int, b: int| 0 <= a < b < area.frames.len() implies area.frames[a]
        != area.frames[b] by {
        if area.frames[a] == area.frames[b] {
            assert(ms.owns(idx, a, area.frames[a]) && ms.owns(idx, b, area.frames[a]));
        }
    }
    let keep = cut.frames.len() as int;
    assert forall|ppn: usize| n.owns_frame(ppn) <==> ms.owns_frame(ppn) && !dropped.contains(
        ppn,
    ) by {
        if n.owns_frame(ppn) {
            let (i, k) = choose|i: int, k: int| n.owns(i, k, ppn);
            assert(ms.owns(i, k, ppn));
            if dropped.contains(ppn) {
                let l = choose|l: int| 0 <= l < dropped.len() && dropped[l] == ppn;
                assert(ms.owns(idx, keep + l, ppn));
            }
        }
        if ms.owns_frame(ppn) && !dropped.contains(ppn) {
            let (i, k) = choose|i: int, k: int| ms.owns(i, k, ppn);
            if i == idx && k >= keep {
                assert(dropped[k - keep] == ppn);
            }
            assert(n.owns(i, k, ppn));
        }
    }
}

/// Whether an address space went from `ms0` to `ms1` by taking frames
/// out of the allocator, which went from `a0` to `a1`: it owns what it
/// owned and, besides, frames that were free; exactly those are allocated
/// in addition.
pub open spec fn frames_taken(
    ms0: MemorySetView,
    a0: FrameAllocatorView,
    ms1: MemorySetView,
    a1: FrameAllocatorView,
) -> bool {
    &&& forall|ppn: usize| #[trigger] ms0.owns_frame(ppn) ==> ms1.owns_frame(ppn)
    &&& forall|ppn: usize|
        #[trigger] ms1.owns_frame(ppn) && !ms0.owns_frame(ppn) ==> !a0.is_allocated(ppn)
    &&& forall|ppn: usize|
        #[trigger] a1.is_allocated(ppn) <==> a0.is_allocated(ppn) || ms1.owns_frame(ppn)
}

/// Whether an address space went from `ms0` to `ms1` by giving frames back
/// to the allocator, which went from `a0` to `a1`: it owns some of what it
/// owned, and exactly the others are no longer allocated.
pub open spec fn frames_given(
    ms0: MemorySetView,
    a0: FrameAllocatorView,
    ms1: MemorySetView,
    a1: FrameAllocatorView,
) -> bool {
    &&& forall|ppn: usize| #[trigger] ms1.owns_frame(ppn) ==> ms0.owns_frame(ppn)
    &&& forall|ppn: usize|
        #[trigger] a1.is_allocated(ppn) <==> a0.is_allocated(ppn) && (!ms0.owns_frame(ppn)
            || ms1.owns_frame(ppn))
}

/// The first region that begins at a given page is one region only.
pub proof fn lemma_first_begin(ms: MemorySetView, i: int, start: usize)
    requires
        ms.first_begin(i, start),
    ensures
        ms.begin_index(start) == i,
{
    let c = ms.begin_index(start);
    assert(ms.first_begin(c, start));
    if c < i {
        assert(!ms.begins(c, start));
    } else if i < c {
        assert(!ms.begins(i, start));
    }
}

/// The allocator state after the frames of all regions of `areas` were
/// given back: those of the last region first, each region's in page
/// order.
pub open spec fn release_all(a: FrameAllocatorView, areas: Seq<AreaView>) -> FrameAllocatorView
    decreases areas.len(),
{
    if areas.len() == 0 {
        a
    } else {
        release_all(release_state(a, areas.last().frames), areas.drop_last())
    }
}

/// The memory image of one task: a page table and the regions mapped in
/// it.
pub struct MemorySet {
    page_table: PageTable,
    areas: Vec<MapArea>,
}

impl View for MemorySet {
    type V = MemorySetView;

    closed spec fn view(&self) -> MemorySetView {
        MemorySetView {
            areas: Seq::new(self.areas@.len(), |i: int| self.areas@[i]@),
            table: self.page_table@,
        }
    }
}

impl MemorySet {
    /// The invariant of an address space holds of this one.
    pub closed spec fn wf(&self) -> bool {
        self.page_table.wf() && self@.wf()
    }

    /// This address space and the frame allocator `frames` fit together:
    /// both are well formed, and every frame that a region owns is
    /// allocated.
    pub open spec fn wf_with(&self, frames: &StackFrameAllocator) -> bool {
        self.wf() && frames.wf() && self@.frames_allocated(frames@)
    }

    /// A well-formed address space has a well-formed view.
    pub proof fn lemma_wf(&self)
        requires
            self.wf(),
        ensures
            self@.wf(),
    {
    }

    /// An address space without regions.
    pub fn new_bare() -> (ms: MemorySet)
        ensures
            ms.wf(),
            ms@.areas == Seq::<AreaView>::empty(),
            ms@.table == Map::<usize, PageTableEntry>::empty(),
    {
        let ms = MemorySet { page_table: PageTable::new(), areas: Vec::new() };
        proof {
            assert(ms@.areas =~= Seq::<AreaView>::empty());
        }
        ms
    }

    /// The number of regions.
    pub fn area_count(&self) -> (n: usize)
        ensures
            n == self@.areas.len(),
    {
        self.areas.len()
    }

    /// Region `i`, counted in the order in which the regions were added.
    pub fn area(&self, i: usize) -> (area: &MapArea)
        requires
            i < self@.areas.len(),
        ensures
            area@ == self@.areas[i as int],
    {
        &self.areas[i]
    }

    /// The page table of this address space.
    pub fn page_table(&self) -> (pt: &PageTable)
        requires
            self.wf(),
        ensures
            pt.wf(),
            pt@ == self@.table,
    {
        &self.page_table
    }

    /// The entry of page `vpn`, if the page is mapped.
    pub fn translate(&self, vpn: VirtPageNum) -> (res: Option<PageTableEntry>)
        requires
            self.wf(),
        ensures
            res == if self@.table.contains_key(vpn.0) {
                Some(self@.table[vpn.0])
            } else {
                None
            },
    {
        self.page_table.translate(vpn)
    }

    /// Whether the pages from `start` up to `end` get in the way of some
    /// region.
    pub fn conflicts(&self, start: VirtPageNum, end: VirtPageNum) -> (b: bool)
        ensures
            b == self@.conflicts(start.0, end.0),
    {
        let n = self.areas.len();
        let mut i: usize = 0;
        while i < n
            invariant
                n == self.areas@.len(),
                i <= n,
                forall|j: int| 0 <= j < i ==> !(#[trigger] self@.areas[j]).conflicts(start.0, end.0),
            decreases n - i,
        {
            let area = &self.areas[i];
            if !(end.0 <= area.start.0 || start.0 >= area.end.0) {
                assert(self@.areas[i as int].conflicts(start.0, end.0));
                return true;
            }
            i = i + 1;
        }
        false
    }

    /// The first region that spans exactly the pages from `start` up to
    /// `end`, if there is one.
    pub fn find_area(&self, start: VirtPageNum, end: VirtPageNum) -> (res: Option<usize>)
        ensures
            res is None ==> forall|i: int| !self@.spans(i, start.0, end.0),
            res is Some ==> self@.spans(res->0 as int, start.0, end.0) && forall|i: int|
                0 <= i < res->0 ==> !self@.spans(i, start.0, end.0),
    {
        let n = self.areas.len();
        let mut i: usize = 0;
        while i < n
            invariant
                n == self.areas@.len(),
                i <= n,
                forall|j: int| 0 <= j < i ==> !self@.spans(j, start.0, end.0),
            decreases n - i,
        {
            let area = &self.areas[i];
            if area.start.0 == start.0 && area.end.0 == end.0 {
                return Some(i);
            }
            i = i + 1;
        }
        None
    }

    /// Adds the pages from `start` up to `end` as one new region of kind
    /// `map_type`.
    fn insert_area(
        &mut self,
        start: VirtPageNum,
        end: VirtPageNum,
        map_type: MapType,
        permission: MapPermission,
        frames: &mut StackFrameAllocator,
    )
        requires
            old(self).wf_with(old(frames)),
            start.0 <= end.0,
            !old(self)@.conflicts(start.0, end.0),
            map_type == MapType::Framed ==> old(frames)@.free_count() >= end.0 - start.0,
        ensures
            final(self).wf_with(final(frames)),
            final(self)@ == old(self)@.push_area(
                AreaView {
                    start: start.0,
                    end: end.0,
                    map_type,
                    perm: permission,
                    frames: if map_type == MapType::Framed {
                        alloc_frames(old(frames)@, (end.0 - start.0) as nat)
                    } else {
                        Seq::empty()
                    },
                },
            ),
            final(frames)@ == if map_type == MapType::Framed {
                alloc_state(old(frames)@, (end.0 - start.0) as nat)
            } else {
                old(frames)@
            },
            frames_taken(old(self)@, old(frames)@, final(self)@, final(frames)@),
    {
        let ghost ms0 = self@;
        let ghost a0 = frames@;
        let ghost count = (end.0 - start.0) as nat;
        let mut area = MapArea::new(start, map_type, permission);
        proof {
            assert forall|v: usize| start.0 <= v < end.0 implies !self.page_table@.contains_key(
                v,
            ) by {
                if ms0.table.contains_key(v) {
                    let i = choose|i: int| ms0.covers(i, v);
                    assert(ms0.areas[i].conflicts(start.0, end.0));
                }
            }
        }
        area.append_to(&mut self.page_table, end, frames);
        let ghost added = area@;
        self.areas.push(area);
        proof {
            assert(Seq::<usize>::empty() + alloc_frames(a0, count) =~= alloc_frames(a0, count));
            assert(self@.areas =~= ms0.areas.push(added));
            if map_type == MapType::Framed {
                lemma_alloc_many(a0, count);
            }
            assert forall|k: int| 0 <= k < added.frames.len() implies !ms0.owns_frame(
                #[trigger] added.frames[k],
            ) by {}
            lemma_push_area(ms0, added);
            let ms1 = self@;
            let a1 = frames@;
            assert forall|ppn: usize| added.frames.contains(ppn) implies !a0.is_allocated(ppn)
                && a1.is_allocated(ppn) by {
                let k = choose|k: int| 0 <= k < added.frames.len() && added.frames[k] == ppn;
                assert(!a0.is_allocated(alloc_frames(a0, count)[k]));
            }
            assert forall|ppn: usize| #[trigger] ms1.owns_frame(ppn) implies a1.is_allocated(
                ppn,
            ) by {
                assert(ms0.owns_frame(ppn) || added.frames.contains(ppn));
            }
            assert forall|ppn: usize| #[trigger]
                a1.is_allocated(ppn) <==> a0.is_allocated(ppn) || ms1.owns_frame(ppn) by {
                assert(ms1.owns_frame(ppn) <==> ms0.owns_frame(ppn) || added.frames.contains(
                    ppn,
                ));
            }
            assert forall|ppn: usize| #[trigger]
                ms1.owns_frame(ppn) && !ms0.owns_frame(ppn) implies !a0.is_allocated(ppn) by {
                assert(added.frames.contains(ppn));
            }
        }
    }

    /// Maps the pages that the addresses from `start_va` up to `end_va`
    /// touch as one new framed region with permission `permission`: each
    /// page gets a frame of its own from `frames`.
    ///
    /// The range must be in no existing region's way, and `frames` must
    /// have a free frame for each page.
    pub fn insert_framed_area(
        &mut self,
        start_va: VirtAddr,
        end_va: VirtAddr,
        permission: MapPermission,
        frames: &mut StackFrameAllocator,
    )
        requires
            old(self).wf_with(old(frames)),
            page_floor(start_va.0 as int) <= page_ceil(end_va.0 as int),
            !old(self)@.conflicts(
                page_floor(start_va.0 as int) as usize,
                page_ceil(end_va.0 as int) as usize,
            ),
            old(frames)@.free_count() >= page_ceil(end_va.0 as int) - page_floor(
                start_va.0 as int,
            ),
        ensures
            final(self).wf_with(final(frames)),
            final(self)@ == old(self)@.push_area(
                AreaView {
                    start: page_floor(start_va.0 as int) as usize,
                    end: page_ceil(end_va.0 as int) as usize,
                    map_type: MapType::Framed,
                    perm: permission,
                    frames: alloc_frames(
                        old(frames)@,
                        (page_ceil(end_va.0 as int) - page_floor(start_va.0 as int)) as nat,
                    ),
                },
            ),
            final(frames)@ == alloc_state(
                old(frames)@,
                (page_ceil(end_va.0 as int) - page_floor(start_va.0 as int)) as nat,
            ),
            frames_taken(old(self)@, old(frames)@, final(self)@, final(frames)@),
    {
        self.insert_area(start_va.floor(), end_va.ceil(), MapType::Framed, permission, frames);
    }

    /// Maps the pages that the addresses from `start_va` up to `end_va`
    /// touch as one new identical region with permission `permission`:
    /// each page maps to the frame of its own number, and no frame is
    /// taken from `frames`.
    ///
    /// The range must be in no existing region's way.
    pub fn insert_identical_area(
        &mut self,
        start_va: VirtAddr,
        end_va: VirtAddr,
        permission: MapPermission,
        frames: &mut StackFrameAllocator,
    )
        requires
            old(self).wf_with(old(frames)),
            page_floor(start_va.0 as int) <= page_ceil(end_va.0 as int),
            !old(self)@.conflicts(
                page_floor(start_va.0 as int) as usize,
                page_ceil(end_va.0 as int) as usize,
            ),
        ensures
            final(self).wf_with(final(frames)),
            final(self)@ == old(self)@.push_area(
                AreaView {
                    start: page_floor(start_va.0 as int) as usize,
                    end: page_ceil(end_va.0 as int) as usize,
                    map_type: MapType::Identical,
                    perm: permission,
                    frames: Seq::empty(),
                },
            ),
            final(frames)@ == old(frames)@,
            frames_taken(old(self)@, old(frames)@, final(self)@, final(frames)@),
    {
        self.insert_area(start_va.floor(), end_va.ceil(), MapType::Identical, permission, frames);
    }

    /// Takes region `idx` out of the address space: its pages are
    /// unmapped, its frames given back to `frames` in page order, and the
    /// regions behind it move up by one.
    pub fn remove_area(&mut self, idx: usize, frames: &mut StackFrameAllocator)
        requires
            old(self).wf_with(old(frames)),
            idx < old(self)@.areas.len(),
        ensures
            final(self).wf_with(final(frames)),
            final(self)@ == old(self)@.remove_area(idx as int),
            final(frames)@ == release_state(old(frames)@, old(self)@.areas[idx as int].frames),
            forall|ppn: usize|
                final(self)@.owns_frame(ppn) <==> old(self)@.owns_frame(ppn) && !old(
                    self,
                )@.areas[idx as int].frames.contains(ppn),
            forall|ppn: usize|
                final(frames)@.is_allocated(ppn) <==> old(frames)@.is_allocated(ppn) && !old(
                    self,
                )@.areas[idx as int].frames.contains(ppn),
            frames_given(old(self)@, old(frames)@, final(self)@, final(frames)@),
    {
        let ghost ms0 = self@;
        let ghost a0 = frames@;
        let ghost gone = ms0.areas[idx as int];
        let mut area = self.areas.remove(idx);
        let start = area.get_start();
        proof {
            assert(area@ == gone);
            assert(gone.wf());
            lemma_remove_area(ms0, idx as int);
            assert forall|v: usize| gone.start <= v < gone.end implies self.page_table@.contains_key(
                v,
            ) by {
                assert(ms0.covers(idx as int, v));
            }
            assert forall|k: int| 0 <= k < gone.frames.len() implies a0.is_allocated(
                #[trigger] gone.frames[k],
            ) by {
                assert(ms0.owns(idx as int, k, gone.frames[k]));
                assert(ms0.owns_frame(gone.frames[k]));
            }
            lemma_release(a0, gone.frames);
        }
        area.shrink_to(&mut self.page_table, start, frames);
        proof {
            assert(self@.areas =~= ms0.areas.remove(idx as int));
            if gone.map_type == MapType::Framed {
                assert(gone.frames.subrange(0, gone.frames.len() as int) =~= gone.frames);
            } else {
                assert(a0.recycled + gone.frames =~= a0.recycled);
            }
            assert(frames@ == release_state(a0, gone.frames));
            assert forall|ppn: usize| #[trigger] self@.owns_frame(ppn) implies frames@.is_allocated(
                ppn,
            ) by {
                assert(ms0.owns_frame(ppn));
            }
            let ms1 = self@;
            let a1 = frames@;
            assert forall|ppn: usize| gone.frames.contains(ppn) implies ms0.owns_frame(ppn) by {
                let k = choose|k: int| 0 <= k < gone.frames.len() && gone.frames[k] == ppn;
                assert(ms0.owns(idx as int, k, ppn));
            }
            assert forall|ppn: usize| #[trigger]
                a1.is_allocated(ppn) <==> a0.is_allocated(ppn) && (!ms0.owns_frame(ppn)
                    || ms1.owns_frame(ppn)) by {
                assert(ms1.owns_frame(ppn) <==> ms0.owns_frame(ppn) && !gone.frames.contains(
                    ppn,
                ));
                assert(a1.is_allocated(ppn) <==> a0.is_allocated(ppn) && !gone.frames.contains(
                    ppn,
                ));
            }
        }
    }
}

impl MemorySet {
    /// Takes every region out of the address space, the last first: all
    /// pages are unmapped and all frames given back to `frames`.
    pub fn recycle_data_pages(&mut self, frames: &mut StackFrameAllocator)
        requires
            old(self).wf_with(old(frames)),
        ensures
            final(self).wf_with(final(frames)),
            final(self)@.areas == Seq::<AreaView>::empty(),
            final(self)@.table == Map::<usize, PageTableEntry>::empty(),
            final(frames)@ == release_all(old(frames)@, old(self)@.areas),
            forall|ppn: usize|
                final(frames)@.is_allocated(ppn) <==> old(frames)@.is_allocated(ppn) && !old(
                    self,
                )@.owns_frame(ppn),
            frames_given(old(self)@, old(frames)@, final(self)@, final(frames)@),
    {
        let ghost ms0 = self@;
        let ghost a0 = frames@;
        let mut n: usize = self.areas.len();
        proof {
            assert(ms0.areas.subrange(0, n as int) =~= ms0.areas);
        }
        while n > 0
            invariant
                self.wf_with(frames),
                n == self@.areas.len(),
                n <= ms0.areas.len(),
                self@.areas == ms0.areas.subrange(0, n as int),
                release_all(frames@, self@.areas) == release_all(a0, ms0.areas),
                forall|ppn: usize| #[trigger] self@.owns_frame(ppn) ==> ms0.owns_frame(ppn),
                forall|ppn: usize|
                    frames@.is_allocated(ppn) <==> a0.is_allocated(ppn) && (!ms0.owns_frame(ppn)
                        || self@.owns_frame(ppn)),
            decreases n,
        {
            let ghost before = self@;
            let ghost a1 = frames@;
            let ghost gone = before.areas[n - 1].frames;
            self.remove_area(n - 1, frames);
            proof {
                assert(before.areas.last() == before.areas[n - 1]);
                assert(self@.areas =~= before.areas.drop_last());
                assert(self@.areas =~= ms0.areas.subrange(0, n - 1));
                assert forall|ppn: usize| gone.contains(ppn) implies before.owns_frame(ppn) by {
                    let k = choose|k: int| 0 <= k < gone.len() && gone[k] == ppn;
                    assert(before.owns(n - 1, k, ppn));
                }
                assert forall|ppn: usize|
                    frames@.is_allocated(ppn) <==> a0.is_allocated(ppn) && (!ms0.owns_frame(ppn)
                        || self@.owns_frame(ppn)) by {
                    assert(frames@.is_allocated(ppn) <==> a1.is_allocated(ppn) && !gone.contains(
                        ppn,
                    ));
                    assert(self@.owns_frame(ppn) <==> before.owns_frame(ppn) && !gone.contains(
                        ppn,
                    ));
                    if gone.contains(ppn) {
                        assert(before.owns_frame(ppn));
                    }
                }
            }
            n = n - 1;
        }
        proof {
            assert(self@.areas =~= Seq::<AreaView>::empty());
            assert forall|vpn: usize| !self@.table.contains_key(vpn) by {
                if self@.table.contains_key(vpn) {
                    let i = choose|i: int| self@.covers(i, vpn);
                    assert(self@.covers(i, vpn));
                }
            }
            assert(self@.table =~= Map::<usize, PageTableEntry>::empty());
            assert forall|ppn: usize| !self@.owns_frame(ppn) by {
                if self@.owns_frame(ppn) {
                    let (i, k) = choose|i: int, k: int| self@.owns(i, k, ppn);
                    assert(self@.owns(i, k, ppn));
                }
            }
        }
    }
}

impl MemorySet {
    /// The first region that begins at page `start`, if there is one.
    pub fn find_by_start(&self, start: VirtPageNum) -> (res: Option<usize>)
        ensures
            res is None ==> forall|i: int| !self@.begins(i, start.0),
            res is Some ==> self@.first_begin(res->0 as int, start.0),
    {
        let n = self.areas.len();
        let mut i: usize = 0;
        while i < n
            invariant
                n == self.areas@.len(),
                i <= n,
                forall|j: int| 0 <= j < i ==> !self@.begins(j, start.0),
            decreases n - i,
        {
            if self.areas[i].start.0 == start.0 {
                return Some(i);
            }
            i = i + 1;
        }
        None
    }

    /// Whether region `idx`, were it to end at page `end`, would get in
    /// the way of another region.
    pub fn blocked(&self, idx: usize, end: VirtPageNum) -> (b: bool)
        requires
            idx < self@.areas.len(),
        ensures
            b == self@.blocked(idx as int, end.0),
    {
        let n = self.areas.len();
        let start = self.areas[idx].start.0;
        let mut j: usize = 0;
        while j < n
            invariant
                n == self.areas@.len(),
                idx < n,
                j <= n,
                start == self@.areas[idx as int].start,
                forall|l: int|
                    0 <= l < j && l != idx ==> !(#[trigger] self@.areas[l]).conflicts(start, end.0),
            decreases n - j,
        {
            if j != idx {
                let area = &self.areas[j];
                if !(end.0 <= area.start.0 || start >= area.end.0) {
                    assert(self@.areas[j as int].conflicts(start, end.0));
                    return true;
                }
            }
            j = j + 1;
        }
        false
    }

    /// Extends the first region that begins at the page of `start` so that
    /// it holds every address before `new_end`, with frames out of
    /// `frames`. Returns whether that was done; where not, nothing has
    /// changed.
    pub fn append_to(
        &mut self,
        start: VirtAddr,
        new_end: VirtAddr,
        frames: &mut StackFrameAllocator,
    ) -> (done: bool)
        requires
            old(self).wf_with(old(frames)),
        ensures
            final(self).wf_with(final(frames)),
            match old(self)@.grown_to(
                old(frames)@,
                page_floor(start.0 as int) as usize,
                page_ceil(new_end.0 as int) as usize,
            ) {
                Some((ms, a)) => done && final(self)@ == ms && final(frames)@ == a,
                None => !done && final(self)@ == old(self)@ && final(frames)@ == old(frames)@,
            },
            frames_taken(old(self)@, old(frames)@, final(self)@, final(frames)@),
    {
        let ghost ms0 = self@;
        let ghost a0 = frames@;
        let first = start.floor();
        let target = new_end.ceil();
        let idx = match self.find_by_start(first) {
            None => {
                proof {
                    assert(!ms0.begins(ms0.begin_index(first.0), first.0));
                }
                return false;
            },
            Some(idx) => idx,
        };
        proof {
            lemma_first_begin(ms0, idx as int, first.0);
        }
        let end = self.areas[idx].end.0;
        if target.0 <= end {
            return true;
        }
        if self.blocked(idx, target) {
            return false;
        }
        let ghost count = (target.0 - end) as nat;
        match self.areas[idx].map_type {
            MapType::Identical => {},
            MapType::Framed => {
                if frames.free_frames() < target.0 - end {
                    return false;
                }
            },
        }
        let ghost area0 = ms0.areas[idx as int];
        let mut area = self.areas.remove(idx);
        proof {
            assert(area@ == area0);
            assert(area0.wf());
            assert forall|v: usize| end <= v < target.0 implies !self.page_table@.contains_key(
                v,
            ) by {
                if ms0.table.contains_key(v) {
                    let i = choose|i: int| ms0.covers(i, v);
                    assert(ms0.covers(i, v));
                    assert(ms0.areas[i].conflicts(area0.start, target.0));
                }
            }
        }
        area.append_to(&mut self.page_table, target, frames);
        let ghost grown = area@;
        self.areas.insert(idx, area);
        proof {
            let added = if area0.map_type == MapType::Framed {
                alloc_frames(a0, count)
            } else {
                Seq::<usize>::empty()
            };
            if area0.map_type == MapType::Framed {
                lemma_alloc_many(a0, count);
            } else {
                assert(area0.frames + added =~= area0.frames);
            }
            assert(self@.areas =~= ms0.areas.update(idx as int, grown));
            assert forall|k: int| 0 <= k < added.len() implies !ms0.owns_frame(
                #[trigger] added[k],
            ) by {}
            lemma_grow_area(ms0, idx as int, target.0, added);
            assert(self@ == ms0.grow_area(idx as int, target.0, added));
            assert forall|ppn: usize| added.contains(ppn) implies !a0.is_allocated(ppn) by {
                let k = choose|k: int| 0 <= k < added.len() && added[k] == ppn;
                assert(!a0.is_allocated(alloc_frames(a0, count)[k]));
            }
            let ms1 = self@;
            let a1 = frames@;
            assert forall|ppn: usize| a1.is_allocated(ppn) <==> a0.is_allocated(ppn)
                || added.contains(ppn) by {}
            assert forall|ppn: usize| #[trigger] ms1.owns_frame(ppn) implies a1.is_allocated(
                ppn,
            ) by {
                assert(ms0.owns_frame(ppn) || added.contains(ppn));
            }
            assert forall|ppn: usize| #[trigger]
                a1.is_allocated(ppn) <==> a0.is_allocated(ppn) || ms1.owns_frame(ppn) by {
                assert(ms1.owns_frame(ppn) <==> ms0.owns_frame(ppn) || added.contains(ppn));
            }
            assert forall|ppn: usize| #[trigger]
                ms1.owns_frame(ppn) && !ms0.owns_frame(ppn) implies !a0.is_allocated(ppn) by {
                assert(added.contains(ppn));
            }
        }
        true
    }

    /// Cuts the first region that begins at the page of `start` back so
    /// that it holds no page that lies wholly at or after `new_end`; the
    /// frames of the pages taken off go back to `frames`. Returns whether
    /// that was done; where not, nothing has changed.
    pub fn shrink_to(
        &mut self,
        start: VirtAddr,
        new_end: VirtAddr,
        frames: &mut StackFrameAllocator,
    ) -> (done: bool)
        requires
            old(self).wf_with(old(frames)),
        ensures
            final(self).wf_with(final(frames)),
            match old(self)@.shrunk_to(
                old(frames)@,
                page_floor(start.0 as int) as usize,
                page_ceil(new_end.0 as int) as usize,
            ) {
                Some((ms, a)) => done && final(self)@ == ms && final(frames)@ == a,
                None => !done && final(self)@ == old(self)@ && final(frames)@ == old(frames)@,
            },
            frames_given(old(self)@, old(frames)@, final(self)@, final(frames)@),
    {
        let ghost ms0 = self@;
        let ghost a0 = frames@;
        let first = start.floor();
        let target = new_end.ceil();
        let idx = match self.find_by_start(first) {
            None => {
                proof {
                    assert(!ms0.begins(ms0.begin_index(first.0), first.0));
                }
                return false;
            },
            Some(idx) => idx,
        };
        proof {
            lemma_first_begin(ms0, idx as int, first.0);
        }
        if target.0 >= self.areas[idx].end.0 {
            return true;
        }
        if target.0 < first.0 {
            return false;
        }
        let ghost area0 = ms0.areas[idx as int];
        let ghost dropped = ms0.dropped_frames(idx as int, target.0);
        let mut area = self.areas.remove(idx);
        proof {
            assert(area@ == area0);
            assert(area0.wf());
            lemma_shrink_area(ms0, idx as int, target.0);
            assert forall|v: usize| target.0 <= v < area0.end implies self.page_table@.contains_key(
                v,
            ) by {
                assert(ms0.covers(idx as int, v));
            }
            assert forall|k: int| 0 <= k < area0.frames.len() implies a0.is_allocated(
                #[trigger] area0.frames[k],
            ) by {
                assert(ms0.owns(idx as int, k, area0.frames[k]));
                assert(ms0.owns_frame(area0.frames[k]));
            }
            assert forall|k: int| 0 <= k < dropped.len() implies a0.is_allocated(
                #[trigger] dropped[k],
            ) by {
                assert(dropped[k] == area0.frames[target.0 - area0.start + k]);
            }
            assert forall|i: int, j: int| 0 <= i < j < dropped.len() implies dropped[i]
                != dropped[j] by {
                assert(dropped[i] == area0.frames[target.0 - area0.start + i]);
                assert(dropped[j] == area0.frames[target.0 - area0.start + j]);
            }
            lemma_release(a0, dropped);
            if area0.map_type == MapType::Identical {
                assert(a0.recycled + dropped =~= a0.recycled);
            }
        }
        area.shrink_to(&mut self.page_table, target, frames);
        let ghost cut = area@;
        self.areas.insert(idx, area);
        proof {
            assert(self@.areas =~= ms0.areas.update(idx as int, cut));
            assert(self@ == ms0.shrink_area(idx as int, target.0));
            assert forall|ppn: usize| dropped.contains(ppn) implies ms0.owns_frame(ppn) by {
                let k = choose|k: int| 0 <= k < dropped.len() && dropped[k] == ppn;
                assert(ms0.owns(idx as int, target.0 - area0.start + k, ppn));
            }
            let ms1 = self@;
            let a1 = frames@;
            assert forall|ppn: usize| a1.is_allocated(ppn) <==> a0.is_allocated(ppn)
                && !dropped.contains(ppn) by {}
            assert forall|ppn: usize| #[trigger] ms1.owns_frame(ppn) implies a1.is_allocated(
                ppn,
            ) by {
                assert(ms0.owns_frame(ppn) && !dropped.contains(ppn));
            }
            assert forall|ppn: usize| #[trigger]
                a1.is_allocated(ppn) <==> a0.is_allocated(ppn) && (!ms0.owns_frame(ppn)
                    || ms1.owns_frame(ppn)) by {
                assert(ms1.owns_frame(ppn) <==> ms0.owns_frame(ppn) && !dropped.contains(ppn));
            }
        }
        true
    }
}

} // verus!
