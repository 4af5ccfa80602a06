//! Page tables: for each mapped virtual page the frame behind it and what
//! may be done with it.

use std::collections::HashMap;
use vstd::prelude::*;
use crate::config::PAGE_SIZE;
use crate::mm::address::{page_floor, PhysPageNum, VirtPageNum};

verus! {

broadcast use vstd::std_specs::hash::group_hash_axioms;

/// What a mapped region allows: reading, writing, executing, and access
/// from user mode.
#[derive(Clone, Copy, Debug, PartialEq, Eq, Structural)]
pub struct MapPermission {
    pub r: bool,
    pub w: bool,
    pub x: bool,
    pub u: bool,
}

/// The flags of one page-table entry: valid, read, write, execute, user.
#[derive(Clone, Copy, Debug, PartialEq, Eq, Structural)]
pub struct PTEFlags {
    pub v: bool,
    pub r: bool,
    pub w: bool,
    pub x: bool,
    pub u: bool,
}

/// The flags of a valid entry that grants exactly `perm`.
pub open spec fn flags_of(perm: MapPermission) -> PTEFlags {
    PTEFlags { v: true, r: perm.r, w: perm.w, x: perm.x, u: perm.u }
}

impl PTEFlags {
    /// The flags of a valid entry that grants exactly `perm`.
    pub fn from_permission(perm: MapPermission) -> (flags: PTEFlags)
        ensures
            flags == flags_of(perm),
    {
        PTEFlags { v: true, r: perm.r, w: perm.w, x: perm.x, u: perm.u }
    }
}

/// One mapping from a virtual page to a frame.
#[derive(Clone, Copy, Debug, PartialEq, Eq, Structural)]
pub struct PageTableEntry {
    pub ppn: PhysPageNum,
    pub flags: PTEFlags,
}

impl PageTableEntry {
    /// An entry that maps to `ppn` with `flags`.
    pub fn new(ppn: PhysPageNum, flags: PTEFlags) -> (pte: PageTableEntry)
        ensures
            pte == (PageTableEntry { ppn, flags }),
    {
        PageTableEntry { ppn, flags }
    }

    /// An entry that maps nothing: frame 0 and no flag set.
    pub fn empty() -> (pte: PageTableEntry)
        ensures
            pte.ppn.0 == 0,
            pte.flags == (PTEFlags { v: false, r: false, w: false, x: false, u: false }),
    {
        PageTableEntry {
            ppn: PhysPageNum(0),
            flags: PTEFlags { v: false, r: false, w: false, x: false, u: false },
        }
    }

    /// The frame this entry maps to.
    pub fn ppn(&self) -> (ppn: PhysPageNum)
        ensures
            ppn == self.ppn,
    {
        self.ppn
    }

    /// The flags of this entry.
    pub fn flags(&self) -> (flags: PTEFlags)
        ensures
            flags == self.flags,
    {
        self.flags
    }

    /// Whether the entry may be used at all.
    pub fn is_valid(&self) -> (b: bool)
        ensures
            b == self.flags.v,
    {
        self.flags.v
    }

    /// Whether the page may be read: only a valid entry grants anything.
    pub fn readable(&self) -> (b: bool)
        ensures
            b == (self.flags.v && self.flags.r),
    {
        self.flags.v && self.flags.r
    }

    /// Whether the page may be written.
    pub fn writable(&self) -> (b: bool)
        ensures
            b == (self.flags.v && self.flags.w),
    {
        self.flags.v && self.flags.w
    }

    /// Whether the page may be executed.
    pub fn executable(&self) -> (b: bool)
        ensures
            b == (self.flags.v && self.flags.x),
    {
        self.flags.v && self.flags.x
    }
}

/// The page table of one address space.
///
/// Its view is the map from the numbers of the mapped virtual pages to
/// their entries. Every entry it holds is valid.
pub struct PageTable {
    entries: HashMap<usize, PageTableEntry>,
}

impl View for PageTable {
    type V = Map<usize, PageTableEntry>;

    closed spec fn view(&self) -> Map<usize, PageTableEntry> {
        self.entries@
    }
}

impl PageTable {
    /// Every entry is valid, and the mapped pages are finitely many.
    pub closed spec fn wf(&self) -> bool {
        &&& self.entries@.dom().finite()
        &&& forall|vpn: usize| #[trigger]
            self.entries@.contains_key(vpn) ==> self.entries@[vpn].flags.v
    }

    /// What `wf` says, over the view.
    pub proof fn lemma_wf(&self)
        requires
            self.wf(),
        ensures
            self@.dom().finite(),
            forall|vpn: usize| #[trigger] self@.contains_key(vpn) ==> self@[vpn].flags.v,
    {
    }

    /// A page table that maps nothing.
    pub fn new() -> (pt: PageTable)
        ensures
            pt.wf(),
            pt@ == Map::<usize, PageTableEntry>::empty(),
    {
        PageTable { entries: HashMap::new() }
    }

    /// Maps page `vpn` to frame `ppn`. The entry is valid whatever `flags`
    /// says of that; the other flags are taken as given.
    pub fn map(&mut self, vpn: VirtPageNum, ppn: PhysPageNum, flags: PTEFlags)
        requires
            old(self).wf(),
            !old(self)@.contains_key(vpn.0),
        ensures
            final(self).wf(),
            final(self)@ == old(self)@.insert(
                vpn.0,
                PageTableEntry {
                    ppn,
                    flags: PTEFlags { v: true, r: flags.r, w: flags.w, x: flags.x, u: flags.u },
                },
            ),
    {
        let entry = PageTableEntry {
            ppn,
            flags: PTEFlags { v: true, r: flags.r, w: flags.w, x: flags.x, u: flags.u },
        };
        self.entries.insert(vpn.0, entry);
    }

    /// Removes the mapping of page `vpn`.
    pub fn unmap(&mut self, vpn: VirtPageNum)
        requires
            old(self).wf(),
            old(self)@.contains_key(vpn.0),
        ensures
            final(self).wf(),
            final(self)@ == old(self)@.remove(vpn.0),
    {
        self.entries.remove(&vpn.0);
    }

    /// The entry of page `vpn`, if the page is mapped.
    pub fn translate(&self, vpn: VirtPageNum) -> (res: Option<PageTableEntry>)
        requires
            self.wf(),
        ensures
            res == if self@.contains_key(vpn.0) {
                Some(self@[vpn.0])
            } else {
                None
            },
            res is Some ==> res->0.flags.v,
    {
        match self.entries.get(&vpn.0) {
            Some(pte) => Some(*pte),
            None => None,
        }
    }

    /// Whether page `vpn` is mapped.
    pub fn is_mapped(&self, vpn: VirtPageNum) -> (b: bool)
        requires
            self.wf(),
        ensures
            b == self@.contains_key(vpn.0),
    {
        self.entries.contains_key(&vpn.0)
    }
}

/// A run of bytes inside one frame: the bytes of frame `ppn` from
/// position `start` up to, not including, position `end`.
#[derive(Clone, Copy, Debug, PartialEq, Eq, Structural)]
pub struct ByteSegment {
    pub ppn: PhysPageNum,
    pub start: usize,
    pub end: usize,
}

impl ByteSegment {
    /// The number of bytes in the run.
    pub open spec fn spec_len(self) -> int {
        self.end - self.start
    }

    /// The number of bytes in the run.
    pub fn len(self) -> (n: usize)
        requires
            self.start <= self.end,
        ensures
            n == self.spec_len(),
    {
        self.end - self.start
    }
}

/// Whether `len` bytes from address `ptr` can be reached through `table`:
/// there is at least one byte, the bytes end within the address space, and
/// every page that holds one of them is mapped.
pub open spec fn buffer_mapped(table: Map<usize, PageTableEntry>, ptr: usize, len: usize) -> bool {
    &&& len > 0
    &&& ptr + len <= usize::MAX
    &&& forall|vpn: usize|
        page_floor(ptr as int) <= vpn <= page_floor(ptr + len - 1) ==> #[trigger] table.contains_key(
            vpn,
        )
}

/// The number of pages that hold a byte of the addresses from `ptr` up to
/// `end`.
pub open spec fn segment_count(ptr: int, end: int) -> int {
    if ptr >= end {
        0
    } else {
        page_floor(end - 1) - page_floor(ptr) + 1
    }
}

/// The address of the first byte that the `k`-th of those pages holds.
pub open spec fn segment_lo(ptr: int, k: int) -> int {
    if k == 0 {
        ptr
    } else {
        (page_floor(ptr) + k) * PAGE_SIZE
    }
}

/// The address after the last byte that the `k`-th of those pages holds.
pub open spec fn segment_hi(ptr: int, end: int, k: int) -> int {
    if (page_floor(ptr) + k + 1) * PAGE_SIZE < end {
        (page_floor(ptr) + k + 1) * PAGE_SIZE
    } else {
        end
    }
}

/// The run of bytes behind the `k`-th of those pages: in the frame that
/// `table` gives for the page, at the positions that the addresses have
/// inside the page.
pub open spec fn segment_at(
    table: Map<usize, PageTableEntry>,
    ptr: int,
    end: int,
    k: int,
) -> ByteSegment {
    let vpn = page_floor(ptr) + k;
    ByteSegment {
        ppn: table[vpn as usize].ppn,
        start: (segment_lo(ptr, k) - vpn * PAGE_SIZE) as usize,
        end: (segment_hi(ptr, end, k) - vpn * PAGE_SIZE) as usize,
    }
}

/// The runs of bytes behind the addresses from `ptr` up to `end`, one for
/// each page, in address order.
pub open spec fn segments(table: Map<usize, PageTableEntry>, ptr: int, end: int) -> Seq<
    ByteSegment,
> {
    Seq::new(segment_count(ptr, end) as nat, |k: int| segment_at(table, ptr, end, k))
}

/// The number of bytes in the first `k` runs of `segs`.
pub open spec fn filled(segs: Seq<ByteSegment>, k: int) -> int
    decreases k,
{
    if k <= 0 {
        0
    } else {
        filled(segs, k - 1) + segs[k - 1].spec_len()
    }
}

/// The runs behind a buffer lie end to end along the buffer: each is a
/// run inside one frame with at least one byte, the `k`-th begins with
/// the byte of address `segment_lo(ptr, k)`, and all of them together
/// have as many bytes as the buffer.
pub proof fn lemma_segments_fill(table: Map<usize, PageTableEntry>, ptr: int, end: int, k: int)
    requires
        0 <= ptr < end,
        0 <= k <= segment_count(ptr, end),
    ensures
        filled(segments(table, ptr, end), k) == (if k == segment_count(ptr, end) {
            end
        } else {
            segment_lo(ptr, k)
        }) - ptr,
        k < segment_count(ptr, end) ==> {
            let seg = segments(table, ptr, end)[k];
            &&& seg.start < seg.end <= PAGE_SIZE
            &&& seg.ppn == table[page_floor(segment_lo(ptr, k)) as usize].ppn
            &&& seg.start == segment_lo(ptr, k) % (PAGE_SIZE as int)
            &&& seg.spec_len() == segment_hi(ptr, end, k) - segment_lo(ptr, k)
        },
    decreases k,
{
    let segs = segments(table, ptr, end);
    if k > 0 {
        lemma_segments_fill(table, ptr, end, k - 1);
        assert(segs[k - 1] == segment_at(table, ptr, end, k - 1));
    }
    if k < segment_count(ptr, end) {
        assert(segs[k] == segment_at(table, ptr, end, k));
    }
}

/// Every byte of a mapped buffer lies in one of the runs behind it: the
/// byte of address `addr` in the run of its page, at the position that
/// `addr` has inside the page, in the frame that `table` maps the page
/// to.
pub proof fn lemma_segments_cover(table: Map<usize, PageTableEntry>, ptr: int, end: int, addr: int)
    requires
        0 <= ptr <= addr < end,
    ensures
        ({
            let k = page_floor(addr) - page_floor(ptr);
            let seg = segments(table, ptr, end)[k];
            &&& 0 <= k < segment_count(ptr, end)
            &&& seg.ppn == table[page_floor(addr) as usize].ppn
            &&& seg.start <= addr % (PAGE_SIZE as int) < seg.end
            &&& filled(segments(table, ptr, end), k) + (addr % (PAGE_SIZE as int) - seg.start)
                == addr - ptr
        }),
{
    let k = page_floor(addr) - page_floor(ptr);
    lemma_segments_fill(table, ptr, end, k);
}

/// The runs of bytes through which the kernel reaches the `len` bytes
/// that the task of `page_table` has from address `ptr`: one run for each
/// page, in address order. Without a byte, or where a page is not mapped
/// or the buffer leaves the address space, there is no run.
pub fn translated_byte_buffer(page_table: &PageTable, ptr: usize, len: usize) -> (res: Vec<
    ByteSegment,
>)
    requires
        page_table.wf(),
    ensures
        res@ == if buffer_mapped(page_table@, ptr, len) {
            segments(page_table@, ptr as int, ptr + len)
        } else {
            Seq::<ByteSegment>::empty()
        },
{
    let mut v: Vec<ByteSegment> = Vec::new();
    if len == 0 {
        return v;
    }
    let end = match ptr.checked_add(len) {
        None => {
            return v;
        },
        Some(end) => end,
    };
    let ghost table = page_table@;
    let mut start: usize = ptr;
    let ghost mut k: int = 0;
    while start < end
        invariant
            page_table.wf(),
            table == page_table@,
            ptr < end,
            end == ptr + len,
            ptr <= start <= end,
            start == ptr || start == end || start % PAGE_SIZE == 0,
            k == segment_count(ptr as int, start as int),
            k <= segment_count(ptr as int, end as int),
            start < end ==> segment_lo(ptr as int, k) == start,
            v@ == Seq::new(k as nat, |j: int| segment_at(table, ptr as int, end as int, j)),
            forall|vpn: usize|
                page_floor(ptr as int) <= vpn < page_floor(ptr as int) + k
                    ==> #[trigger] table.contains_key(vpn),
        decreases end - start,
    {
        let vpn = start / PAGE_SIZE;
        let pte = match page_table.translate(VirtPageNum(vpn)) {
            None => {
                return Vec::new();
            },
            Some(pte) => pte,
        };
        let offset = start % PAGE_SIZE;
        let room = PAGE_SIZE - offset;
        let left = end - start;
        let take = if room < left {
            room
        } else {
            left
        };
        let seg = ByteSegment { ppn: pte.ppn, start: offset, end: offset + take };
        proof {
            assert(vpn == page_floor(ptr as int) + k);
            assert(seg == segment_at(table, ptr as int, end as int, k));
            assert(v@.push(seg) =~= Seq::new(
                (k + 1) as nat,
                |j: int| segment_at(table, ptr as int, end as int, j),
            ));
            k = k + 1;
        }
        v.push(seg);
        start = start + take;
    }
    proof {
        assert(v@ =~= segments(table, ptr as int, end as int));
    }
    v
}

} // verus!
