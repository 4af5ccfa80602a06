//! Addresses and page numbers.
//!
//! An address is a byte position; a page number is an address divided by
//! the page size. The four wrappers keep virtual and physical, byte and
//! page, from being mixed up.

use vstd::prelude::*;
use crate::config::PAGE_SIZE;

verus! {

/// The page that holds address `addr`.
pub open spec fn page_floor(addr: int) -> int {
    addr / (PAGE_SIZE as int)
}

/// The first page that starts at or after address `addr`.
pub open spec fn page_ceil(addr: int) -> int {
    (addr + PAGE_SIZE - 1) / (PAGE_SIZE as int)
}

/// The position of address `addr` inside its page.
pub open spec fn page_offset(addr: int) -> int {
    addr % (PAGE_SIZE as int)
}

/// A virtual byte address.
#[derive(Clone, Copy, Debug, PartialEq, Eq, Structural)]
pub struct VirtAddr(pub usize);

/// A virtual page number.
#[derive(Clone, Copy, Debug, PartialEq, Eq, Structural)]
pub struct VirtPageNum(pub usize);

/// A physical byte address.
#[derive(Clone, Copy, Debug, PartialEq, Eq, Structural)]
pub struct PhysAddr(pub usize);

/// A physical page number, which names one frame.
#[derive(Clone, Copy, Debug, PartialEq, Eq, Structural)]
pub struct PhysPageNum(pub usize);

impl From<usize> for VirtAddr {
    /// The virtual address of number `v`.
    fn from(v: usize) -> (res: VirtAddr) {
        VirtAddr(v)
    }
}

impl vstd::std_specs::convert::FromSpecImpl<usize> for VirtAddr {
    open spec fn obeys_from_spec() -> bool {
        true
    }

    open spec fn from_spec(v: usize) -> VirtAddr {
        VirtAddr(v)
    }
}

impl From<VirtAddr> for usize {
    /// The number of the virtual address `v`.
    fn from(v: VirtAddr) -> (res: usize) {
        v.0
    }
}

impl vstd::std_specs::convert::FromSpecImpl<VirtAddr> for usize {
    open spec fn obeys_from_spec() -> bool {
        true
    }

    open spec fn from_spec(v: VirtAddr) -> usize {
        v.0
    }
}

impl From<usize> for VirtPageNum {
    /// The virtual page of number `v`.
    fn from(v: usize) -> (res: VirtPageNum) {
        VirtPageNum(v)
    }
}

impl vstd::std_specs::convert::FromSpecImpl<usize> for VirtPageNum {
    open spec fn obeys_from_spec() -> bool {
        true
    }

    open spec fn from_spec(v: usize) -> VirtPageNum {
        VirtPageNum(v)
    }
}

impl From<VirtPageNum> for usize {
    /// The number of the virtual page `v`.
    fn from(v: VirtPageNum) -> (res: usize) {
        v.0
    }
}

impl vstd::std_specs::convert::FromSpecImpl<VirtPageNum> for usize {
    open spec fn obeys_from_spec() -> bool {
        true
    }

    open spec fn from_spec(v: VirtPageNum) -> usize {
        v.0
    }
}

impl From<usize> for PhysAddr {
    /// The physical address of number `v`.
    fn from(v: usize) -> (res: PhysAddr) {
        PhysAddr(v)
    }
}

impl vstd::std_specs::convert::FromSpecImpl<usize> for PhysAddr {
    open spec fn obeys_from_spec() -> bool {
        true
    }

    open spec fn from_spec(v: usize) -> PhysAddr {
        PhysAddr(v)
    }
}

impl From<PhysAddr> for usize {
    /// The number of the physical address `v`.
    fn from(v: PhysAddr) -> (res: usize) {
        v.0
    }
}

impl vstd::std_specs::convert::FromSpecImpl<PhysAddr> for usize {
    open spec fn obeys_from_spec() -> bool {
        true
    }

    open spec fn from_spec(v: PhysAddr) -> usize {
        v.0
    }
}

impl From<usize> for PhysPageNum {
    /// The frame of number `v`.
    fn from(v: usize) -> (res: PhysPageNum) {
        PhysPageNum(v)
    }
}

impl vstd::std_specs::convert::FromSpecImpl<usize> for PhysPageNum {
    open spec fn obeys_from_spec() -> bool {
        true
    }

    open spec fn from_spec(v: usize) -> PhysPageNum {
        PhysPageNum(v)
    }
}

impl From<PhysPageNum> for usize {
    /// The number of the frame `v`.
    fn from(v: PhysPageNum) -> (res: usize) {
        v.0
    }
}

impl vstd::std_specs::convert::FromSpecImpl<PhysPageNum> for usize {
    open spec fn obeys_from_spec() -> bool {
        true
    }

    open spec fn from_spec(v: PhysPageNum) -> usize {
        v.0
    }
}

impl VirtAddr {
    /// The page that holds this address.
    pub fn floor(&self) -> (vpn: VirtPageNum)
        ensures
            vpn.0 == page_floor(self.0 as int),
    {
        VirtPageNum(self.0 / PAGE_SIZE)
    }

    /// The first page that starts at or after this address.
    pub fn ceil(&self) -> (vpn: VirtPageNum)
        ensures
            vpn.0 == page_ceil(self.0 as int),
    {
        if self.0 == 0 {
            VirtPageNum(0)
        } else {
            VirtPageNum((self.0 - 1) / PAGE_SIZE + 1)
        }
    }

    /// The position of this address inside its page.
    pub fn page_offset(&self) -> (off: usize)
        ensures
            off == page_offset(self.0 as int),
            off < PAGE_SIZE,
    {
        self.0 % PAGE_SIZE
    }

    /// Whether this address is the first byte of a page.
    pub fn aligned(&self) -> (b: bool)
        ensures
            b == (page_offset(self.0 as int) == 0),
    {
        self.0 % PAGE_SIZE == 0
    }
}

impl PhysAddr {
    /// The frame that holds this address.
    pub fn floor(&self) -> (ppn: PhysPageNum)
        ensures
            ppn.0 == page_floor(self.0 as int),
    {
        PhysPageNum(self.0 / PAGE_SIZE)
    }

    /// The first frame that starts at or after this address.
    pub fn ceil(&self) -> (ppn: PhysPageNum)
        ensures
            ppn.0 == page_ceil(self.0 as int),
    {
        if self.0 == 0 {
            PhysPageNum(0)
        } else {
            PhysPageNum((self.0 - 1) / PAGE_SIZE + 1)
        }
    }

    /// The position of this address inside its frame.
    pub fn page_offset(&self) -> (off: usize)
        ensures
            off == page_offset(self.0 as int),
            off < PAGE_SIZE,
    {
        self.0 % PAGE_SIZE
    }

    /// Whether this address is the first byte of a frame.
    pub fn aligned(&self) -> (b: bool)
        ensures
            b == (page_offset(self.0 as int) == 0),
    {
        self.0 % PAGE_SIZE == 0
    }
}

impl VirtPageNum {
    /// The address at which the page starts; `None` where that address
    /// lies beyond the address space.
    pub fn start_addr(&self) -> (res: Option<VirtAddr>)
        ensures
            res == if self.0 * PAGE_SIZE <= usize::MAX {
                Some(VirtAddr((self.0 * PAGE_SIZE) as usize))
            } else {
                None
            },
    {
        match self.0.checked_mul(PAGE_SIZE) {
            Some(addr) => Some(VirtAddr(addr)),
            None => None,
        }
    }
}

impl PhysPageNum {
    /// The address at which the frame starts; `None` where that address
    /// lies beyond the address space.
    pub fn start_addr(&self) -> (res: Option<PhysAddr>)
        ensures
            res == if self.0 * PAGE_SIZE <= usize::MAX {
                Some(PhysAddr((self.0 * PAGE_SIZE) as usize))
            } else {
                None
            },
    {
        match self.0.checked_mul(PAGE_SIZE) {
            Some(addr) => Some(PhysAddr(addr)),
            None => None,
        }
    }
}

/// Floor and ceiling bracket an address by whole pages: the floor page
/// starts at or before it, less than one page before; the ceiling page
/// starts at or after it, less than one page after.
pub proof fn lemma_page_bounds(addr: int)
    requires
        0 <= addr,
    ensures
        page_floor(addr) * PAGE_SIZE <= addr < (page_floor(addr) + 1) * PAGE_SIZE,
        (page_ceil(addr) - 1) * PAGE_SIZE < addr <= page_ceil(addr) * PAGE_SIZE,
        page_floor(addr) * PAGE_SIZE + page_offset(addr) == addr,
        0 <= page_offset(addr) < PAGE_SIZE,
{
}

/// On an aligned address floor and ceiling agree, and the address is that
/// page number times the page size; on any other the ceiling is one more
/// than the floor.
pub proof fn lemma_page_aligned(addr: int)
    requires
        0 <= addr,
    ensures
        page_offset(addr) == 0 ==> page_floor(addr) == page_ceil(addr) && addr == page_floor(addr)
            * PAGE_SIZE,
        page_offset(addr) != 0 ==> page_ceil(addr) == page_floor(addr) + 1,
{
}

/// The address at which page `page` starts is aligned and lies in that page.
pub proof fn lemma_page_start(page: int)
    requires
        0 <= page,
    ensures
        page_floor(page * PAGE_SIZE) == page,
        page_ceil(page * PAGE_SIZE) == page,
        page_offset(page * PAGE_SIZE) == 0,
{
}

} // verus!
