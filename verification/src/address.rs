//! Physical and virtual byte addresses and page numbers, with the
//! page-alignment arithmetic every other component builds on.

use vstd::prelude::*;
use crate::config::{PAGE_SIZE, PPN_LIMIT, VPN_LIMIT};

verus! {

/// A physical byte address.
#[derive(Clone, Copy, PartialEq, Eq, Structural, Debug)]
pub struct PhysAddr(pub u64);

/// A virtual byte address.
#[derive(Clone, Copy, PartialEq, Eq, Structural, Debug)]
pub struct VirtAddr(pub u64);

/// A physical page number: a physical address with the offset bits removed.
#[derive(Clone, Copy, PartialEq, Eq, Structural, Debug)]
pub struct PhysPageNum(pub u64);

/// A virtual page number: a virtual address with the offset bits removed.
#[derive(Clone, Copy, PartialEq, Eq, Structural, Debug)]
pub struct VirtPageNum(pub u64);

impl VirtAddr {
    /// Page number of the page containing this address.
    pub fn floor(self) -> (r: VirtPageNum)
        ensures
            r.0 == self.0 / PAGE_SIZE,
            r.0 < VPN_LIMIT || self.0 / PAGE_SIZE >= VPN_LIMIT,
    {
        VirtPageNum(self.0 / PAGE_SIZE)
    }

    /// Page number of the first page at or after this address.
    pub fn ceil(self) -> (r: VirtPageNum)
        ensures
            r.0 == spec_ceil_page(self.0),
    {
        if self.0 == 0 {
            VirtPageNum(0)
        } else {
            VirtPageNum((self.0 - 1) / PAGE_SIZE + 1)
        }
    }

    /// The low offset bits of this address within its page.
    pub fn page_offset(self) -> (r: u64)
        ensures
            r == self.0 % PAGE_SIZE,
            r < PAGE_SIZE,
    {
        self.0 % PAGE_SIZE
    }

    /// True when the address sits exactly on a page boundary.
    pub fn aligned(self) -> (r: bool)
        ensures
            r <==> self.0 % PAGE_SIZE == 0,
    {
        self.0 % PAGE_SIZE == 0
    }
}

impl PhysAddr {
    /// Page number of the frame containing this address.
    pub fn floor(self) -> (r: PhysPageNum)
        ensures
            r.0 == self.0 / PAGE_SIZE,
    {
        PhysPageNum(self.0 / PAGE_SIZE)
    }

    /// Page number of the first frame at or after this address.
    pub fn ceil(self) -> (r: PhysPageNum)
        ensures
            r.0 == spec_ceil_page(self.0),
    {
        if self.0 == 0 {
            PhysPageNum(0)
        } else {
            PhysPageNum((self.0 - 1) / PAGE_SIZE + 1)
        }
    }

    /// The low offset bits of this address within its frame.
    pub fn page_offset(self) -> (r: u64)
        ensures
            r == self.0 % PAGE_SIZE,
            r < PAGE_SIZE,
    {
        self.0 % PAGE_SIZE
    }

    /// Rebuilds the concrete physical address of byte `offset` inside the
    /// frame numbered `ppn`: the page base plus the in-page offset.
    #[allow(non_snake_case)]
    pub fn getPhaddrByOffset(ppn: PhysPageNum, offset: u64) -> (r: PhysAddr)
        requires
            ppn.0 < PPN_LIMIT,
            offset < PAGE_SIZE,
        ensures
            r.0 == ppn.0 * PAGE_SIZE + offset,
            r.0 % PAGE_SIZE == offset,
            r.0 / PAGE_SIZE == ppn.0,
    {
        proof {
            lemma_page_base_offset(ppn.0 as int, offset as int);
        }
        PhysAddr(ppn.0 * PAGE_SIZE + offset)
    }
}

/// Page number of the first page at or after byte address `a`.
pub open spec fn spec_ceil_page(a: u64) -> u64 {
    if a == 0 {
        0
    } else {
        ((a - 1) as int / (PAGE_SIZE as int) + 1) as u64
    }
}

/// Combining a page base with an in-page offset is inverted exactly by
/// `floor` and `page_offset`.
pub proof fn lemma_page_base_offset(pn: int, offset: int)
    requires
        0 <= pn,
        0 <= offset < PAGE_SIZE,
    ensures
        (pn * (PAGE_SIZE as int) + offset) % (PAGE_SIZE as int) == offset,
        (pn * (PAGE_SIZE as int) + offset) / (PAGE_SIZE as int) == pn,
{
    vstd::arithmetic::div_mod::lemma_fundamental_div_mod_converse(
        pn * (PAGE_SIZE as int) + offset,
        PAGE_SIZE as int,
        pn,
        offset,
    );
}

/// For any address, the page base named by `floor` plus `page_offset`
/// reconstructs the address exactly, and the offset is always below the
/// page size.
pub proof fn lemma_va_floor_offset_roundtrip(a: VirtAddr)
    ensures
        (a.0 / PAGE_SIZE) * PAGE_SIZE + a.0 % PAGE_SIZE == a.0,
        a.0 % PAGE_SIZE < PAGE_SIZE,
{
    vstd::arithmetic::div_mod::lemma_fundamental_div_mod(a.0 as int, PAGE_SIZE as int);
}

/// The physical-address counterpart of the floor/offset round trip.
pub proof fn lemma_pa_floor_offset_roundtrip(a: PhysAddr)
    ensures
        (a.0 / PAGE_SIZE) * PAGE_SIZE + a.0 % PAGE_SIZE == a.0,
        a.0 % PAGE_SIZE < PAGE_SIZE,
{
    vstd::arithmetic::div_mod::lemma_fundamental_div_mod(a.0 as int, PAGE_SIZE as int);
}

/// Stepping a page number to its successor, used when walking page ranges.
pub trait StepByOne: Sized {
    /// Advance to the next page number.
    fn step(&mut self)
        requires
            old(self).step_allowed(),
        ensures
            final(self).stepped_from(*old(self)),
    ;

    /// Whether stepping stays inside the machine word.
    spec fn step_allowed(&self) -> bool;

    /// The successor relation established by `step`.
    spec fn stepped_from(&self, prev: Self) -> bool;
}

impl StepByOne for VirtPageNum {
    fn step(&mut self) {
        self.0 = self.0 + 1;
    }

    open spec fn step_allowed(&self) -> bool {
        self.0 < u64::MAX
    }

    open spec fn stepped_from(&self, prev: Self) -> bool {
        self.0 == prev.0 + 1
    }
}

impl StepByOne for PhysPageNum {
    fn step(&mut self) {
        self.0 = self.0 + 1;
    }

    open spec fn step_allowed(&self) -> bool {
        self.0 < u64::MAX
    }

    open spec fn stepped_from(&self, prev: Self) -> bool {
        self.0 == prev.0 + 1
    }
}

/// A half-open range of virtual page numbers.
#[derive(Clone, Copy, PartialEq, Eq, Structural, Debug)]
pub struct VPNRange {
    /// First page of the range.
    pub start: VirtPageNum,
    /// One past the last page of the range.
    pub end: VirtPageNum,
}

impl VPNRange {
    /// A range from `start` (inclusive) to `end` (exclusive).
    pub fn new(start: VirtPageNum, end: VirtPageNum) -> (r: VPNRange)
        requires
            start.0 <= end.0,
        ensures
            r.start == start,
            r.end == end,
    {
        VPNRange { start, end }
    }

    /// First page of the range.
    pub fn get_start(self) -> (r: VirtPageNum)
        ensures
            r == self.start,
    {
        self.start
    }

    /// One past the last page of the range.
    pub fn get_end(self) -> (r: VirtPageNum)
        ensures
            r == self.end,
    {
        self.end
    }

    /// Number of pages covered.
    pub fn len(self) -> (r: u64)
        requires
            self.start.0 <= self.end.0,
        ensures
            r == self.end.0 - self.start.0,
    {
        self.end.0 - self.start.0
    }

    /// Whether `vpn` lies inside the range.
    pub open spec fn spec_contains(self, vpn: u64) -> bool {
        self.start.0 <= vpn < self.end.0
    }

    /// Whether two ranges share at least one page.
    pub open spec fn spec_overlaps(self, other: VPNRange) -> bool {
        exists|v: u64| self.spec_contains(v) && other.spec_contains(v)
    }
}

} // verus!
