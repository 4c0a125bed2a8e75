//! Address spaces: a page table plus an ordered collection of disjoint
//! mapped areas, owning the frames behind every framed page.

use vstd::prelude::*;
use crate::address::{PhysPageNum, VirtAddr, VirtPageNum, VPNRange};
use crate::frame_allocator::{FrameTracker, StackFrameAllocator};
use crate::page_table::{leaf_of, lemma_pte_roundtrip, PageTable, PageTableEntry, PTEFlags, spec_pte_bits, PTE_R, PTE_V, PTE_W, PTE_X};
use crate::config::{PAGE_SIZE, PPN_LIMIT, TRAMPOLINE_VPN, USER_STACK_SIZE, VPN_LIMIT};

verus! {

/// Area permission: readable.
pub const MAP_PERM_R: u8 = 0x02;
/// Area permission: writable.
pub const MAP_PERM_W: u8 = 0x04;
/// Area permission: executable.
pub const MAP_PERM_X: u8 = 0x08;
/// Area permission: user-accessible.
pub const MAP_PERM_U: u8 = 0x10;

/// Permission set of a mapped area: a subset of read/write/execute/user,
/// laid out on the same bits as the hardware entry flags.
#[derive(Clone, Copy, PartialEq, Eq, Structural, Debug)]
pub struct MapPermission {
    /// The raw permission bits.
    pub bits: u8,
}

impl MapPermission {
    /// A permission set from raw bits; only the R/W/X/U bits may be set.
    pub fn from_bits(bits: u8) -> (r: MapPermission)
        requires
            bits & 0xE1 == 0,
        ensures
            r.bits == bits,
    {
        MapPermission { bits }
    }

    /// Whether this is a well-formed permission byte.
    pub open spec fn valid(self) -> bool {
        self.bits & 0xE1 == 0
    }
}

/// How an area's pages find their frames: identity keeps the page number,
/// framed backs each page with a freshly allocated frame.
#[derive(Clone, Copy, PartialEq, Eq, Structural, Debug)]
pub enum MapType {
    /// Virtual page number equals physical page number.
    Identical,
    /// Each virtual page is backed by an owned, freshly allocated frame.
    Framed,
}

/// A contiguous range of virtual pages mapped with one permission set and
/// one strategy. A framed area owns the frames behind its pages.
pub struct MapArea {
    /// The pages the area covers.
    pub vpn_range: VPNRange,
    /// Identity or framed.
    pub map_type: MapType,
    /// Permissions of every page of the area.
    pub map_perm: MapPermission,
    /// For a framed area, the owned frame of each page, in page order.
    pub data_frames: Vec<FrameTracker>,
}

impl MapArea {
    /// Shape invariant: an in-range, trampoline-free page range, valid
    /// permissions, and one owned frame per page when framed.
    pub open spec fn wf(self) -> bool {
        &&& self.vpn_range.start.0 <= self.vpn_range.end.0
        &&& self.vpn_range.end.0 <= TRAMPOLINE_VPN
        &&& self.map_perm.valid()
        &&& (self.map_type is Framed ==> self.data_frames@.len() == self.vpn_range.end.0
            - self.vpn_range.start.0)
        &&& (self.map_type is Identical ==> self.data_frames@.len() == 0)
    }
}

/// An address space: one page table plus its disjoint areas. The
/// trampoline page, shared by every space, is recorded separately because
/// no area owns it.
pub struct MemorySet {
    /// The space's page table, owning its node frames.
    pub page_table: PageTable,
    /// The mapped areas, pairwise disjoint.
    pub areas: Vec<MapArea>,
    /// The physical frame the trampoline page maps to, once installed.
    pub trampoline: Option<u64>,
}

impl MemorySet {
    /// Whether some area covers `vpn`.
    pub open spec fn covers(self, vpn: u64) -> bool {
        exists|i: int|
            0 <= i < self.areas@.len() && (#[trigger] self.areas@[i]).vpn_range.spec_contains(vpn)
    }

    /// The translation every page of area `i` must have: present, with
    /// the area's permissions, identity pages naming themselves and
    /// framed pages naming exactly the frame the area owns for them.
    pub open spec fn area_mapped(self, i: int) -> bool {
        let a = self.areas@[i];
        forall|v: u64|
            a.vpn_range.spec_contains(v) ==> {
                &&& (#[trigger] self.page_table.translate_spec(v)) is Some
                &&& self.page_table.translate_spec(v)->Some_0.spec_flags() == a.map_perm.bits
                    | PTE_V
                &&& (a.map_type is Identical ==> self.page_table.translate_spec(
                    v,
                )->Some_0.spec_ppn() == v)
                &&& (a.map_type is Framed ==> self.page_table.translate_spec(
                    v,
                )->Some_0.spec_ppn() == a.data_frames@[(v - a.vpn_range.start.0) as int].ppn.0)
            }
    }

    /// Structural invariant of the address space: a well-formed table,
    /// well-formed disjoint areas, every area fully mapped as it asks, the
    /// trampoline mapped exactly when recorded, and nothing else mapped.
    pub open spec fn wf(self) -> bool {
        &&& self.page_table.wf()
        &&& forall|i: int| 0 <= i < self.areas@.len() ==> (#[trigger] self.areas@[i]).wf()
        &&& forall|i: int, j: int|
            0 <= i < j < self.areas@.len() ==> !(#[trigger] self.areas@[i]).vpn_range.spec_overlaps(
                (#[trigger] self.areas@[j]).vpn_range,
            )
        &&& forall|i: int| 0 <= i < self.areas@.len() ==> self.area_mapped(i)
        &&& (self.trampoline is Some ==> self.page_table.translate_spec(TRAMPOLINE_VPN) is Some)
        &&& forall|v: u64|
            v < VPN_LIMIT && !self.covers(v) && !(v == TRAMPOLINE_VPN && self.trampoline is Some)
                ==> (#[trigger] self.page_table.translate_spec(v)) is None
    }

    /// Every frame this space holds (table nodes and framed pages) is
    /// currently allocated in `fa`, and no frame is held twice.
    pub open spec fn owns(self, fa: StackFrameAllocator) -> bool {
        &&& self.page_table.frames_allocated(fa)
        &&& forall|i: int, j: int|
            0 <= i < self.areas@.len() && 0 <= j < self.areas@[i].data_frames@.len()
                ==> fa.allocated((#[trigger] self.areas@[i].data_frames@[j]).ppn.0)
        &&& forall|i: int, j: int, i2: int, j2: int|
            0 <= i < self.areas@.len() && 0 <= j < self.areas@[i].data_frames@.len() && 0 <= i2
                < self.areas@.len() && 0 <= j2 < self.areas@[i2].data_frames@.len() && !(i == i2
                && j == j2) ==> (#[trigger] self.areas@[i].data_frames@[j]).ppn.0 != (
            #[trigger] self.areas@[i2].data_frames@[j2]).ppn.0
        &&& forall|i: int, j: int, n: int|
            0 <= i < self.areas@.len() && 0 <= j < self.areas@[i].data_frames@.len() && 0 <= n
                < self.page_table.nodes@.len() ==> (
            #[trigger] self.areas@[i].data_frames@[j]).ppn.0 != (
            #[trigger] self.page_table.nodes@[n]).ppn
    }

    /// The translation-base token of this space.
    pub open spec fn spec_token(self) -> u64 {
        self.page_table.spec_token()
    }

    /// The token a scheduler hands to the hardware and to the cross-space
    /// translation utility.
    pub fn token(&self) -> (r: u64)
        ensures
            r == self.spec_token(),
    {
        self.page_table.token()
    }

    /// An empty address space with a fresh root table frame and no areas.
    pub fn new_bare(fa: &mut StackFrameAllocator) -> (ms: MemorySet)
        requires
            old(fa).wf(),
            old(fa).free_count() >= 1,
        ensures
            ms.wf(),
            final(fa).wf(),
            ms.owns(*final(fa)),
            ms.areas@.len() == 0,
            ms.trampoline is None,
            final(fa).start == old(fa).start,
            final(fa).end == old(fa).end,
            final(fa).free_count() == old(fa).free_count() - 1,
            forall|q: u64| old(fa).allocated(q) ==> final(fa).allocated(q),
            forall|v: u64| ms.page_table.translate_spec(v) is None,
    {
        let page_table = PageTable::new_bare(fa);
        MemorySet { page_table, areas: Vec::new(), trampoline: None }
    }

    /// Map the shared trampoline page at the very top of the virtual range
    /// to the physical frame holding the trampoline code, readable and
    /// executable, in every space identically.
    pub fn map_trampoline(&mut self, fa: &mut StackFrameAllocator, code_ppn: PhysPageNum)
        requires
            old(self).wf(),
            old(fa).wf(),
            old(self).owns(*old(fa)),
            old(self).trampoline is None,
            code_ppn.0 < PPN_LIMIT,
            old(fa).free_count() >= 2,
        ensures
            final(self).wf(),
            final(fa).wf(),
            final(self).owns(*final(fa)),
            final(self).trampoline == Some(code_ppn.0),
            final(self).areas@ == old(self).areas@,
            final(fa).start == old(fa).start,
            final(fa).end == old(fa).end,
            final(fa).free_count() >= old(fa).free_count() - 2,
            forall|q: u64| old(fa).allocated(q) ==> final(fa).allocated(q),
            final(self).page_table.translate_spec(TRAMPOLINE_VPN) == Some(
                (PageTableEntry { bits: spec_pte_bits(code_ppn.0, PTE_R | PTE_X | PTE_V) }),
            ),
            forall|v: u64|
                v < VPN_LIMIT && v != TRAMPOLINE_VPN ==> final(self).page_table.translate_spec(v)
                    == old(self).page_table.translate_spec(v),
            final(self).spec_token() == old(self).spec_token(),
    {
        proof {
            assert(!old(self).covers(TRAMPOLINE_VPN)) by {
                if old(self).covers(TRAMPOLINE_VPN) {
                    let i = choose|i: int|
                        0 <= i < old(self).areas@.len() && (
                        #[trigger] old(self).areas@[i]).vpn_range.spec_contains(TRAMPOLINE_VPN);
                    assert(old(self).areas@[i].wf());
                }
            }
            assert(old(self).page_table.translate_spec(TRAMPOLINE_VPN) is None);
            assert((PTE_R | PTE_X) | PTE_V == PTE_R | PTE_X | PTE_V) by (bit_vector);
        }
        let ghost old_nodes_len = self.page_table.nodes@.len();
        self.page_table.map(
            fa,
            VirtPageNum(TRAMPOLINE_VPN),
            code_ppn,
            PTEFlags::from_bits(PTE_R | PTE_X),
        );
        self.trampoline = Some(code_ppn.0);
        proof {
            assert forall|i: int| 0 <= i < self.areas@.len() implies self.area_mapped(i) by {
                assert(old(self).area_mapped(i));
                let a = self.areas@[i];
                assert(a.wf());
                assert forall|v: u64| a.vpn_range.spec_contains(v) implies {
                    &&& (#[trigger] self.page_table.translate_spec(v)) is Some
                    &&& self.page_table.translate_spec(v)->Some_0.spec_flags() == a.map_perm.bits
                        | PTE_V
                    &&& (a.map_type is Identical ==> self.page_table.translate_spec(
                        v,
                    )->Some_0.spec_ppn() == v)
                } by {
                    assert(v < TRAMPOLINE_VPN);
                    assert(self.page_table.translate_spec(v) == old(
                        self,
                    ).page_table.translate_spec(v));
                }
            }
        }
    }
}

} // verus!

verus! {

/// Every page of `[s, e)` already has a complete walk in `pt`: both
/// interior entries valid and the leaf-level node present (its leaf
/// entry may well be invalid). Mapping such a page allocates no table
/// node.
pub open spec fn range_complete(pt: PageTable, s: u64, e: u64) -> bool {
    forall|v: u64| s <= v < e ==> leaf_of(pt.nodes@, pt.root_ppn, v, 0) is Some
}

/// Frames one page of an area costs beyond its table nodes: one for a
/// framed page, none for an identity page.
pub open spec fn area_data_cost(t: MapType) -> int {
    if t is Framed {
        1
    } else {
        0
    }
}

impl MemorySet {
    /// Install a new area covering the pages `[start, end)` and map every
    /// page of it: identity pages keep their page number, framed pages
    /// each receive a freshly allocated owned frame. Exhausting physical
    /// memory mid-way is fatal in this design, so enough frames are
    /// demanded up front: one data frame per framed page when every walk
    /// of the range is already complete, else three per page in the worst
    /// case (up to two table nodes plus the data frame).
    pub fn push_area(
        &mut self,
        fa: &mut StackFrameAllocator,
        start: VirtPageNum,
        end: VirtPageNum,
        map_type: MapType,
        perm: MapPermission,
    )
        requires
            old(self).wf(),
            old(fa).wf(),
            old(self).owns(*old(fa)),
            start.0 <= end.0,
            end.0 <= TRAMPOLINE_VPN,
            perm.valid(),
            forall|v: u64| start.0 <= v < end.0 ==> !old(self).covers(v),
            range_complete(old(self).page_table, start.0, end.0) ==> old(fa).free_count()
                >= area_data_cost(map_type) * (end.0 - start.0),
            !range_complete(old(self).page_table, start.0, end.0) ==> old(fa).free_count() >= 3 * (
            end.0 - start.0),
        ensures
            final(self).wf(),
            final(fa).wf(),
            final(self).owns(*final(fa)),
            final(self).trampoline == old(self).trampoline,
            final(self).spec_token() == old(self).spec_token(),
            final(fa).start == old(fa).start,
            final(fa).end == old(fa).end,
            final(fa).free_count() >= old(fa).free_count() - 3 * (end.0 - start.0),
            range_complete(old(self).page_table, start.0, end.0) ==> final(fa).free_count() >= old(
                fa,
            ).free_count() - area_data_cost(map_type) * (end.0 - start.0),
            forall|q: u64| old(fa).allocated(q) ==> final(fa).allocated(q),
            final(self).areas@.len() == old(self).areas@.len() + 1,
            forall|i: int|
                0 <= i < old(self).areas@.len() ==> final(self).areas@[i] == old(self).areas@[i],
            final(self).areas@.last().vpn_range == (VPNRange { start, end }),
            final(self).areas@.last().map_type == map_type,
            final(self).areas@.last().map_perm == perm,
            forall|v: u64|
                start.0 <= v < end.0 ==> {
                    let e = #[trigger] final(self).page_table.translate_spec(v);
                    &&& e is Some
                    &&& e->Some_0.spec_flags() == (perm.bits | PTE_V)
                    &&& (map_type is Identical ==> e->Some_0.spec_ppn() == v)
                },
            forall|v: u64|
                v < VPN_LIMIT && !(start.0 <= v < end.0) ==> final(self).page_table.translate_spec(
                    v,
                ) == old(self).page_table.translate_spec(v),
            map_type is Framed ==> forall|v: u64|
                start.0 <= v < end.0 ==> #[trigger] final(self).page_table.translate_spec(v)
                    == Some(
                    (PageTableEntry {
                        bits: spec_pte_bits(
                            final(self).areas@.last().data_frames@[(v - start.0) as int].ppn.0,
                            perm.bits | PTE_V,
                        ),
                    }),
                ),
            map_type is Identical ==> forall|v: u64|
                start.0 <= v < end.0 ==> #[trigger] final(self).page_table.translate_spec(v)
                    == Some((PageTableEntry { bits: spec_pte_bits(v, perm.bits | PTE_V) })),
            forall|j: int|
                0 <= j < final(self).areas@.last().data_frames@.len() ==> (
                #[trigger] final(self).areas@.last().data_frames@[j]).ppn.0 < PPN_LIMIT,
    {
        let ghost complete0 = range_complete(old(self).page_table, start.0, end.0);
        let ghost dc = area_data_cost(map_type);
        let mut data_frames: Vec<FrameTracker> = Vec::new();
        let mut vpn: u64 = start.0;
        while vpn < end.0
            invariant
                start.0 <= vpn <= end.0,
                end.0 <= TRAMPOLINE_VPN,
                perm.valid(),
                old(self).wf(),
                old(self).owns(*old(fa)),
                forall|v: u64| start.0 <= v < end.0 ==> !old(self).covers(v),
                self.page_table.wf(),
                fa.wf(),
                self.page_table.frames_allocated(*fa),
                self.areas@ == old(self).areas@,
                self.trampoline == old(self).trampoline,
                self.page_table.root_ppn == old(self).page_table.root_ppn,
                fa.start == old(fa).start,
                fa.end == old(fa).end,
                complete0 == range_complete(old(self).page_table, start.0, end.0),
                dc == area_data_cost(map_type),
                complete0 ==> fa.free_count() >= dc * (end.0 - vpn),
                complete0 ==> fa.free_count() >= old(fa).free_count() - dc * (vpn - start.0),
                complete0 ==> forall|v: u64|
                    vpn <= v < end.0 ==> leaf_of(
                        self.page_table.nodes@,
                        self.page_table.root_ppn,
                        v,
                        0,
                    ) is Some,
                !complete0 ==> fa.free_count() >= 3 * (end.0 - vpn),
                fa.free_count() >= old(fa).free_count() - 3 * (vpn - start.0),
                forall|q: u64| old(fa).allocated(q) ==> fa.allocated(q),
                forall|v: u64|
                    start.0 <= v < vpn ==> (#[trigger] self.page_table.translate_spec(v)) is Some
                        && self.page_table.translate_spec(v)->Some_0.spec_flags() == (perm.bits
                        | PTE_V) && (map_type is Identical ==> self.page_table.translate_spec(
                        v,
                    )->Some_0.spec_ppn() == v),
                forall|v: u64|
                    v < VPN_LIMIT && !(start.0 <= v < vpn) ==> self.page_table.translate_spec(v)
                        == old(self).page_table.translate_spec(v),
                map_type is Framed ==> forall|v: u64|
                    start.0 <= v < vpn ==> #[trigger] self.page_table.translate_spec(v) == Some(
                        (PageTableEntry {
                            bits: spec_pte_bits(
                                data_frames@[(v - start.0) as int].ppn.0,
                                perm.bits | PTE_V,
                            ),
                        }),
                    ),
                map_type is Identical ==> forall|v: u64|
                    start.0 <= v < vpn ==> #[trigger] self.page_table.translate_spec(v) == Some(
                        (PageTableEntry { bits: spec_pte_bits(v, perm.bits | PTE_V) }),
                    ),
                forall|j: int|
                    0 <= j < data_frames@.len() ==> (#[trigger] data_frames@[j]).ppn.0
                        < PPN_LIMIT,
                map_type is Framed ==> data_frames@.len() == vpn - start.0,
                map_type is Identical ==> data_frames@.len() == 0,
                forall|j: int|
                    0 <= j < data_frames@.len() ==> fa.allocated(
                        (#[trigger] data_frames@[j]).ppn.0,
                    ),
                forall|j1: int, j2: int|
                    0 <= j1 < j2 < data_frames@.len() ==> (#[trigger] data_frames@[j1]).ppn.0 != (
                    #[trigger] data_frames@[j2]).ppn.0,
                forall|j: int, n: int|
                    0 <= j < data_frames@.len() && 0 <= n < self.page_table.nodes@.len() ==> (
                    #[trigger] data_frames@[j]).ppn.0 != (
                    #[trigger] self.page_table.nodes@[n]).ppn,
                forall|i: int, j2: int, j: int|
                    0 <= i < self.areas@.len() && 0 <= j2 < self.areas@[i].data_frames@.len() && 0
                        <= j < data_frames@.len() ==> (
                    #[trigger] self.areas@[i].data_frames@[j2]).ppn.0 != (
                    #[trigger] data_frames@[j]).ppn.0,
                forall|i: int, j2: int|
                    0 <= i < self.areas@.len() && 0 <= j2 < self.areas@[i].data_frames@.len()
                        ==> fa.allocated((#[trigger] self.areas@[i].data_frames@[j2]).ppn.0),
                forall|i: int, j2: int, n: int|
                    0 <= i < self.areas@.len() && 0 <= j2 < self.areas@[i].data_frames@.len() && 0
                        <= n < self.page_table.nodes@.len() ==> (
                    #[trigger] self.areas@[i].data_frames@[j2]).ppn.0 != (
                    #[trigger] self.page_table.nodes@[n]).ppn,
            decreases end.0 - vpn,
        {
            proof {
                // the page about to be mapped is still unmapped: no area of
                // the old space covers it and it is not the trampoline.
                assert(!(vpn == TRAMPOLINE_VPN && old(self).trampoline is Some));
                assert(old(self).page_table.translate_spec(vpn) is None);
                assert(self.page_table.translate_spec(vpn) is None);
            }
            let ghost fa_pre = *fa;
            let ghost pt_pre = self.page_table;
            proof {
                // a complete walk lets map work without any fresh frame;
                // otherwise the up-front budget still holds two nodes
                if complete0 {
                    assert(leaf_of(
                        self.page_table.nodes@,
                        self.page_table.root_ppn,
                        vpn,
                        0,
                    ) is Some);
                } else {
                    assert(fa.free_count() >= 3);
                }
            }
            match map_type {
                MapType::Identical => {
                    self.page_table.map(
                        fa,
                        VirtPageNum(vpn),
                        PhysPageNum(vpn),
                        PTEFlags::from_bits(perm.bits),
                    );
                    proof {
                        crate::page_table::lemma_pte_roundtrip(vpn, perm.bits | PTE_V);
                        if complete0 {
                            assert(leaf_of(pt_pre.nodes@, pt_pre.root_ppn, vpn, 0) is Some);
                        }
                    }
                },
                MapType::Framed => {
                    let ft = match fa.alloc_frame() {
                        Some(ft) => ft,
                        None => {
                            proof {
                                assert(false);
                            }
                            vstd::pervasive::unreached()
                        },
                    };
                    let p = ft.ppn.0;
                    let ghost fa_mid = *fa;
                    data_frames.push(ft);
                    self.page_table.map(
                        fa,
                        VirtPageNum(vpn),
                        PhysPageNum(p),
                        PTEFlags::from_bits(perm.bits),
                    );
                    proof {
                        crate::page_table::lemma_pte_roundtrip(p, perm.bits | PTE_V);
                        assert(fa.allocated(p));
                        if complete0 {
                            assert(leaf_of(pt_pre.nodes@, pt_pre.root_ppn, vpn, 0) is Some);
                        }
                        assert forall|j: int| 0 <= j < data_frames@.len() implies fa.allocated(
                            (#[trigger] data_frames@[j]).ppn.0,
                        ) by {
                            if j < data_frames@.len() - 1 {
                                assert(fa_pre.allocated(data_frames@[j].ppn.0));
                                assert(fa_mid.allocated(data_frames@[j].ppn.0));
                            }
                        }
                    }
                },
            }
            vpn = vpn + 1;
        }
        let area = MapArea {
            vpn_range: VPNRange { start, end },
            map_type,
            map_perm: perm,
            data_frames,
        };
        self.areas.push(area);
        proof {
            let n = old(self).areas@.len() as int;
            assert(self.areas@.len() == n + 1);
            assert(forall|i: int| 0 <= i < n ==> self.areas@[i] == old(self).areas@[i]);
            assert(self.areas@[n] == area);
            // disjointness of the new area from every old one
            assert forall|i: int, j: int|
                0 <= i < j < self.areas@.len() implies !(
            #[trigger] self.areas@[i]).vpn_range.spec_overlaps(
                (#[trigger] self.areas@[j]).vpn_range,
            ) by {
                if j < n {
                    assert(!old(self).areas@[i].vpn_range.spec_overlaps(
                        old(self).areas@[j].vpn_range,
                    ));
                } else {
                    if self.areas@[i].vpn_range.spec_overlaps(area.vpn_range) {
                        let v = choose|v: u64|
                            self.areas@[i].vpn_range.spec_contains(v)
                                && area.vpn_range.spec_contains(v);
                        assert(old(self).covers(v));
                        assert(false);
                    }
                }
            }
            // every area is still fully mapped, old ones untouched and
            // the new one page by page to its own frames
            assert forall|i: int| 0 <= i < self.areas@.len() implies self.area_mapped(i) by {
                if i < n {
                    assert(old(self).area_mapped(i));
                    let a = self.areas@[i];
                    assert forall|v: u64| a.vpn_range.spec_contains(v) implies {
                        &&& (#[trigger] self.page_table.translate_spec(v)) is Some
                        &&& self.page_table.translate_spec(v)->Some_0.spec_flags()
                            == a.map_perm.bits | PTE_V
                        &&& (a.map_type is Identical ==> self.page_table.translate_spec(
                            v,
                        )->Some_0.spec_ppn() == v)
                        &&& (a.map_type is Framed ==> self.page_table.translate_spec(
                            v,
                        )->Some_0.spec_ppn() == a.data_frames@[(v
                            - a.vpn_range.start.0) as int].ppn.0)
                    } by {
                        assert(a.wf());
                        if start.0 <= v < end.0 {
                            assert(old(self).covers(v));
                            assert(false);
                        }
                        assert(self.page_table.translate_spec(v) == old(
                            self,
                        ).page_table.translate_spec(v));
                    }
                } else {
                    let a = self.areas@[n];
                    assert forall|v: u64| a.vpn_range.spec_contains(v) implies {
                        &&& (#[trigger] self.page_table.translate_spec(v)) is Some
                        &&& self.page_table.translate_spec(v)->Some_0.spec_flags()
                            == a.map_perm.bits | PTE_V
                        &&& (a.map_type is Identical ==> self.page_table.translate_spec(
                            v,
                        )->Some_0.spec_ppn() == v)
                        &&& (a.map_type is Framed ==> self.page_table.translate_spec(
                            v,
                        )->Some_0.spec_ppn() == a.data_frames@[(v
                            - a.vpn_range.start.0) as int].ppn.0)
                    } by {
                        if a.map_type is Framed {
                            lemma_pte_roundtrip(
                                a.data_frames@[(v - start.0) as int].ppn.0,
                                perm.bits | PTE_V,
                            );
                        } else {
                            lemma_pte_roundtrip(v, perm.bits | PTE_V);
                        }
                    }
                }
            }
            // nothing outside the areas and the trampoline is mapped
            assert forall|v: u64|
                v < VPN_LIMIT && !self.covers(v) && !(v == TRAMPOLINE_VPN
                    && self.trampoline is Some) implies (
            #[trigger] self.page_table.translate_spec(v)) is None by {
                if start.0 <= v < end.0 {
                    assert(self.areas@[n].vpn_range.spec_contains(v));
                    assert(false);
                } else {
                    if old(self).covers(v) {
                        let i = choose|i: int|
                            0 <= i < n && (#[trigger] old(self).areas@[i]).vpn_range.spec_contains(
                                v,
                            );
                        assert(self.areas@[i].vpn_range.spec_contains(v));
                        assert(false);
                    }
                }
            }
        }
    }
}

} // verus!

verus! {

/// Byte boundaries of the kernel image's sections and of usable physical
/// memory, as the linker laid them out.
#[derive(Clone, Copy, PartialEq, Eq, Structural, Debug)]
pub struct KernelLayout {
    /// Start of the code section.
    pub stext: u64,
    /// End of the code section.
    pub etext: u64,
    /// Start of the read-only data section.
    pub srodata: u64,
    /// End of the read-only data section.
    pub erodata: u64,
    /// Start of the read-write data section.
    pub sdata: u64,
    /// End of the read-write data section.
    pub edata: u64,
    /// Start of the zero-initialized section.
    pub sbss: u64,
    /// End of the zero-initialized section.
    pub ebss: u64,
    /// One past the last usable physical byte.
    pub memory_end: u64,
    /// Base of the trampoline code page, inside the code section.
    pub strampoline: u64,
}

impl KernelLayout {
    /// Sections are ordered and fit under the trampoline page.
    pub open spec fn wf(self) -> bool {
        &&& self.stext <= self.etext <= self.srodata <= self.erodata <= self.sdata <= self.edata
            <= self.sbss <= self.ebss <= self.memory_end
        &&& self.stext % PAGE_SIZE == 0
        &&& self.etext % PAGE_SIZE == 0
        &&& self.srodata % PAGE_SIZE == 0
        &&& self.erodata % PAGE_SIZE == 0
        &&& self.sdata % PAGE_SIZE == 0
        &&& self.edata % PAGE_SIZE == 0
        &&& self.sbss % PAGE_SIZE == 0
        &&& self.ebss % PAGE_SIZE == 0
        &&& spec_ceil_page_vpn(self.memory_end) <= TRAMPOLINE_VPN
        &&& self.strampoline % PAGE_SIZE == 0
        &&& self.strampoline / PAGE_SIZE < PPN_LIMIT
    }

    /// Frames a faithful boot needs: the root, the trampoline path, and
    /// three table nodes per identity page in the worst case.
    pub open spec fn frames_needed(self) -> int {
        3 + 3 * (spec_ceil_page_vpn(self.memory_end) - self.stext / PAGE_SIZE)
    }
}

/// Page number of the first page at or after byte address `a`, as a page
/// count.
pub open spec fn spec_ceil_page_vpn(a: u64) -> int {
    crate::address::spec_ceil_page(a) as int
}

/// The kernel address space translates every section address to itself
/// with the section's permissions: code read-execute, read-only data
/// read-only, data and the rest of physical memory read-write.
pub open spec fn kernel_mapped(ms: MemorySet, l: KernelLayout) -> bool {
    &&& forall|v: u64|
        l.stext / PAGE_SIZE <= v < spec_ceil_page_vpn(l.etext) ==> kernel_ident_at(
            ms,
            v,
            PTE_R | PTE_X,
        )
    &&& forall|v: u64|
        l.srodata / PAGE_SIZE <= v < spec_ceil_page_vpn(l.erodata) ==> kernel_ident_at(
            ms,
            v,
            PTE_R,
        )
    &&& forall|v: u64|
        l.sdata / PAGE_SIZE <= v < spec_ceil_page_vpn(l.edata) ==> kernel_ident_at(
            ms,
            v,
            PTE_R | PTE_W,
        )
    &&& forall|v: u64|
        l.sbss / PAGE_SIZE <= v < spec_ceil_page_vpn(l.ebss) ==> kernel_ident_at(
            ms,
            v,
            PTE_R | PTE_W,
        )
    &&& forall|v: u64|
        spec_ceil_page_vpn(l.ebss) <= v < spec_ceil_page_vpn(l.memory_end) ==> kernel_ident_at(
            ms,
            v,
            PTE_R | PTE_W,
        )
    &&& ms.page_table.translate_spec(TRAMPOLINE_VPN) == Some(
        (PageTableEntry { bits: spec_pte_bits(l.strampoline / PAGE_SIZE, PTE_R | PTE_X | PTE_V) }),
    )
}

/// Page `v` translates to itself with flags `f` plus the valid bit.
pub open spec fn kernel_ident_at(ms: MemorySet, v: u64, f: u8) -> bool {
    let e = ms.page_table.translate_spec(v);
    &&& e is Some
    &&& e->Some_0.spec_ppn() == v
    &&& e->Some_0.spec_flags() == f | PTE_V
}

impl MemorySet {
    /// Build the kernel's own address space: identity-map the code,
    /// read-only data, read-write data and zero-initialized sections with
    /// permissions derived from the section type, identity-map the rest of
    /// physical memory read-write, and install the shared trampoline page.
    #[verifier::rlimit(60)]
    pub fn new_kernel(fa: &mut StackFrameAllocator, l: KernelLayout) -> (ms: MemorySet)
        requires
            old(fa).wf(),
            l.wf(),
            old(fa).free_count() >= l.frames_needed(),
        ensures
            ms.wf(),
            final(fa).wf(),
            ms.owns(*final(fa)),
            kernel_mapped(ms, l),
            final(fa).start == old(fa).start,
            final(fa).end == old(fa).end,
            forall|q: u64| old(fa).allocated(q) ==> final(fa).allocated(q),
    {
        proof {
            assert((PTE_R | PTE_X) & 0xE1 == 0) by (bit_vector);
            assert(PTE_R & 0xE1 == 0) by (bit_vector);
            assert((PTE_R | PTE_W) & 0xE1 == 0) by (bit_vector);
        }
        let mut ms = Self::new_bare(fa);
        ms.map_trampoline(fa, PhysPageNum(l.strampoline / PAGE_SIZE));
        let g0 = VirtAddr(l.stext).floor();
        let g1 = VirtAddr(l.etext).ceil();
        let g2 = VirtAddr(l.srodata).floor();
        let g3 = VirtAddr(l.erodata).ceil();
        let g4 = VirtAddr(l.sdata).floor();
        let g5 = VirtAddr(l.edata).ceil();
        let g6 = VirtAddr(l.sbss).floor();
        let g7 = VirtAddr(l.ebss).ceil();
        let g8 = VirtAddr(l.memory_end).ceil();
        proof {
            lemma_layout_pages(l);
        }
        ms.push_area(fa, g0, g1, MapType::Identical, MapPermission::from_bits(PTE_R | PTE_X));
        ms.push_area(fa, g2, g3, MapType::Identical, MapPermission::from_bits(PTE_R));
        ms.push_area(fa, g4, g5, MapType::Identical, MapPermission::from_bits(PTE_R | PTE_W));
        ms.push_area(fa, g6, g7, MapType::Identical, MapPermission::from_bits(PTE_R | PTE_W));
        ms.push_area(fa, g7, g8, MapType::Identical, MapPermission::from_bits(PTE_R | PTE_W));
        ms
    }
}

/// The section page ranges of a well-formed layout are ordered, disjoint
/// and sized within the total page budget.
pub proof fn lemma_layout_pages(l: KernelLayout)
    requires
        l.wf(),
    ensures
        l.stext / PAGE_SIZE <= spec_ceil_page_vpn(l.etext) <= l.srodata / PAGE_SIZE
            <= spec_ceil_page_vpn(l.erodata) <= l.sdata / PAGE_SIZE <= spec_ceil_page_vpn(l.edata)
            <= l.sbss / PAGE_SIZE <= spec_ceil_page_vpn(l.ebss) <= spec_ceil_page_vpn(
            l.memory_end,
        ),
        (spec_ceil_page_vpn(l.etext) - l.stext / PAGE_SIZE) + (spec_ceil_page_vpn(l.erodata)
            - l.srodata / PAGE_SIZE) + (spec_ceil_page_vpn(l.edata) - l.sdata / PAGE_SIZE) + (
        spec_ceil_page_vpn(l.ebss) - l.sbss / PAGE_SIZE) + (spec_ceil_page_vpn(l.memory_end)
            - spec_ceil_page_vpn(l.ebss)) <= spec_ceil_page_vpn(l.memory_end) - l.stext
            / PAGE_SIZE,
{
    lemma_floor_le_ceil(l.stext, l.etext);
    lemma_ceil_le_floor(l.etext, l.srodata);
    lemma_floor_le_ceil(l.srodata, l.erodata);
    lemma_ceil_le_floor(l.erodata, l.sdata);
    lemma_floor_le_ceil(l.sdata, l.edata);
    lemma_ceil_le_floor(l.edata, l.sbss);
    lemma_floor_le_ceil(l.sbss, l.ebss);
    lemma_ceil_le_ceil(l.ebss, l.memory_end);
}

/// For `a <= b`, the page containing `a` starts no later than the first
/// page boundary at or after `b`.
pub proof fn lemma_floor_le_ceil(a: u64, b: u64)
    requires
        a <= b,
    ensures
        a / PAGE_SIZE <= spec_ceil_page_vpn(b),
{
    vstd::arithmetic::div_mod::lemma_div_is_ordered(a as int, b as int, PAGE_SIZE as int);
    if b > 0 {
        vstd::arithmetic::div_mod::lemma_div_is_ordered(
            (b - 1) as int,
            b as int,
            PAGE_SIZE as int,
        );
    }
}

/// A page-aligned address is its own ceiling boundary.
pub proof fn lemma_ceil_aligned(a: u64)
    requires
        a % PAGE_SIZE == 0,
    ensures
        spec_ceil_page_vpn(a) == a as int / (PAGE_SIZE as int),
{
    if a > 0 {
        let q = a as int / (PAGE_SIZE as int);
        vstd::arithmetic::div_mod::lemma_fundamental_div_mod(a as int, PAGE_SIZE as int);
        assert(a == q * (PAGE_SIZE as int));
        assert(q >= 1);
        vstd::arithmetic::div_mod::lemma_fundamental_div_mod_converse(
            (a - 1) as int,
            PAGE_SIZE as int,
            q - 1,
            PAGE_SIZE as int - 1,
        );
    }
}

/// For page-aligned `a <= b`, the first page boundary at or after `a` is
/// no later than the page containing `b`.
pub proof fn lemma_ceil_le_floor(a: u64, b: u64)
    requires
        a <= b,
        a % PAGE_SIZE == 0,
    ensures
        spec_ceil_page_vpn(a) <= b / PAGE_SIZE,
{
    lemma_ceil_aligned(a);
    vstd::arithmetic::div_mod::lemma_div_is_ordered(a as int, b as int, PAGE_SIZE as int);
}

/// Taking the ceiling page is monotone.
pub proof fn lemma_ceil_le_ceil(a: u64, b: u64)
    requires
        a <= b,
    ensures
        spec_ceil_page_vpn(a) <= spec_ceil_page_vpn(b),
{
    if a > 0 {
        vstd::arithmetic::div_mod::lemma_div_is_ordered(
            (a - 1) as int,
            (b - 1) as int,
            PAGE_SIZE as int,
        );
    }
}

} // verus!

verus! {

/// One loadable piece of a program image, already decoded from its
/// headers: the virtual byte range it occupies and its permissions.
#[derive(Clone, Copy, PartialEq, Eq, Structural, Debug)]
pub struct Segment {
    /// First virtual byte of the segment.
    pub start_va: u64,
    /// One past the last virtual byte of the segment.
    pub end_va: u64,
    /// Read/write/execute permissions of the segment.
    pub perm: MapPermission,
}

/// First page of a segment.
pub open spec fn seg_start_vpn(s: Segment) -> int {
    s.start_va as int / (PAGE_SIZE as int)
}

/// One past the last page of a segment.
pub open spec fn seg_end_vpn(s: Segment) -> int {
    spec_ceil_page_vpn(s.end_va)
}

/// Total pages of the segments from index `i` on.
pub open spec fn seg_pages_from(segs: Seq<Segment>, i: int) -> int
    decreases segs.len() - i,
{
    if 0 <= i < segs.len() {
        (seg_end_vpn(segs[i]) - seg_start_vpn(segs[i])) + seg_pages_from(segs, i + 1)
    } else {
        0
    }
}

/// Page counts of well-formed segments are non-negative.
pub proof fn lemma_seg_pages_nonneg(segs: Seq<Segment>, i: int)
    requires
        forall|j: int| 0 <= j < segs.len() ==> (#[trigger] segs[j]).start_va <= segs[j].end_va,
    ensures
        seg_pages_from(segs, i) >= 0,
    decreases segs.len() - i,
{
    if 0 <= i < segs.len() {
        lemma_floor_le_ceil(segs[i].start_va, segs[i].end_va);
        lemma_seg_pages_nonneg(segs, i + 1);
    }
}

/// A well-formed image: segments ordered and disjoint at page
/// granularity, each with valid permissions, all leaving room for the
/// guard page and the user stack below the trampoline.
pub open spec fn segments_wf(segs: Seq<Segment>) -> bool {
    &&& forall|j: int| 0 <= j < segs.len() ==> (#[trigger] segs[j]).start_va <= segs[j].end_va
    &&& forall|j: int| 0 <= j < segs.len() ==> (#[trigger] segs[j]).perm.valid()
    &&& forall|j1: int, j2: int|
        0 <= j1 < j2 < segs.len() ==> seg_end_vpn(#[trigger] segs[j1]) <= seg_start_vpn(
            #[trigger] segs[j2],
        )
}

/// Highest page boundary any segment reaches; the guard page sits there.
pub open spec fn segs_max_vpn(segs: Seq<Segment>) -> int {
    if segs.len() == 0 {
        0
    } else {
        seg_end_vpn(segs.last())
    }
}

impl MemorySet {
    /// Build a task's address space from a decoded program image: one
    /// framed, user-accessible area per loadable segment, then one
    /// unmapped guard page above the image, then the user stack, with the
    /// user heap reserved immediately above the stack. Returns the space,
    /// the image's entry address unchanged, the user stack top and the
    /// heap base.
    pub fn from_elf(
        fa: &mut StackFrameAllocator,
        segments: &Vec<Segment>,
        entry: u64,
        trampoline_ppn: PhysPageNum,
    ) -> (r: (MemorySet, u64, u64, u64))
        requires
            old(fa).wf(),
            segments_wf(segments@),
            segs_max_vpn(segments@) + 1 + USER_STACK_SIZE / PAGE_SIZE <= TRAMPOLINE_VPN,
            trampoline_ppn.0 < PPN_LIMIT,
            old(fa).free_count() >= 3 + 3 * seg_pages_from(segments@, 0) + 3 * (USER_STACK_SIZE
                / PAGE_SIZE),
        ensures
            ({
                let (ms, entry_out, stack_top, heap_base) = r;
                &&& ms.wf()
                &&& final(fa).wf()
                &&& ms.owns(*final(fa))
                &&& entry_out == entry
                &&& stack_top == (segs_max_vpn(segments@) + 1 + USER_STACK_SIZE / PAGE_SIZE)
                    * PAGE_SIZE
                &&& stack_top % PAGE_SIZE == 0
                &&& heap_base == stack_top
                &&& ms.page_table.translate_spec(segs_max_vpn(segments@) as u64) is None
                &&& forall|j: int, v: u64|
                    0 <= j < segments@.len() && seg_start_vpn(#[trigger] segments@[j]) <= v
                        < seg_end_vpn(segments@[j]) ==> {
                        let e = #[trigger] ms.page_table.translate_spec(v);
                        &&& e is Some
                        &&& e->Some_0.spec_flags() == (segments@[j].perm.bits | MAP_PERM_U)
                            | PTE_V
                    }
                &&& forall|v: u64|
                    segs_max_vpn(segments@) + 1 <= v < segs_max_vpn(segments@) + 1
                        + USER_STACK_SIZE / PAGE_SIZE ==> {
                        let e = #[trigger] ms.page_table.translate_spec(v);
                        &&& e is Some
                        &&& e->Some_0.spec_flags() == (MAP_PERM_R | MAP_PERM_W | MAP_PERM_U)
                            | PTE_V
                    }
                &&& ms.page_table.translate_spec(TRAMPOLINE_VPN) is Some
                &&& forall|q: u64| old(fa).allocated(q) ==> final(fa).allocated(q)
            }),
    {
        proof {
            assert((MAP_PERM_R | MAP_PERM_W | MAP_PERM_U) & 0xE1 == 0) by (bit_vector);
            lemma_seg_pages_nonneg(segments@, 0);
        }
        let mut ms = Self::new_bare(fa);
        ms.map_trampoline(fa, trampoline_ppn);
        let ghost ms0 = ms;
        let mut i: usize = 0;
        while i < segments.len()
            invariant
                i <= segments@.len(),
                segments_wf(segments@),
                segs_max_vpn(segments@) + 1 + USER_STACK_SIZE / PAGE_SIZE <= TRAMPOLINE_VPN,
                ms.wf(),
                fa.wf(),
                ms.owns(*fa),
                ms.trampoline is Some,
                ms.page_table.translate_spec(TRAMPOLINE_VPN) is Some,
                fa.start == old(fa).start,
                fa.end == old(fa).end,
                forall|q: u64| old(fa).allocated(q) ==> fa.allocated(q),
                fa.free_count() >= 3 * seg_pages_from(segments@, i as int) + 3 * (USER_STACK_SIZE
                    / PAGE_SIZE),
                ms.areas@.len() == i,
                forall|j: int|
                    0 <= j < i ==> {
                        let a = #[trigger] ms.areas@[j];
                        &&& a.vpn_range.start.0 == seg_start_vpn(segments@[j])
                        &&& a.vpn_range.end.0 == seg_end_vpn(segments@[j])
                        &&& a.map_perm.bits == segments@[j].perm.bits | MAP_PERM_U
                    },
            decreases segments@.len() - i,
        {
            let s = segments[i];
            let sv = VirtAddr(s.start_va).floor();
            let ev = VirtAddr(s.end_va).ceil();
            proof {
                lemma_floor_le_ceil(s.start_va, s.end_va);
                lemma_seg_pages_nonneg(segments@, i as int + 1);
                // every earlier area ends at or before this segment starts
                assert forall|v: u64| sv.0 <= v < ev.0 implies !ms.covers(v) by {
                    if ms.covers(v) {
                        let j = choose|j: int|
                            0 <= j < ms.areas@.len() && (
                            #[trigger] ms.areas@[j]).vpn_range.spec_contains(v);
                        assert(seg_end_vpn(segments@[j]) <= seg_start_vpn(segments@[i as int]));
                    }
                }
                // the segment stays below the trampoline
                if segments@.len() > i as int + 1 {
                    assert(seg_end_vpn(segments@[i as int]) <= seg_start_vpn(
                        segments@[segments@.len() - 1],
                    ));
                    lemma_floor_le_ceil(
                        segments@[segments@.len() - 1].start_va,
                        segments@[segments@.len() - 1].end_va,
                    );
                }
                let pb = s.perm.bits;
                assert(pb & 0xE1 == 0 ==> (pb | 0x10u8) & 0xE1 == 0) by (bit_vector);
            }
            ms.push_area(
                fa,
                sv,
                ev,
                MapType::Framed,
                MapPermission::from_bits(s.perm.bits | MAP_PERM_U),
            );
            i = i + 1;
        }
        let max_vpn: u64 = if segments.len() > 0 {
            VirtAddr(segments[segments.len() - 1].end_va).ceil().0
        } else {
            0
        };
        let stack_bottom: u64 = max_vpn + 1;
        let stack_top_vpn: u64 = stack_bottom + USER_STACK_SIZE / PAGE_SIZE;
        proof {
            assert forall|v: u64| stack_bottom <= v < stack_top_vpn implies !ms.covers(v) by {
                if ms.covers(v) {
                    let j = choose|j: int|
                        0 <= j < ms.areas@.len() && (
                        #[trigger] ms.areas@[j]).vpn_range.spec_contains(v);
                    if j < ms.areas@.len() - 1 {
                        assert(seg_end_vpn(segments@[j]) <= seg_start_vpn(
                            segments@[segments@.len() - 1],
                        ));
                        lemma_floor_le_ceil(
                            segments@[segments@.len() - 1].start_va,
                            segments@[segments@.len() - 1].end_va,
                        );
                    }
                }
            }
        }
        let ghost ms_pre_stack = ms;
        ms.push_area(
            fa,
            VirtPageNum(stack_bottom),
            VirtPageNum(stack_top_vpn),
            MapType::Framed,
            MapPermission::from_bits(MAP_PERM_R | MAP_PERM_W | MAP_PERM_U),
        );
        let user_stack_top: u64 = stack_top_vpn * PAGE_SIZE;
        proof {
            crate::address::lemma_page_base_offset(stack_top_vpn as int, 0);
            // the guard page below the stack is covered by no area
            assert(!ms.covers(max_vpn)) by {
                if ms.covers(max_vpn) {
                    let j = choose|j: int|
                        0 <= j < ms.areas@.len() && (
                        #[trigger] ms.areas@[j]).vpn_range.spec_contains(max_vpn);
                    if j < ms.areas@.len() - 1 {
                        if j < ms.areas@.len() - 2 {
                            assert(seg_end_vpn(segments@[j]) <= seg_start_vpn(
                                segments@[segments@.len() - 1],
                            ));
                            lemma_floor_le_ceil(
                                segments@[segments@.len() - 1].start_va,
                                segments@[segments@.len() - 1].end_va,
                            );
                        }
                    }
                }
            }
            assert(ms.page_table.translate_spec(max_vpn) is None);
            // segment areas keep their recorded translations
            assert forall|j: int, v: u64|
                0 <= j < segments@.len() && seg_start_vpn(#[trigger] segments@[j]) <= v
                    < seg_end_vpn(segments@[j]) implies {
                let e = #[trigger] ms.page_table.translate_spec(v);
                &&& e is Some
                &&& e->Some_0.spec_flags() == (segments@[j].perm.bits | MAP_PERM_U) | PTE_V
            } by {
                assert(ms.areas@[j] == ms_pre_stack.areas@[j]);
                assert(ms.areas@[j].vpn_range.spec_contains(v));
                assert(ms.area_mapped(j));
            }
            assert forall|v: u64|
                segs_max_vpn(segments@) + 1 <= v < segs_max_vpn(segments@) + 1 + USER_STACK_SIZE
                    / PAGE_SIZE implies {
                let e = #[trigger] ms.page_table.translate_spec(v);
                &&& e is Some
                &&& e->Some_0.spec_flags() == (MAP_PERM_R | MAP_PERM_W | MAP_PERM_U) | PTE_V
            } by {
                let n = ms.areas@.len() - 1;
                assert(ms.areas@[n].vpn_range.spec_contains(v));
                assert(ms.area_mapped(n));
            }
        }
        (ms, entry, user_stack_top, user_stack_top)
    }
}

} // verus!

verus! {

impl MemorySet {
    /// Remove the area at `idx`: clear every one of its page-table
    /// entries and hand its owned frames back to the pool.
    pub(crate) fn remove_area(&mut self, fa: &mut StackFrameAllocator, idx: usize)
        requires
            old(self).wf(),
            old(fa).wf(),
            old(self).owns(*old(fa)),
            idx < old(self).areas@.len(),
        ensures
            final(self).wf(),
            final(fa).wf(),
            final(self).owns(*final(fa)),
            final(self).areas@ == old(self).areas@.remove(idx as int),
            final(self).trampoline == old(self).trampoline,
            final(self).spec_token() == old(self).spec_token(),
            final(fa).start == old(fa).start,
            final(fa).end == old(fa).end,
            final(fa).free_count() >= old(fa).free_count(),
            final(fa).free_count() == old(fa).free_count() + old(
                self,
            ).areas@[idx as int].data_frames@.len(),
            forall|v: u64|
                old(self).areas@[idx as int].vpn_range.spec_contains(v) ==> final(self).page_table.translate_spec(v) is None,
            forall|v: u64|
                v < VPN_LIMIT && !old(self).areas@[idx as int].vpn_range.spec_contains(v)
                    ==> final(self).page_table.translate_spec(v) == old(
                    self,
                ).page_table.translate_spec(v),
    {
        let mut area = self.areas.remove(idx);
        let ghost removed = area;
        let ghost old_areas = old(self).areas@;
        let start: u64 = area.vpn_range.start.0;
        let end: u64 = area.vpn_range.end.0;
        proof {
            assert(old(self).area_mapped(idx as int));
            assert(removed.wf());
        }
        let mut vpn: u64 = start;
        while vpn < end
            invariant
                start <= vpn <= end,
                end <= TRAMPOLINE_VPN,
                old(self).wf(),
                old(self).owns(*old(fa)),
                idx < old_areas.len(),
                old_areas == old(self).areas@,
                removed == old_areas[idx as int],
                start == removed.vpn_range.start.0,
                end == removed.vpn_range.end.0,
                self.areas@ == old_areas.remove(idx as int),
                self.trampoline == old(self).trampoline,
                self.page_table.wf(),
                self.page_table.root_ppn == old(self).page_table.root_ppn,
                self.page_table.nodes@.len() == old(self).page_table.nodes@.len(),
                forall|i: int|
                    0 <= i < old(self).page_table.nodes@.len() ==> (
                    #[trigger] self.page_table.nodes@[i]).ppn == old(
                        self,
                    ).page_table.nodes@[i].ppn,
                *fa == *old(fa),
                forall|v: u64| start <= v < vpn ==> self.page_table.translate_spec(v) is None,
                forall|v: u64|
                    v < VPN_LIMIT && !(start <= v < vpn) ==> self.page_table.translate_spec(v)
                        == old(self).page_table.translate_spec(v),
            decreases end - vpn,
        {
            proof {
                assert(old(self).area_mapped(idx as int));
                assert(removed.vpn_range.spec_contains(vpn));
                assert(old(self).page_table.translate_spec(vpn) is Some);
            }
            self.page_table.unmap(VirtPageNum(vpn));
            vpn = vpn + 1;
        }
        let ghost all_frames = removed.data_frames@;
        proof {
            // the removed frames are pairwise distinct holdings
            assert forall|j1: int, j2: int|
                0 <= j1 < j2 < all_frames.len() implies (#[trigger] all_frames[j1]).ppn.0 != (
            #[trigger] all_frames[j2]).ppn.0 by {
                assert(old(self).areas@[idx as int].data_frames@[j1] == all_frames[j1]);
                assert(old(self).areas@[idx as int].data_frames@[j2] == all_frames[j2]);
            }
            assert forall|j: int| 0 <= j < all_frames.len() implies old(fa).allocated(
                (#[trigger] all_frames[j]).ppn.0,
            ) by {
                assert(old(self).areas@[idx as int].data_frames@[j] == all_frames[j]);
            }
        }
        while area.data_frames.len() > 0
            invariant
                area.data_frames@.len() <= all_frames.len(),
                forall|j: int|
                    0 <= j < area.data_frames@.len() ==> (#[trigger] area.data_frames@[j])
                        == all_frames[j],
                forall|j1: int, j2: int|
                    0 <= j1 < j2 < all_frames.len() ==> (#[trigger] all_frames[j1]).ppn.0 != (
                    #[trigger] all_frames[j2]).ppn.0,
                forall|j: int|
                    0 <= j < all_frames.len() ==> old(fa).allocated(
                        (#[trigger] all_frames[j]).ppn.0,
                    ),
                fa.wf(),
                fa.start == old(fa).start,
                fa.end == old(fa).end,
                fa.free_count() == old(fa).free_count() + (all_frames.len()
                    - area.data_frames@.len()),
                forall|q: u64|
                    fa.allocated(q) <==> (old(fa).allocated(q) && !(exists|j: int|
                        area.data_frames@.len() <= j < all_frames.len() && (
                        #[trigger] all_frames[j]).ppn.0 == q)),
            decreases area.data_frames@.len(),
        {
            let ghost pre_len = area.data_frames@.len() as int;
            let ft = match area.data_frames.pop() {
                Some(ft) => ft,
                None => {
                    proof {
                        assert(false);
                    }
                    vstd::pervasive::unreached()
                },
            };
            proof {
                assert(ft == all_frames[pre_len - 1]);
                assert(fa.allocated(ft.ppn.0)) by {
                    assert(old(fa).allocated(ft.ppn.0));
                    assert(!(exists|j: int|
                        pre_len <= j < all_frames.len() && (#[trigger] all_frames[j]).ppn.0
                            == ft.ppn.0));
                }
            }
            let ghost fa_before = *fa;
            fa.dealloc(ft);
            proof {
                assert forall|q: u64|
                    fa.allocated(q) <==> (old(fa).allocated(q) && !(exists|j: int|
                        area.data_frames@.len() <= j < all_frames.len() && (
                        #[trigger] all_frames[j]).ppn.0 == q)) by {
                    if q == ft.ppn.0 {
                        assert(all_frames[pre_len - 1].ppn.0 == q);
                        assert(!fa.allocated(q));
                    } else {
                        assert(fa.allocated(q) <==> fa_before.allocated(q));
                        assert((exists|j: int|
                            pre_len <= j < all_frames.len() && (#[trigger] all_frames[j]).ppn.0
                                == q) <==> (exists|j: int|
                            pre_len - 1 <= j < all_frames.len() && (
                            #[trigger] all_frames[j]).ppn.0 == q)) by {
                            if exists|j: int|
                                pre_len - 1 <= j < all_frames.len() && (
                                #[trigger] all_frames[j]).ppn.0 == q {
                                let j = choose|j: int|
                                    pre_len - 1 <= j < all_frames.len() && (
                                    #[trigger] all_frames[j]).ppn.0 == q;
                                assert(j != pre_len - 1);
                            }
                        }
                    }
                }
            }
        }
        proof {
            assert forall|i: int| 0 <= i < self.areas@.len() implies self.area_mapped(i) by {
                let oi = if i < idx { i } else { i + 1 };
                assert(self.areas@[i] == old_areas[oi]);
                assert(old(self).area_mapped(oi));
                let a = self.areas@[i];
                assert forall|v: u64| a.vpn_range.spec_contains(v) implies {
                    &&& (#[trigger] self.page_table.translate_spec(v)) is Some
                    &&& self.page_table.translate_spec(v)->Some_0.spec_flags() == a.map_perm.bits
                        | PTE_V
                    &&& (a.map_type is Identical ==> self.page_table.translate_spec(
                        v,
                    )->Some_0.spec_ppn() == v)
                } by {
                    assert(a.wf());
                    if start <= v < end {
                        assert(removed.vpn_range.spec_contains(v));
                        assert(a.vpn_range.spec_overlaps(removed.vpn_range));
                        if oi < idx {
                            assert(!old(self).areas@[oi].vpn_range.spec_overlaps(
                                old(self).areas@[idx as int].vpn_range,
                            ));
                        } else {
                            assert(!old(self).areas@[idx as int].vpn_range.spec_overlaps(
                                old(self).areas@[oi].vpn_range,
                            ));
                        }
                        assert(false);
                    }
                    assert(self.page_table.translate_spec(v) == old(
                        self,
                    ).page_table.translate_spec(v));
                }
            }
            assert forall|v: u64|
                v < VPN_LIMIT && !self.covers(v) && !(v == TRAMPOLINE_VPN
                    && self.trampoline is Some) implies (
            #[trigger] self.page_table.translate_spec(v)) is None by {
                if !(start <= v < end) {
                    if old(self).covers(v) {
                        let i = choose|i: int|
                            0 <= i < old_areas.len() && (
                            #[trigger] old_areas[i]).vpn_range.spec_contains(v);
                        assert(i != idx);
                        let ni = if i < idx { i } else { i - 1 };
                        assert(self.areas@[ni] == old_areas[i]);
                        assert(self.areas@[ni].vpn_range.spec_contains(v));
                        assert(false);
                    }
                }
            }
            // the remaining holdings were never released: each is distinct
            // from every removed frame
            assert forall|i: int, j: int|
                0 <= i < self.areas@.len() && 0 <= j < self.areas@[i].data_frames@.len() implies
                fa.allocated((#[trigger] self.areas@[i].data_frames@[j]).ppn.0) by {
                let oi = if i < idx { i } else { i + 1 };
                assert(self.areas@[i] == old_areas[oi]);
                assert(old(self).areas@[oi].data_frames@[j] == self.areas@[i].data_frames@[j]);
                let q = self.areas@[i].data_frames@[j].ppn.0;
                assert(old(fa).allocated(q));
                if exists|j2: int|
                    0 <= j2 < all_frames.len() && (#[trigger] all_frames[j2]).ppn.0 == q {
                    let j2 = choose|j2: int|
                        0 <= j2 < all_frames.len() && (#[trigger] all_frames[j2]).ppn.0 == q;
                    assert(old(self).areas@[idx as int].data_frames@[j2] == all_frames[j2]);
                    assert(false);
                }
            }
            assert forall|n: int|
                0 <= n < self.page_table.nodes@.len() implies fa.allocated(
                (#[trigger] self.page_table.nodes@[n]).ppn) by {
                let q = self.page_table.nodes@[n].ppn;
                assert(q == old(self).page_table.nodes@[n].ppn);
                assert(old(fa).allocated(q));
                if exists|j2: int|
                    0 <= j2 < all_frames.len() && (#[trigger] all_frames[j2]).ppn.0 == q {
                    let j2 = choose|j2: int|
                        0 <= j2 < all_frames.len() && (#[trigger] all_frames[j2]).ppn.0 == q;
                    assert(old(self).areas@[idx as int].data_frames@[j2] == all_frames[j2]);
                    assert(false);
                }
            }
        }
    }

    /// Remove and drop the area beginning at `start_vpn`, releasing its
    /// frames and clearing its page-table entries. Fails with a negative
    /// status when no area starts there.
    pub fn remove_area_with_start_vpn(
        &mut self,
        fa: &mut StackFrameAllocator,
        start_vpn: VirtPageNum,
    ) -> (r: isize)
        requires
            old(self).wf(),
            old(fa).wf(),
            old(self).owns(*old(fa)),
        ensures
            final(self).wf(),
            final(fa).wf(),
            final(self).owns(*final(fa)),
            final(self).trampoline == old(self).trampoline,
            final(fa).start == old(fa).start,
            final(fa).end == old(fa).end,
            final(fa).free_count() >= old(fa).free_count(),
            r == 0 || r == -1,
            (r == 0) <==> (exists|i: int|
                0 <= i < old(self).areas@.len() && (
                #[trigger] old(self).areas@[i]).vpn_range.start == start_vpn),
            r == -1 ==> *final(self) == *old(self) && *final(fa) == *old(fa),
            r == 0 ==> (exists|i: int|
                {
                    &&& 0 <= i < old(self).areas@.len()
                    &&& (#[trigger] old(self).areas@[i]).vpn_range.start == start_vpn
                    &&& final(self).areas@ == old(self).areas@.remove(i)
                    &&& (forall|v: u64|
                        old(self).areas@[i].vpn_range.spec_contains(v) ==> final(self).page_table.translate_spec(v) is None)
                    &&& (forall|v: u64|
                        v < VPN_LIMIT && !old(self).areas@[i].vpn_range.spec_contains(v)
                            ==> final(self).page_table.translate_spec(v) == old(self).page_table.translate_spec(v))
                }),
    {
        let mut idx: usize = 0;
        while idx < self.areas.len()
            invariant
                idx <= self.areas@.len(),
                *self == *old(self),
                *fa == *old(fa),
                old(self).wf(),
                old(fa).wf(),
                old(self).owns(*old(fa)),
                forall|j: int|
                    0 <= j < idx ==> (#[trigger] self.areas@[j]).vpn_range.start != start_vpn,
            decreases self.areas@.len() - idx,
        {
            if self.areas[idx].vpn_range.start.0 == start_vpn.0 {
                let ghost witness = idx as int;
                proof {
                    assert(old(self).areas@[witness].vpn_range.start == start_vpn);
                }
                self.remove_area(fa, idx);
                return 0;
            }
            idx = idx + 1;
        }
        -1
    }
}

} // verus!

verus! {

impl MemorySet {
    /// Insert a new framed area covering the pages of `[start_va,
    /// end_va)`. Reports a mapping conflict with a negative status when
    /// the range overlaps an existing area, leaving the space untouched.
    pub fn insert_framed_area(
        &mut self,
        fa: &mut StackFrameAllocator,
        start_va: VirtAddr,
        end_va: VirtAddr,
        perm: MapPermission,
    ) -> (r: isize)
        requires
            old(self).wf(),
            old(fa).wf(),
            old(self).owns(*old(fa)),
            perm.valid(),
            start_va.0 <= end_va.0,
            spec_ceil_page_vpn(end_va.0) <= TRAMPOLINE_VPN,
            range_complete(
                old(self).page_table,
                start_va.0 / PAGE_SIZE,
                crate::address::spec_ceil_page(end_va.0),
            ) ==> old(fa).free_count() >= spec_ceil_page_vpn(end_va.0) - start_va.0 / PAGE_SIZE,
            !range_complete(
                old(self).page_table,
                start_va.0 / PAGE_SIZE,
                crate::address::spec_ceil_page(end_va.0),
            ) ==> old(fa).free_count() >= 3 * (spec_ceil_page_vpn(end_va.0) - start_va.0
                / PAGE_SIZE),
        ensures
            final(self).wf(),
            final(fa).wf(),
            final(self).owns(*final(fa)),
            final(self).trampoline == old(self).trampoline,
            final(fa).start == old(fa).start,
            final(fa).end == old(fa).end,
            r == 0 || r == -1,
            (r == 0) <==> (forall|v: u64|
                start_va.0 / PAGE_SIZE <= v < spec_ceil_page_vpn(end_va.0) ==> !old(self).covers(
                    v,
                )),
            r == -1 ==> *final(self) == *old(self) && *final(fa) == *old(fa),
            r == 0 ==> {
                &&& final(self).areas@.len() == old(self).areas@.len() + 1
                &&& (forall|i: int|
                    0 <= i < old(self).areas@.len() ==> final(self).areas@[i] == old(
                        self,
                    ).areas@[i])
                &&& final(self).areas@.last().map_type is Framed
                &&& final(self).areas@.last().map_perm == perm
                &&& final(self).areas@.last().vpn_range.start.0 == start_va.0 / PAGE_SIZE
                &&& final(self).areas@.last().vpn_range.end.0 == spec_ceil_page_vpn(end_va.0)
                &&& forall|v: u64|
                    start_va.0 / PAGE_SIZE <= v < spec_ceil_page_vpn(end_va.0) ==> {
                        let e = #[trigger] final(self).page_table.translate_spec(v);
                        &&& e is Some
                        &&& e->Some_0.spec_flags() == (perm.bits | PTE_V)
                        &&& e == Some(
                            (PageTableEntry {
                                bits: spec_pte_bits(
                                    final(self).areas@.last().data_frames@[(v - start_va.0
                                        / PAGE_SIZE) as int].ppn.0,
                                    perm.bits | PTE_V,
                                ),
                            }),
                        )
                    }
                &&& forall|v: u64|
                    v < VPN_LIMIT && !(start_va.0 / PAGE_SIZE <= v < spec_ceil_page_vpn(end_va.0))
                        ==> final(self).page_table.translate_spec(v) == old(
                        self,
                    ).page_table.translate_spec(v)
            },
    {
        let sv = start_va.floor();
        let ev = end_va.ceil();
        proof {
            lemma_floor_le_ceil(start_va.0, end_va.0);
        }
        let mut i: usize = 0;
        while i < self.areas.len()
            invariant
                i <= self.areas@.len(),
                *self == *old(self),
                *fa == *old(fa),
                old(self).wf(),
                old(fa).wf(),
                old(self).owns(*old(fa)),
                sv.0 == start_va.0 / PAGE_SIZE,
                ev.0 == spec_ceil_page_vpn(end_va.0),
                sv.0 <= ev.0,
                forall|j: int|
                    0 <= j < i ==> {
                        let a = #[trigger] self.areas@[j];
                        !(a.vpn_range.start.0 < ev.0 && sv.0 < a.vpn_range.end.0
                            && a.vpn_range.start.0 < a.vpn_range.end.0 && sv.0 < ev.0)
                    },
            decreases self.areas@.len() - i,
        {
            let a_s = self.areas[i].vpn_range.start.0;
            let a_e = self.areas[i].vpn_range.end.0;
            if a_s < ev.0 && sv.0 < a_e && a_s < a_e && sv.0 < ev.0 {
                proof {
                    // the later of the two starts is covered by both
                    let w: u64 = if sv.0 < a_s {
                        a_s
                    } else {
                        sv.0
                    };
                    assert(self.areas@[i as int].vpn_range.spec_contains(w));
                    assert(old(self).covers(w));
                    assert(sv.0 <= w < ev.0);
                }
                return -1;
            }
            i = i + 1;
        }
        proof {
            assert forall|v: u64| sv.0 <= v < ev.0 implies !old(self).covers(v) by {
                if old(self).covers(v) {
                    let j = choose|j: int|
                        0 <= j < old(self).areas@.len() && (
                        #[trigger] old(self).areas@[j]).vpn_range.spec_contains(v);
                    assert(self.areas@[j].vpn_range.spec_contains(v));
                }
            }
        }
        self.push_area(fa, sv, ev, MapType::Framed, perm);
        0
    }
}

} // verus!
