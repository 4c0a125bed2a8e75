//! SV39 three-level radix page table: bit-exact entries, read-only walks,
//! and mapping/unmapping with exact frame conditions.

use vstd::prelude::*;
use crate::address::{PhysAddr, PhysPageNum, VirtAddr, VirtPageNum};
use crate::frame_allocator::{FrameTracker, StackFrameAllocator};
use crate::config::{PAGE_SIZE, PPN_LIMIT, SATP_MODE_SV39, VPN_LIMIT};

verus! {

/// Entry flag: valid.
pub const PTE_V: u8 = 0x01;
/// Entry flag: readable.
pub const PTE_R: u8 = 0x02;
/// Entry flag: writable.
pub const PTE_W: u8 = 0x04;
/// Entry flag: executable.
pub const PTE_X: u8 = 0x08;
/// Entry flag: user-accessible.
pub const PTE_U: u8 = 0x10;
/// Entry flag: global.
pub const PTE_G: u8 = 0x20;
/// Entry flag: accessed.
pub const PTE_A: u8 = 0x40;
/// Entry flag: dirty.
pub const PTE_D: u8 = 0x80;

/// The eight SV39 flag bits of a page-table entry.
#[derive(Clone, Copy, PartialEq, Eq, Structural, Debug)]
pub struct PTEFlags {
    /// The raw flag byte, laid out exactly as the hardware reads it.
    pub bits: u8,
}

impl PTEFlags {
    /// No flags set.
    pub fn empty() -> (r: PTEFlags)
        ensures
            r.bits == 0,
    {
        PTEFlags { bits: 0 }
    }

    /// Flags from a raw byte.
    pub fn from_bits(bits: u8) -> (r: PTEFlags)
        ensures
            r.bits == bits,
    {
        PTEFlags { bits }
    }
}

/// One SV39 page-table entry: flags in bits 0-7, physical page number in
/// bits 10-53. The layout is bit-exact because the hardware MMU reads it
/// directly.
#[derive(Clone, Copy, PartialEq, Eq, Structural, Debug)]
pub struct PageTableEntry {
    /// The raw 64-bit entry.
    pub bits: u64,
}

/// The raw bits of an entry holding `ppn` and `flags`.
pub open spec fn spec_pte_bits(ppn: u64, flags: u8) -> u64 {
    (ppn << 10) | (flags as u64)
}

impl PageTableEntry {
    /// Physical page number field: bits 10-53.
    pub open spec fn spec_ppn(self) -> u64 {
        (self.bits >> 10) & 0xFFF_FFFF_FFFF
    }

    /// Flag field: bits 0-7.
    pub open spec fn spec_flags(self) -> u8 {
        (self.bits & 0xFF) as u8
    }

    /// Whether the valid bit is set.
    pub open spec fn spec_valid(self) -> bool {
        self.bits & 1 == 1
    }

    /// An entry translating to `ppn` with flag byte `flags`.
    pub fn new(ppn: PhysPageNum, flags: PTEFlags) -> (r: PageTableEntry)
        requires
            ppn.0 < PPN_LIMIT,
        ensures
            r.bits == spec_pte_bits(ppn.0, flags.bits),
            r.spec_ppn() == ppn.0,
            r.spec_flags() == flags.bits,
            r.spec_valid() <==> flags.bits & 1 == 1,
    {
        let bits: u64 = (ppn.0 << 10u64) | (flags.bits as u64);
        proof {
            lemma_pte_roundtrip(ppn.0, flags.bits);
        }
        PageTableEntry { bits }
    }

    /// The all-zero entry: invalid, used to clear slots.
    pub fn empty() -> (r: PageTableEntry)
        ensures
            r.bits == 0,
            !r.spec_valid(),
            r.spec_ppn() == 0,
            r.spec_flags() == 0,
    {
        proof {
            assert((0u64 >> 10) & 0xFFF_FFFF_FFFF == 0) by (bit_vector);
            assert(0u64 & 0xFF == 0) by (bit_vector);
            assert(0u64 & 1 == 0) by (bit_vector);
        }
        PageTableEntry { bits: 0 }
    }

    /// The physical page number this entry names.
    pub fn ppn(self) -> (r: PhysPageNum)
        ensures
            r.0 == self.spec_ppn(),
            r.0 < PPN_LIMIT,
    {
        proof {
            let b = self.bits;
            assert((b >> 10) & 0xFFF_FFFF_FFFF < 0x1000_0000_0000) by (bit_vector);
        }
        PhysPageNum((self.bits >> 10u64) & 0xFFF_FFFF_FFFF)
    }

    /// The flag byte of this entry.
    pub fn flags(self) -> (r: PTEFlags)
        ensures
            r.bits == self.spec_flags(),
    {
        PTEFlags { bits: (self.bits & 0xFF) as u8 }
    }

    /// Whether the entry is valid.
    pub fn is_valid(self) -> (r: bool)
        ensures
            r <==> self.spec_valid(),
    {
        proof {
            let b = self.bits;
            assert(b & 1 == 1 || b & 1 == 0) by (bit_vector);
        }
        self.bits & 1 == 1
    }

    /// Whether the entry permits reads.
    pub fn readable(self) -> (r: bool)
        ensures
            r <==> self.bits & (PTE_R as u64) == (PTE_R as u64),
    {
        self.bits & 0x2 == 0x2
    }

    /// Whether the entry permits writes.
    pub fn writable(self) -> (r: bool)
        ensures
            r <==> self.bits & (PTE_W as u64) == (PTE_W as u64),
    {
        self.bits & 0x4 == 0x4
    }

    /// Whether the entry permits execution.
    pub fn executable(self) -> (r: bool)
        ensures
            r <==> self.bits & (PTE_X as u64) == (PTE_X as u64),
    {
        self.bits & 0x8 == 0x8
    }
}

/// The SV39 field extraction inverts the entry construction exactly, and
/// construction is the page number shifted past the two reserved bits plus
/// the flag byte.
pub proof fn lemma_pte_roundtrip(ppn: u64, flags: u8)
    requires
        ppn < PPN_LIMIT,
    ensures
        (spec_pte_bits(ppn, flags) >> 10) & 0xFFF_FFFF_FFFF == ppn,
        (spec_pte_bits(ppn, flags) & 0xFF) as u8 == flags,
        spec_pte_bits(ppn, flags) & 1 == 1 <==> flags & 1 == 1,
        spec_pte_bits(ppn, flags) == ppn * 1024 + flags,
{
    assert(ppn < 0x1000_0000_0000 ==> ((((ppn << 10) | (flags as u64)) >> 10) & 0xFFF_FFFF_FFFF
        == ppn)) by (bit_vector);
    assert((((ppn << 10) | (flags as u64)) & 0xFF) as u8 == flags) by (bit_vector);
    assert(((ppn << 10) | (flags as u64)) & 1 == 1 <==> flags & 1 == 1) by (bit_vector);
    assert(ppn < 0x1000_0000_0000 ==> ((ppn << 10) | (flags as u64)) == ppn * 1024 + flags)
        by (bit_vector);
}

/// The 9-bit index group of `vpn` used at walk depth `depth` (0 at the
/// root, 2 at the leaf level).
pub open spec fn vpn_index(vpn: u64, depth: int) -> u64 {
    if depth == 0 {
        (vpn >> 18) & 0x1FF
    } else if depth == 1 {
        (vpn >> 9) & 0x1FF
    } else {
        vpn & 0x1FF
    }
}

/// Every index group is a valid slot number.
pub proof fn lemma_vpn_index_bound(vpn: u64, depth: int)
    ensures
        vpn_index(vpn, depth) < 512,
{
    assert((vpn >> 18) & 0x1FF < 512) by (bit_vector);
    assert((vpn >> 9) & 0x1FF < 512) by (bit_vector);
    assert(vpn & 0x1FF < 512) by (bit_vector);
}

/// Two in-range virtual page numbers with the same three index groups are
/// the same page: the walk path determines the page.
pub proof fn lemma_vpn_index_injective(v1: u64, v2: u64)
    requires
        v1 < VPN_LIMIT,
        v2 < VPN_LIMIT,
        vpn_index(v1, 0) == vpn_index(v2, 0),
        vpn_index(v1, 1) == vpn_index(v2, 1),
        vpn_index(v1, 2) == vpn_index(v2, 2),
    ensures
        v1 == v2,
{
    assert(v1 < 0x800_0000 && v2 < 0x800_0000 && (v1 >> 18) & 0x1FF == (v2 >> 18) & 0x1FF && (v1
        >> 9) & 0x1FF == (v2 >> 9) & 0x1FF && v1 & 0x1FF == v2 & 0x1FF ==> v1 == v2)
        by (bit_vector);
}

/// One node of the radix tree: the frame it lives in, its depth in the
/// tree, and its 512 entries.
pub struct PtNode {
    /// Physical frame holding this node.
    pub ppn: u64,
    /// Depth of the node: 0 for the root, 2 for leaf-level nodes.
    pub level: u64,
    /// The node's 512 entries.
    pub entries: Vec<PageTableEntry>,
}

/// Whether some node of `nodes` lives in frame `p`.
pub open spec fn has_node(nodes: Seq<PtNode>, p: u64) -> bool {
    exists|i: int| 0 <= i < nodes.len() && (#[trigger] nodes[i]).ppn == p
}

/// Index of the node living in frame `p`.
pub open spec fn node_idx(nodes: Seq<PtNode>, p: u64) -> int {
    choose|i: int| 0 <= i < nodes.len() && (#[trigger] nodes[i]).ppn == p
}

/// The node living in frame `p`.
pub open spec fn node_of(nodes: Seq<PtNode>, p: u64) -> PtNode {
    nodes[node_idx(nodes, p)]
}

/// Every node holds 512 entries, lives in a representable frame, and sits
/// at a real depth.
pub open spec fn nodes_wf(nodes: Seq<PtNode>) -> bool {
    forall|i: int| 0 <= i < nodes.len() ==> {
        &&& (#[trigger] nodes[i]).entries@.len() == 512
        &&& nodes[i].ppn < PPN_LIMIT
        &&& nodes[i].level <= 2
    }
}

/// No two nodes share a frame.
pub open spec fn uniq(nodes: Seq<PtNode>) -> bool {
    forall|i: int, j: int|
        0 <= i < j < nodes.len() ==> (#[trigger] nodes[i]).ppn != (#[trigger] nodes[j]).ppn
}

/// Slot `k` of node `i` is an interior slot holding a valid entry.
pub open spec fn is_interior_slot(nodes: Seq<PtNode>, i: int, k: int) -> bool {
    &&& 0 <= i < nodes.len()
    &&& nodes[i].level < 2
    &&& 0 <= k < nodes[i].entries@.len()
    &&& nodes[i].entries@[k].spec_valid()
}

/// The child named by interior slot `(i, k)` exists one level down.
pub open spec fn child_ok(nodes: Seq<PtNode>, i: int, k: int) -> bool {
    let c = nodes[i].entries@[k].spec_ppn();
    &&& has_node(nodes, c)
    &&& node_of(nodes, c).level == nodes[i].level + 1
}

/// Every valid interior entry points at an existing node one level down.
pub open spec fn closed(nodes: Seq<PtNode>) -> bool {
    forall|i: int, k: int| #[trigger] is_interior_slot(nodes, i, k) ==> child_ok(nodes, i, k)
}

/// Distinct interior slots name distinct children: the tree really is a
/// tree.
pub open spec fn inj(nodes: Seq<PtNode>) -> bool {
    forall|i1: int, k1: int, i2: int, k2: int|
        #[trigger] is_interior_slot(nodes, i1, k1) && #[trigger] is_interior_slot(nodes, i2, k2)
            && !(i1 == i2 && k1 == k2) ==> nodes[i1].entries@[k1].spec_ppn()
            != nodes[i2].entries@[k2].spec_ppn()
}

/// The frame of the level-2 node reached from node `p` (at depth `depth`)
/// for `vpn`, following only valid interior entries.
pub open spec fn leaf_of(nodes: Seq<PtNode>, p: u64, vpn: u64, depth: int) -> Option<u64>
    decreases 2 - depth,
{
    if depth < 0 || depth > 2 {
        None
    } else if !has_node(nodes, p) {
        None
    } else if depth == 2 {
        Some(p)
    } else {
        let nd = node_of(nodes, p);
        if vpn_index(vpn, depth) >= nd.entries@.len() {
            None
        } else {
            let e = nd.entries@[vpn_index(vpn, depth) as int];
            if e.spec_valid() {
                leaf_of(nodes, e.spec_ppn(), vpn, depth + 1)
            } else {
                None
            }
        }
    }
}

/// Result of the full walk from node `p`: the leaf entry, if the path and
/// the leaf entry are valid.
pub open spec fn xlat_from(nodes: Seq<PtNode>, p: u64, vpn: u64, depth: int) -> Option<
    PageTableEntry,
> {
    match leaf_of(nodes, p, vpn, depth) {
        None => None,
        Some(lp) => {
            let nd = node_of(nodes, lp);
            if vpn_index(vpn, 2) >= nd.entries@.len() {
                None
            } else {
                let e = nd.entries@[vpn_index(vpn, 2) as int];
                if e.spec_valid() {
                    Some(e)
                } else {
                    None
                }
            }
        },
    }
}

/// An index that holds a node with frame `p` pins down `node_idx`.
pub proof fn lemma_node_idx(nodes: Seq<PtNode>, p: u64, i: int)
    requires
        uniq(nodes),
        0 <= i < nodes.len(),
        nodes[i].ppn == p,
    ensures
        has_node(nodes, p),
        node_idx(nodes, p) == i,
        node_of(nodes, p) == nodes[i],
{
    assert(has_node(nodes, p));
    let j = node_idx(nodes, p);
    assert(0 <= j < nodes.len() && nodes[j].ppn == p);
    if i < j {
        assert(nodes[i].ppn != nodes[j].ppn);
    } else if j < i {
        assert(nodes[j].ppn != nodes[i].ppn);
    }
}

} // verus!

verus! {

/// After a create step (fresh child appended, one invalid interior slot
/// made valid), the node list still satisfies every structural clause.
pub proof fn lemma_wf_create_step(
    nodes: Seq<PtNode>,
    nodes2: Seq<PtNode>,
    qi: int,
    k: int,
    fresh_ppn: u64,
    pte: PageTableEntry,
)
    requires
        nodes_wf(nodes),
        uniq(nodes),
        closed(nodes),
        inj(nodes),
        0 <= qi < nodes.len(),
        nodes[qi].level < 2,
        0 <= k < 512,
        !nodes[qi].entries@[k].spec_valid(),
        fresh_ppn < PPN_LIMIT,
        !has_node(nodes, fresh_ppn),
        nodes2.len() == nodes.len() + 1,
        nodes2[nodes.len() as int].ppn == fresh_ppn,
        nodes2[nodes.len() as int].level == nodes[qi].level + 1,
        nodes2[nodes.len() as int].entries@.len() == 512,
        forall|m: int|
            0 <= m < 512 ==> !(#[trigger] nodes2[nodes.len() as int].entries@[m]).spec_valid(),
        forall|i: int| 0 <= i < nodes.len() && i != qi ==> nodes2[i] == nodes[i],
        nodes2[qi].ppn == nodes[qi].ppn,
        nodes2[qi].level == nodes[qi].level,
        nodes2[qi].entries@ == nodes[qi].entries@.update(k, pte),
        pte.spec_valid(),
        pte.spec_ppn() == fresh_ppn,
    ensures
        nodes_wf(nodes2),
        uniq(nodes2),
        closed(nodes2),
        inj(nodes2),
        forall|q: u64| has_node(nodes, q) ==> has_node(nodes2, q),
        has_node(nodes2, fresh_ppn),
{
    let ln = nodes.len() as int;
    assert(nodes_wf(nodes2)) by {
        assert forall|i: int| 0 <= i < nodes2.len() implies {
            &&& (#[trigger] nodes2[i]).entries@.len() == 512
            &&& nodes2[i].ppn < PPN_LIMIT
            &&& nodes2[i].level <= 2
        } by {
            if i < ln {
                assert(nodes[i].entries@.len() == 512 && nodes[i].ppn < PPN_LIMIT
                    && nodes[i].level <= 2);
            }
        }
    }
    assert(uniq(nodes2)) by {
        assert forall|i: int, j: int| 0 <= i < j < nodes2.len() implies (#[trigger] nodes2[i]).ppn
            != (#[trigger] nodes2[j]).ppn by {
            if j < ln {
                assert(nodes[i].ppn != nodes[j].ppn);
                assert(nodes2[i].ppn == nodes[i].ppn && nodes2[j].ppn == nodes[j].ppn);
            } else {
                assert(nodes2[j].ppn == fresh_ppn);
                assert(nodes2[i].ppn == nodes[i].ppn);
                if nodes[i].ppn == fresh_ppn {
                    assert(has_node(nodes, fresh_ppn));
                }
            }
        }
    }
    assert forall|q: u64| has_node(nodes, q) implies has_node(nodes2, q) by {
        let i = choose|i: int| 0 <= i < nodes.len() && (#[trigger] nodes[i]).ppn == q;
        assert(nodes2[i].ppn == q);
    }
    assert(has_node(nodes2, fresh_ppn)) by {
        assert(nodes2[ln].ppn == fresh_ppn);
    }
    // every old node keeps its ppn and level at the same index, and the
    // fresh node sits at the end: node_of lookups stay put.
    assert(closed(nodes2)) by {
        assert forall|i: int, k2: int| #[trigger] is_interior_slot(nodes2, i, k2) implies child_ok(
            nodes2,
            i,
            k2,
        ) by {
            if i == ln {
                assert(!nodes2[ln].entries@[k2].spec_valid());
            } else if i == qi && k2 == k {
                let c = nodes2[qi].entries@[k].spec_ppn();
                assert(c == fresh_ppn);
                lemma_node_idx(nodes2, fresh_ppn, ln);
                assert(node_of(nodes2, fresh_ppn).level == nodes2[qi].level + 1);
            } else {
                assert(nodes2[i].entries@[k2] == nodes[i].entries@[k2]);
                assert(is_interior_slot(nodes, i, k2));
                assert(child_ok(nodes, i, k2));
                let c = nodes[i].entries@[k2].spec_ppn();
                let ic = node_idx(nodes, c);
                assert(0 <= ic < nodes.len() && nodes[ic].ppn == c);
                lemma_node_idx(nodes2, c, ic);
                assert(node_of(nodes2, c).level == nodes2[ic].level);
                assert(nodes2[ic].level == nodes[ic].level);
                lemma_node_idx(nodes, c, ic);
            }
        }
    }
    assert(inj(nodes2)) by {
        assert forall|i1: int, k1: int, i2: int, k2: int|
            #[trigger] is_interior_slot(nodes2, i1, k1) && #[trigger] is_interior_slot(
                nodes2,
                i2,
                k2,
            ) && !(i1 == i2 && k1 == k2) implies nodes2[i1].entries@[k1].spec_ppn()
            != nodes2[i2].entries@[k2].spec_ppn() by {
            // a slot of nodes2 is either the freshly-written one, whose
            // child is the fresh frame, or an old slot with its old child,
            // which is an existing node's frame.
            if i1 != ln && i2 != ln {
                let c1_new = i1 == qi && k1 == k;
                let c2_new = i2 == qi && k2 == k;
                if c1_new && !c2_new {
                    assert(nodes2[i2].entries@[k2] == nodes[i2].entries@[k2]);
                    assert(is_interior_slot(nodes, i2, k2));
                    assert(child_ok(nodes, i2, k2));
                    assert(has_node(nodes, nodes[i2].entries@[k2].spec_ppn()));
                } else if !c1_new && c2_new {
                    assert(nodes2[i1].entries@[k1] == nodes[i1].entries@[k1]);
                    assert(is_interior_slot(nodes, i1, k1));
                    assert(child_ok(nodes, i1, k1));
                    assert(has_node(nodes, nodes[i1].entries@[k1].spec_ppn()));
                } else if !c1_new && !c2_new {
                    assert(nodes2[i1].entries@[k1] == nodes[i1].entries@[k1]);
                    assert(nodes2[i2].entries@[k2] == nodes[i2].entries@[k2]);
                    assert(is_interior_slot(nodes, i1, k1));
                    assert(is_interior_slot(nodes, i2, k2));
                }
            } else {
                if i1 == ln {
                    assert(!nodes2[ln].entries@[k1].spec_valid());
                }
                if i2 == ln {
                    assert(!nodes2[ln].entries@[k2].spec_valid());
                }
            }
        }
    }
}

/// A create step changes no translation result: the fresh subtree is
/// entirely invalid, so every walk that newly reaches it still fails.
pub proof fn lemma_xlat_create_step(
    nodes: Seq<PtNode>,
    nodes2: Seq<PtNode>,
    qi: int,
    k: int,
    fresh_ppn: u64,
    pte: PageTableEntry,
    p: u64,
    vpn2: u64,
    depth: int,
)
    requires
        nodes_wf(nodes),
        uniq(nodes),
        closed(nodes),
        uniq(nodes2),
        0 <= qi < nodes.len(),
        nodes[qi].level < 2,
        0 <= k < 512,
        !nodes[qi].entries@[k].spec_valid(),
        !has_node(nodes, fresh_ppn),
        nodes2.len() == nodes.len() + 1,
        nodes2[nodes.len() as int].ppn == fresh_ppn,
        nodes2[nodes.len() as int].level == nodes[qi].level + 1,
        nodes2[nodes.len() as int].entries@.len() == 512,
        forall|m: int|
            0 <= m < 512 ==> !(#[trigger] nodes2[nodes.len() as int].entries@[m]).spec_valid(),
        forall|i: int| 0 <= i < nodes.len() && i != qi ==> nodes2[i] == nodes[i],
        nodes2[qi].ppn == nodes[qi].ppn,
        nodes2[qi].level == nodes[qi].level,
        nodes2[qi].entries@ == nodes[qi].entries@.update(k, pte),
        pte.spec_valid(),
        pte.spec_ppn() == fresh_ppn,
        has_node(nodes, p),
        node_of(nodes, p).level == depth,
        0 <= depth <= 2,
    ensures
        xlat_from(nodes2, p, vpn2, depth) == xlat_from(nodes, p, vpn2, depth),
    decreases 2 - depth,
{
    let ln = nodes.len() as int;
    let ip = node_idx(nodes, p);
    assert(0 <= ip < nodes.len() && nodes[ip].ppn == p);
    lemma_node_idx(nodes, p, ip);
    lemma_node_idx(nodes2, p, ip);
    lemma_vpn_index_bound(vpn2, depth);
    if depth == 2 {
        // the node at p is a leaf-level node, hence not the updated
        // interior node; its entries are untouched.
        assert(ip != qi);
        assert(nodes2[ip] == nodes[ip]);
        assert(leaf_of(nodes, p, vpn2, 2) == Some(p));
        assert(leaf_of(nodes2, p, vpn2, 2) == Some(p));
    } else {
        let ki = vpn_index(vpn2, depth) as int;
        if ip == qi && ki == k {
            // the written slot: formerly invalid, now leads into the
            // all-invalid fresh subtree.
            assert(!nodes[qi].entries@[k].spec_valid());
            assert(leaf_of(nodes, p, vpn2, depth) is None);
            assert(nodes2[qi].entries@[ki] == pte);
            lemma_node_idx(nodes2, fresh_ppn, ln);
            if depth == 1 {
                assert(leaf_of(nodes2, p, vpn2, depth) == Some(fresh_ppn));
                assert(!node_of(nodes2, fresh_ppn).entries@[vpn_index(vpn2, 2) as int]
                    .spec_valid()) by {
                    lemma_vpn_index_bound(vpn2, 2);
                }
                assert(xlat_from(nodes2, p, vpn2, depth) is None);
            } else {
                // depth 0: the fresh node is a level-1 interior node whose
                // entries are all invalid, so the walk dies one step later.
                assert(leaf_of(nodes2, p, vpn2, depth) == leaf_of(nodes2, fresh_ppn, vpn2, 1));
                lemma_vpn_index_bound(vpn2, 1);
                assert(!node_of(nodes2, fresh_ppn).entries@[vpn_index(vpn2, 1) as int]
                    .spec_valid());
                assert(leaf_of(nodes2, fresh_ppn, vpn2, 1) is None);
            }
        } else {
            let e = nodes[ip].entries@[ki];
            assert(nodes2[ip].entries@[ki] == e);
            if !e.spec_valid() {
                assert(leaf_of(nodes, p, vpn2, depth) is None);
                assert(leaf_of(nodes2, p, vpn2, depth) is None);
            } else {
                assert(is_interior_slot(nodes, ip, ki));
                assert(child_ok(nodes, ip, ki));
                let c = e.spec_ppn();
                assert(leaf_of(nodes, p, vpn2, depth) == leaf_of(nodes, c, vpn2, depth + 1));
                assert(leaf_of(nodes2, p, vpn2, depth) == leaf_of(nodes2, c, vpn2, depth + 1));
                assert(node_of(nodes, c).level == depth + 1);
                lemma_xlat_create_step(
                    nodes,
                    nodes2,
                    qi,
                    k,
                    fresh_ppn,
                    pte,
                    c,
                    vpn2,
                    depth + 1,
                );
                assert(xlat_from(nodes, p, vpn2, depth) == xlat_from(nodes, c, vpn2, depth + 1));
                assert(xlat_from(nodes2, p, vpn2, depth) == xlat_from(nodes2, c, vpn2, depth + 1));
            }
        }
    }
}

} // verus!

verus! {

/// Rewriting one slot of a leaf-level node leaves every structural clause
/// intact: interior slots are untouched.
pub proof fn lemma_wf_leaf_step(
    nodes: Seq<PtNode>,
    nodes2: Seq<PtNode>,
    qi: int,
    k: int,
    pte: PageTableEntry,
)
    requires
        nodes_wf(nodes),
        uniq(nodes),
        closed(nodes),
        inj(nodes),
        0 <= qi < nodes.len(),
        nodes[qi].level == 2,
        0 <= k < 512,
        nodes2.len() == nodes.len(),
        forall|i: int| 0 <= i < nodes.len() && i != qi ==> nodes2[i] == nodes[i],
        nodes2[qi].ppn == nodes[qi].ppn,
        nodes2[qi].level == nodes[qi].level,
        nodes2[qi].entries@ == nodes[qi].entries@.update(k, pte),
    ensures
        nodes_wf(nodes2),
        uniq(nodes2),
        closed(nodes2),
        inj(nodes2),
        forall|q: u64| has_node(nodes, q) <==> has_node(nodes2, q),
{
    assert(nodes_wf(nodes2)) by {
        assert forall|i: int| 0 <= i < nodes2.len() implies {
            &&& (#[trigger] nodes2[i]).entries@.len() == 512
            &&& nodes2[i].ppn < PPN_LIMIT
            &&& nodes2[i].level <= 2
        } by {
            assert(nodes[i].entries@.len() == 512 && nodes[i].ppn < PPN_LIMIT && nodes[i].level
                <= 2);
        }
    }
    assert(uniq(nodes2)) by {
        assert forall|i: int, j: int| 0 <= i < j < nodes2.len() implies (#[trigger] nodes2[i]).ppn
            != (#[trigger] nodes2[j]).ppn by {
            assert(nodes[i].ppn != nodes[j].ppn);
            assert(nodes2[i].ppn == nodes[i].ppn && nodes2[j].ppn == nodes[j].ppn);
        }
    }
    assert forall|q: u64| has_node(nodes, q) <==> has_node(nodes2, q) by {
        if has_node(nodes, q) {
            let i = choose|i: int| 0 <= i < nodes.len() && (#[trigger] nodes[i]).ppn == q;
            assert(nodes2[i].ppn == q);
        }
        if has_node(nodes2, q) {
            let i = choose|i: int| 0 <= i < nodes2.len() && (#[trigger] nodes2[i]).ppn == q;
            assert(nodes[i].ppn == q);
        }
    }
    assert(closed(nodes2)) by {
        assert forall|i: int, k2: int| #[trigger] is_interior_slot(nodes2, i, k2) implies child_ok(
            nodes2,
            i,
            k2,
        ) by {
            assert(i != qi);
            assert(nodes2[i] == nodes[i]);
            assert(is_interior_slot(nodes, i, k2));
            assert(child_ok(nodes, i, k2));
            let c = nodes[i].entries@[k2].spec_ppn();
            let ic = node_idx(nodes, c);
            assert(0 <= ic < nodes.len() && nodes[ic].ppn == c);
            lemma_node_idx(nodes2, c, ic);
            assert(nodes2[ic].level == nodes[ic].level);
            lemma_node_idx(nodes, c, ic);
        }
    }
    assert(inj(nodes2)) by {
        assert forall|i1: int, k1: int, i2: int, k2: int|
            #[trigger] is_interior_slot(nodes2, i1, k1) && #[trigger] is_interior_slot(
                nodes2,
                i2,
                k2,
            ) && !(i1 == i2 && k1 == k2) implies nodes2[i1].entries@[k1].spec_ppn()
            != nodes2[i2].entries@[k2].spec_ppn() by {
            assert(i1 != qi && i2 != qi);
            assert(is_interior_slot(nodes, i1, k1));
            assert(is_interior_slot(nodes, i2, k2));
        }
    }
}

/// Rewriting one slot of a leaf-level node changes the translation of
/// exactly the walks that end in that slot, and to exactly the written
/// entry; every other walk is untouched.
pub proof fn lemma_xlat_leaf_step(
    nodes: Seq<PtNode>,
    nodes2: Seq<PtNode>,
    qi: int,
    k: int,
    pte: PageTableEntry,
    p: u64,
    vpn2: u64,
    depth: int,
)
    requires
        nodes_wf(nodes),
        uniq(nodes),
        closed(nodes),
        0 <= qi < nodes.len(),
        nodes[qi].level == 2,
        0 <= k < 512,
        nodes2.len() == nodes.len(),
        forall|i: int| 0 <= i < nodes.len() && i != qi ==> nodes2[i] == nodes[i],
        nodes2[qi].ppn == nodes[qi].ppn,
        nodes2[qi].level == nodes[qi].level,
        nodes2[qi].entries@ == nodes[qi].entries@.update(k, pte),
        has_node(nodes, p),
        node_of(nodes, p).level == depth,
        0 <= depth <= 2,
    ensures
        leaf_of(nodes2, p, vpn2, depth) == leaf_of(nodes, p, vpn2, depth),
        leaf_of(nodes, p, vpn2, depth) == Some(nodes[qi].ppn) && vpn_index(vpn2, 2) == k
            ==> xlat_from(nodes2, p, vpn2, depth) == (if pte.spec_valid() {
            Some(pte)
        } else {
            Option::<PageTableEntry>::None
        }),
        !(leaf_of(nodes, p, vpn2, depth) == Some(nodes[qi].ppn) && vpn_index(vpn2, 2) == k)
            ==> xlat_from(nodes2, p, vpn2, depth) == xlat_from(nodes, p, vpn2, depth),
    decreases 2 - depth,
{
    let ip = node_idx(nodes, p);
    assert(0 <= ip < nodes.len() && nodes[ip].ppn == p);
    lemma_node_idx(nodes, p, ip);
    assert(uniq(nodes2)) by {
        assert forall|i: int, j: int| 0 <= i < j < nodes2.len() implies (#[trigger] nodes2[i]).ppn
            != (#[trigger] nodes2[j]).ppn by {
            assert(nodes[i].ppn != nodes[j].ppn);
            assert(nodes2[i].ppn == nodes[i].ppn && nodes2[j].ppn == nodes[j].ppn);
        }
    }
    lemma_node_idx(nodes2, p, ip);
    lemma_vpn_index_bound(vpn2, depth);
    lemma_vpn_index_bound(vpn2, 2);
    if depth == 2 {
        assert(leaf_of(nodes, p, vpn2, 2) == Some(p));
        assert(leaf_of(nodes2, p, vpn2, 2) == Some(p));
        let ki2 = vpn_index(vpn2, 2) as int;
        if p == nodes[qi].ppn {
            lemma_node_idx(nodes, p, qi);
            assert(ip == qi);
            if ki2 == k {
                assert(nodes2[qi].entries@[ki2] == pte);
            } else {
                assert(nodes2[qi].entries@[ki2] == nodes[qi].entries@[ki2]);
            }
        } else {
            assert(ip != qi);
            assert(nodes2[ip] == nodes[ip]);
        }
    } else {
        assert(ip != qi);
        assert(nodes2[ip] == nodes[ip]);
        let ki = vpn_index(vpn2, depth) as int;
        let e = nodes[ip].entries@[ki];
        if !e.spec_valid() {
            assert(leaf_of(nodes, p, vpn2, depth) is None);
            assert(leaf_of(nodes2, p, vpn2, depth) is None);
        } else {
            assert(is_interior_slot(nodes, ip, ki));
            assert(child_ok(nodes, ip, ki));
            let c = e.spec_ppn();
            assert(node_of(nodes, c).level == depth + 1);
            lemma_xlat_leaf_step(nodes, nodes2, qi, k, pte, c, vpn2, depth + 1);
            assert(leaf_of(nodes, p, vpn2, depth) == leaf_of(nodes, c, vpn2, depth + 1));
            assert(leaf_of(nodes2, p, vpn2, depth) == leaf_of(nodes2, c, vpn2, depth + 1));
            assert(xlat_from(nodes, p, vpn2, depth) == xlat_from(nodes, c, vpn2, depth + 1));
            assert(xlat_from(nodes2, p, vpn2, depth) == xlat_from(nodes2, c, vpn2, depth + 1));
        }
    }
}

/// Two walks that end in the same leaf node with the same leaf slot come
/// from the same virtual page: the tree shape makes the path injective.
pub proof fn lemma_path_injective(nodes: Seq<PtNode>, root: u64, v1: u64, v2: u64, lp: u64)
    requires
        nodes_wf(nodes),
        uniq(nodes),
        closed(nodes),
        inj(nodes),
        has_node(nodes, root),
        node_of(nodes, root).level == 0,
        v1 < VPN_LIMIT,
        v2 < VPN_LIMIT,
        leaf_of(nodes, root, v1, 0) == Some(lp),
        leaf_of(nodes, root, v2, 0) == Some(lp),
        vpn_index(v1, 2) == vpn_index(v2, 2),
    ensures
        v1 == v2,
{
    let ir = node_idx(nodes, root);
    lemma_node_idx(nodes, root, ir);
    lemma_vpn_index_bound(v1, 0);
    lemma_vpn_index_bound(v2, 0);
    lemma_vpn_index_bound(v1, 1);
    lemma_vpn_index_bound(v2, 1);
    let k01 = vpn_index(v1, 0) as int;
    let k02 = vpn_index(v2, 0) as int;
    let e01 = nodes[ir].entries@[k01];
    let e02 = nodes[ir].entries@[k02];
    assert(e01.spec_valid());
    assert(e02.spec_valid());
    let c1 = e01.spec_ppn();
    let c2 = e02.spec_ppn();
    assert(is_interior_slot(nodes, ir, k01));
    assert(is_interior_slot(nodes, ir, k02));
    assert(child_ok(nodes, ir, k01));
    assert(child_ok(nodes, ir, k02));
    let ic1 = node_idx(nodes, c1);
    let ic2 = node_idx(nodes, c2);
    lemma_node_idx(nodes, c1, ic1);
    lemma_node_idx(nodes, c2, ic2);
    let k11 = vpn_index(v1, 1) as int;
    let k12 = vpn_index(v2, 1) as int;
    let e11 = nodes[ic1].entries@[k11];
    let e12 = nodes[ic2].entries@[k12];
    assert(leaf_of(nodes, c1, v1, 1) == Some(lp));
    assert(leaf_of(nodes, c2, v2, 1) == Some(lp));
    assert(e11.spec_valid());
    assert(e12.spec_valid());
    assert(leaf_of(nodes, c1, v1, 1) == leaf_of(nodes, e11.spec_ppn(), v1, 2));
    assert(leaf_of(nodes, c2, v2, 1) == leaf_of(nodes, e12.spec_ppn(), v2, 2));
    assert(leaf_of(nodes, e11.spec_ppn(), v1, 2) == Some(lp));
    assert(leaf_of(nodes, e12.spec_ppn(), v2, 2) == Some(lp));
    assert(e11.spec_ppn() == lp);
    assert(e12.spec_ppn() == lp);
    assert(is_interior_slot(nodes, ic1, k11));
    assert(is_interior_slot(nodes, ic2, k12));
    // same child frame from two interior slots: they are the same slot
    if !(ic1 == ic2 && k11 == k12) {
        assert(nodes[ic1].entries@[k11].spec_ppn() != nodes[ic2].entries@[k12].spec_ppn());
        assert(false);
    }
    assert(c1 == c2);
    if !(ir == ir && k01 == k02) {
        assert(nodes[ir].entries@[k01].spec_ppn() != nodes[ir].entries@[k02].spec_ppn());
        assert(false);
    }
    lemma_vpn_index_injective(v1, v2);
}

} // verus!

verus! {

impl PtNode {
    /// Overwrite one entry slot of this node.
    pub fn set_entry(&mut self, k: usize, e: PageTableEntry)
        requires
            k < old(self).entries@.len(),
        ensures
            final(self).ppn == old(self).ppn,
            final(self).level == old(self).level,
            final(self).entries@ == old(self).entries@.update(k as int, e),
    {
        self.entries[k] = e;
    }
}

/// A node's worth of all-invalid entries.
fn zero_entries() -> (v: Vec<PageTableEntry>)
    ensures
        v@.len() == 512,
        forall|m: int| 0 <= m < 512 ==> !(#[trigger] v@[m]).spec_valid() && v@[m].bits == 0,
{
    let mut v: Vec<PageTableEntry> = Vec::new();
    let zero = PageTableEntry::empty();
    let mut i: usize = 0;
    while i < 512
        invariant
            i <= 512,
            v@.len() == i,
            !zero.spec_valid() && zero.bits == 0,
            forall|m: int| 0 <= m < i ==> !(#[trigger] v@[m]).spec_valid() && v@[m].bits == 0,
        decreases 512 - i,
    {
        v.push(zero);
        i = i + 1;
    }
    v
}

/// An SV39 page table. An owning table holds, besides its root, the frame
/// trackers of every node frame it allocated; a non-owning view built from
/// a token holds a root page number and nothing else.
pub struct PageTable {
    /// Frame of the level-0 (root) node.
    pub root_ppn: u64,
    /// The nodes of the radix tree, in allocation order.
    pub nodes: Vec<PtNode>,
    /// Ownership handles for the node frames, parallel to `nodes`.
    pub frames: Vec<FrameTracker>,
}

impl PageTable {
    /// Structural invariant of an owning table: a well-formed radix tree
    /// rooted in an existing level-0 node, owning one frame per node.
    pub open spec fn wf(self) -> bool {
        &&& nodes_wf(self.nodes@)
        &&& uniq(self.nodes@)
        &&& closed(self.nodes@)
        &&& inj(self.nodes@)
        &&& self.root_ppn < PPN_LIMIT
        &&& has_node(self.nodes@, self.root_ppn)
        &&& node_of(self.nodes@, self.root_ppn).level == 0
        &&& self.frames@.len() == self.nodes@.len()
        &&& forall|i: int|
            0 <= i < self.nodes@.len() ==> (#[trigger] self.frames@[i]).ppn.0
                == self.nodes@[i].ppn
    }

    /// Every node frame of this table is currently allocated in `fa`.
    pub open spec fn frames_allocated(self, fa: StackFrameAllocator) -> bool {
        forall|i: int|
            0 <= i < self.nodes@.len() ==> fa.allocated((#[trigger] self.nodes@[i]).ppn)
    }

    /// The leaf entry reached by walking `vpn` from the root, if the walk
    /// and the entry are valid.
    pub open spec fn translate_spec(self, vpn: u64) -> Option<PageTableEntry> {
        xlat_from(self.nodes@, self.root_ppn, vpn, 0)
    }

    /// The hardware translation-base value for this table: the SV39 mode
    /// selector in the top bits, the root frame in the low bits.
    pub open spec fn spec_token(self) -> u64 {
        (SATP_MODE_SV39 << 60) | self.root_ppn
    }

    /// Index of the node living in frame `p`, if any.
    fn find_node_idx(&self, p: u64) -> (r: Option<usize>)
        ensures
            r matches Some(i) ==> i < self.nodes@.len() && self.nodes@[i as int].ppn == p,
            r is None ==> !has_node(self.nodes@, p),
    {
        let mut i: usize = 0;
        while i < self.nodes.len()
            invariant
                i <= self.nodes@.len(),
                forall|j: int| 0 <= j < i ==> (#[trigger] self.nodes@[j]).ppn != p,
            decreases self.nodes@.len() - i,
        {
            if self.nodes[i].ppn == p {
                return Some(i);
            }
            i = i + 1;
        }
        None
    }

    /// The 9-bit slot index of `vpn` at walk depth `depth`.
    fn index_part(vpn: u64, depth: u64) -> (r: usize)
        requires
            depth <= 2,
        ensures
            r == vpn_index(vpn, depth as int),
            r < 512,
    {
        proof {
            lemma_vpn_index_bound(vpn, depth as int);
        }
        let x: u64 = if depth == 0 {
            (vpn >> 18u64) & 0x1FF
        } else if depth == 1 {
            (vpn >> 9u64) & 0x1FF
        } else {
            vpn & 0x1FF
        };
        x as usize
    }

    /// A fresh table with an empty root node and no mappings.
    pub fn new_bare(fa: &mut StackFrameAllocator) -> (pt: PageTable)
        requires
            old(fa).wf(),
            old(fa).free_count() >= 1,
        ensures
            pt.wf(),
            final(fa).wf(),
            pt.frames_allocated(*final(fa)),
            final(fa).start == old(fa).start,
            final(fa).end == old(fa).end,
            final(fa).free_count() == old(fa).free_count() - 1,
            forall|q: u64| old(fa).allocated(q) ==> final(fa).allocated(q),
            forall|vpn: u64| pt.translate_spec(vpn) is None,
            pt.nodes@.len() == 1,
    {
        let ft = match fa.alloc_frame() {
            Some(ft) => ft,
            None => {
                proof {
                    assert(false);
                }
                vstd::pervasive::unreached()
            },
        };
        let root = ft.ppn.0;
        let ents = zero_entries();
        let mut nodes: Vec<PtNode> = Vec::new();
        nodes.push(PtNode { ppn: root, level: 0, entries: ents });
        let mut frames: Vec<FrameTracker> = Vec::new();
        frames.push(ft);
        let pt = PageTable { root_ppn: root, nodes, frames };
        proof {
            lemma_node_idx(pt.nodes@, root, 0);
            assert forall|i: int, k: int| #[trigger]
                is_interior_slot(pt.nodes@, i, k) implies child_ok(pt.nodes@, i, k) by {
                assert(!pt.nodes@[0].entries@[k].spec_valid());
            }
            assert forall|vpn: u64| pt.translate_spec(vpn) is None by {
                lemma_vpn_index_bound(vpn, 0);
                assert(!pt.nodes@[0].entries@[vpn_index(vpn, 0) as int].spec_valid());
                assert(leaf_of(pt.nodes@, root, vpn, 0) is None);
            }
        }
        pt
    }

    /// Make sure slot `ki` of the interior node in frame `p` names a
    /// child node, allocating a zeroed child frame if the slot is invalid;
    /// returns the child's frame. No translation result changes.
    fn ensure_child(
        &mut self,
        fa: &mut StackFrameAllocator,
        p: u64,
        ki: usize,
        lv: Ghost<u64>,
    ) -> (c: u64)
        requires
            old(self).wf(),
            old(fa).wf(),
            old(self).frames_allocated(*old(fa)),
            has_node(old(self).nodes@, p),
            node_of(old(self).nodes@, p).level == lv@,
            lv@ < 2,
            ki < 512,
            node_of(old(self).nodes@, p).entries@[ki as int].spec_valid() || old(
                fa,
            ).free_count() >= 1,
        ensures
            node_of(old(self).nodes@, p).entries@[ki as int].spec_valid() ==> *final(self) == *old(
                self,
            ) && *final(fa) == *old(fa),
            final(self).wf(),
            final(fa).wf(),
            final(self).frames_allocated(*final(fa)),
            final(self).root_ppn == old(self).root_ppn,
            final(self).nodes@.len() >= old(self).nodes@.len(),
            forall|i: int|
                0 <= i < old(self).nodes@.len() ==> (#[trigger] final(self).nodes@[i]).ppn == old(
                    self,
                ).nodes@[i].ppn,
            forall|i: int|
                old(self).nodes@.len() <= i < final(self).nodes@.len() ==> !old(fa).allocated(
                    (#[trigger] final(self).nodes@[i]).ppn,
                ),
            final(fa).start == old(fa).start,
            final(fa).end == old(fa).end,
            final(fa).free_count() >= old(fa).free_count() - 1,
            forall|q: u64| old(fa).allocated(q) ==> final(fa).allocated(q),
            forall|q: u64|
                has_node(old(self).nodes@, q) ==> has_node(final(self).nodes@, q) && node_of(
                    final(self).nodes@,
                    q,
                ).level == node_of(old(self).nodes@, q).level,
            forall|q: u64|
                has_node(old(self).nodes@, q) && q != p ==> node_of(final(self).nodes@, q).entries@
                    == node_of(old(self).nodes@, q).entries@,
            has_node(final(self).nodes@, c),
            node_of(final(self).nodes@, c).level == lv@ + 1,
            node_of(final(self).nodes@, p).entries@[ki as int].spec_valid(),
            node_of(final(self).nodes@, p).entries@[ki as int].spec_ppn() == c,
            forall|m: int|
                0 <= m < 512 && m != ki ==> node_of(final(self).nodes@, p).entries@[m] == node_of(
                    old(self).nodes@,
                    p,
                ).entries@[m],
            forall|vpn2: u64| final(self).translate_spec(vpn2) == old(self).translate_spec(vpn2),
    {
        let ip = match self.find_node_idx(p) {
            Some(i) => i,
            None => {
                proof {
                    assert(false);
                }
                vstd::pervasive::unreached()
            },
        };
        proof {
            lemma_node_idx(self.nodes@, p, ip as int);
        }
        let e = self.nodes[ip].entries[ki];
        if e.is_valid() {
            proof {
                assert(is_interior_slot(self.nodes@, ip as int, ki as int));
                assert(child_ok(self.nodes@, ip as int, ki as int));
            }
            e.ppn().0
        } else {
            let ft = match fa.alloc_frame() {
                Some(ft) => ft,
                None => {
                    proof {
                        assert(false);
                    }
                    vstd::pervasive::unreached()
                },
            };
            let fresh_p = ft.ppn.0;
            proof {
                assert(!has_node(self.nodes@, fresh_p)) by {
                    if has_node(self.nodes@, fresh_p) {
                        let i = choose|i: int|
                            0 <= i < self.nodes@.len() && (#[trigger] self.nodes@[i]).ppn
                                == fresh_p;
                        assert(old(fa).allocated(self.nodes@[i].ppn));
                    }
                }
            }
            let lvl = self.nodes[ip].level;
            let ents = zero_entries();
            self.nodes.push(PtNode { ppn: fresh_p, level: lvl + 1, entries: ents });
            self.frames.push(ft);
            let pte = PageTableEntry::new(PhysPageNum(fresh_p), PTEFlags::from_bits(PTE_V));
            proof {
                assert(PTE_V & 1 == 1) by (bit_vector);
                assert(pte.spec_valid());
            }
            let ghost mid_nodes = old(self).nodes@.push(
                PtNode { ppn: fresh_p, level: (lvl + 1) as u64, entries: ents },
            );
            self.nodes[ip].set_entry(ki, pte);
            proof {
                let on = old(self).nodes@;
                let nn = self.nodes@;
                let ln = on.len() as int;
                assert(nn.len() == ln + 1);
                assert(nn[ln].ppn == fresh_p);
                assert(nn[ln].level == lv@ + 1);
                assert(forall|i: int| 0 <= i < ln && i != ip ==> nn[i] == on[i]);
                assert(nn[ip as int].entries@ == on[ip as int].entries@.update(ki as int, pte));
                lemma_wf_create_step(on, nn, ip as int, ki as int, fresh_p, pte);
                assert forall|vpn2: u64|
                    self.translate_spec(vpn2) == old(self).translate_spec(vpn2) by {
                    lemma_xlat_create_step(
                        on,
                        nn,
                        ip as int,
                        ki as int,
                        fresh_p,
                        pte,
                        old(self).root_ppn,
                        vpn2,
                        0,
                    );
                }
                // the table's own clauses
                lemma_node_idx(nn, old(self).root_ppn, node_idx(on, old(self).root_ppn));
                lemma_node_idx(nn, fresh_p, ln);
                lemma_node_idx(nn, p, ip as int);
                assert forall|q: u64|
                    has_node(on, q) implies has_node(nn, q) && node_of(nn, q).level == node_of(
                    on,
                    q,
                ).level by {
                    let i = node_idx(on, q);
                    lemma_node_idx(on, q, i);
                    lemma_node_idx(nn, q, i);
                }
                assert forall|q: u64|
                    has_node(on, q) && q != p implies node_of(nn, q).entries@ == node_of(
                    on,
                    q,
                ).entries@ by {
                    let i = node_idx(on, q);
                    lemma_node_idx(on, q, i);
                    lemma_node_idx(nn, q, i);
                    assert(i != ip);
                }
                assert forall|i: int|
                    0 <= i < nn.len() implies fa.allocated((#[trigger] nn[i]).ppn) by {
                    if i < ln {
                        assert(old(fa).allocated(on[i].ppn));
                    }
                }
            }
            fresh_p
        }
    }

    /// Walk `vpn` from the root, creating missing interior nodes, and
    /// return the index of the leaf-level node of its path.
    fn find_leaf_create(&mut self, fa: &mut StackFrameAllocator, vpn: u64) -> (li: usize)
        requires
            old(self).wf(),
            old(fa).wf(),
            old(self).frames_allocated(*old(fa)),
            vpn < VPN_LIMIT,
            leaf_of(old(self).nodes@, old(self).root_ppn, vpn, 0) is Some || old(
                fa,
            ).free_count() >= 2,
        ensures
            leaf_of(old(self).nodes@, old(self).root_ppn, vpn, 0) is Some ==> *final(self) == *old(
                self,
            ) && *final(fa) == *old(fa),
            final(self).wf(),
            final(fa).wf(),
            final(self).frames_allocated(*final(fa)),
            final(self).root_ppn == old(self).root_ppn,
            final(self).nodes@.len() >= old(self).nodes@.len(),
            forall|i: int|
                0 <= i < old(self).nodes@.len() ==> (#[trigger] final(self).nodes@[i]).ppn == old(
                    self,
                ).nodes@[i].ppn,
            forall|i: int|
                old(self).nodes@.len() <= i < final(self).nodes@.len() ==> !old(fa).allocated(
                    (#[trigger] final(self).nodes@[i]).ppn,
                ),
            final(fa).start == old(fa).start,
            final(fa).end == old(fa).end,
            final(fa).free_count() >= old(fa).free_count() - 2,
            forall|q: u64| old(fa).allocated(q) ==> final(fa).allocated(q),
            forall|vpn2: u64| final(self).translate_spec(vpn2) == old(self).translate_spec(vpn2),
            li < final(self).nodes@.len(),
            final(self).nodes@[li as int].level == 2,
            leaf_of(final(self).nodes@, final(self).root_ppn, vpn, 0) == Some(
                final(self).nodes@[li as int].ppn,
            ),
    {
        let root = self.root_ppn;
        let k0 = Self::index_part(vpn, 0);
        proof {
            let on = self.nodes@;
            if leaf_of(on, root, vpn, 0) is Some {
                let ir = node_idx(on, root);
                lemma_node_idx(on, root, ir);
                lemma_vpn_index_bound(vpn, 0);
                assert(node_of(on, root).entries@[k0 as int].spec_valid());
            }
        }
        let c1 = self.ensure_child(fa, root, k0, Ghost(0));
        let k1 = Self::index_part(vpn, 1);
        proof {
            let on = self.nodes@;
            if leaf_of(old(self).nodes@, root, vpn, 0) is Some {
                assert(*self == *old(self));
                let ir = node_idx(on, root);
                lemma_node_idx(on, root, ir);
                lemma_vpn_index_bound(vpn, 0);
                assert(leaf_of(on, root, vpn, 0) == leaf_of(on, c1, vpn, 1));
                let ic = node_idx(on, c1);
                lemma_node_idx(on, c1, ic);
                lemma_vpn_index_bound(vpn, 1);
                assert(node_of(on, c1).entries@[k1 as int].spec_valid());
            }
        }
        let c2 = self.ensure_child(fa, c1, k1, Ghost(1));
        let li = match self.find_node_idx(c2) {
            Some(i) => i,
            None => {
                proof {
                    assert(false);
                }
                vstd::pervasive::unreached()
            },
        };
        proof {
            let nn = self.nodes@;
            lemma_node_idx(nn, c2, li as int);
            assert(node_of(nn, c2).level == 2);
            // the root's slot still names c1: the second step only touched
            // the entries of the node in frame c1, which is not the root.
            assert(root != c1);
            assert(node_of(nn, root).entries@[k0 as int].spec_valid());
            assert(node_of(nn, root).entries@[k0 as int].spec_ppn() == c1);
            assert(node_of(nn, c1).entries@[k1 as int].spec_valid());
            assert(node_of(nn, c1).entries@[k1 as int].spec_ppn() == c2);
            assert(leaf_of(nn, root, vpn, 0) == leaf_of(nn, c1, vpn, 1));
            assert(leaf_of(nn, c1, vpn, 1) == leaf_of(nn, c2, vpn, 2));
            assert(leaf_of(nn, c2, vpn, 2) == Some(c2));
        }
        li
    }
}

} // verus!

verus! {

/// A successful walk ends in a leaf-level node.
pub proof fn lemma_leaf_level(nodes: Seq<PtNode>, p: u64, vpn: u64, depth: int)
    requires
        nodes_wf(nodes),
        uniq(nodes),
        closed(nodes),
        has_node(nodes, p),
        node_of(nodes, p).level == depth,
        0 <= depth <= 2,
        leaf_of(nodes, p, vpn, depth) is Some,
    ensures
        has_node(nodes, leaf_of(nodes, p, vpn, depth)->Some_0),
        node_of(nodes, leaf_of(nodes, p, vpn, depth)->Some_0).level == 2,
    decreases 2 - depth,
{
    let ip = node_idx(nodes, p);
    lemma_node_idx(nodes, p, ip);
    lemma_vpn_index_bound(vpn, depth);
    if depth == 2 {
        assert(leaf_of(nodes, p, vpn, 2) == Some(p));
    } else {
        let ki = vpn_index(vpn, depth) as int;
        let e = nodes[ip].entries@[ki];
        assert(e.spec_valid());
        assert(is_interior_slot(nodes, ip, ki));
        assert(child_ok(nodes, ip, ki));
        assert(leaf_of(nodes, p, vpn, depth) == leaf_of(nodes, e.spec_ppn(), vpn, depth + 1));
        lemma_leaf_level(nodes, e.spec_ppn(), vpn, depth + 1);
    }
}

impl PageTable {
    /// Walk `vpn` from the root without allocating: the index of the
    /// leaf-level node of its path, or `None` as soon as an intermediate
    /// entry is invalid or missing.
    fn walk_find(&self, vpn: u64) -> (r: Option<usize>)
        requires
            uniq(self.nodes@),
        ensures
            r matches Some(li) ==> li < self.nodes@.len() && leaf_of(
                self.nodes@,
                self.root_ppn,
                vpn,
                0,
            ) == Some(self.nodes@[li as int].ppn),
            r is None ==> leaf_of(self.nodes@, self.root_ppn, vpn, 0) is None,
    {
        let nodes_len = self.nodes.len();
        let k0 = Self::index_part(vpn, 0);
        let i0 = match self.find_node_idx(self.root_ppn) {
            Some(i) => i,
            None => {
                return None;
            },
        };
        proof {
            lemma_node_idx(self.nodes@, self.root_ppn, i0 as int);
        }
        if k0 >= self.nodes[i0].entries.len() {
            return None;
        }
        let e0 = self.nodes[i0].entries[k0];
        if !e0.is_valid() {
            return None;
        }
        let p1 = e0.ppn().0;
        proof {
            assert(leaf_of(self.nodes@, self.root_ppn, vpn, 0) == leaf_of(
                self.nodes@,
                p1,
                vpn,
                1,
            ));
        }
        let k1 = Self::index_part(vpn, 1);
        let i1 = match self.find_node_idx(p1) {
            Some(i) => i,
            None => {
                return None;
            },
        };
        proof {
            lemma_node_idx(self.nodes@, p1, i1 as int);
        }
        if k1 >= self.nodes[i1].entries.len() {
            return None;
        }
        let e1 = self.nodes[i1].entries[k1];
        if !e1.is_valid() {
            return None;
        }
        let p2 = e1.ppn().0;
        proof {
            assert(leaf_of(self.nodes@, p1, vpn, 1) == leaf_of(self.nodes@, p2, vpn, 2));
        }
        match self.find_node_idx(p2) {
            Some(i2) => {
                proof {
                    lemma_node_idx(self.nodes@, p2, i2 as int);
                    assert(leaf_of(self.nodes@, p2, vpn, 2) == Some(p2));
                }
                Some(i2)
            },
            None => {
                proof {
                    assert(leaf_of(self.nodes@, p2, vpn, 2) is None);
                }
                None
            },
        }
    }

    /// Whether `vpn` already has a complete walk: both interior entries
    /// valid and the leaf-level node present. Mapping such a page needs
    /// no fresh table node.
    pub fn path_complete(&self, vpn: VirtPageNum) -> (r: bool)
        requires
            uniq(self.nodes@),
        ensures
            r <==> leaf_of(self.nodes@, self.root_ppn, vpn.0, 0) is Some,
    {
        match self.walk_find(vpn.0) {
            Some(_) => true,
            None => false,
        }
    }

    /// The leaf entry for `vpn`, if the walk reaches a valid one. This is
    /// the one fallible, recoverable lookup path; it never allocates and
    /// never mutates.
    pub fn translate(&self, vpn: VirtPageNum) -> (r: Option<PageTableEntry>)
        requires
            uniq(self.nodes@),
        ensures
            r == self.translate_spec(vpn.0),
    {
        match self.walk_find(vpn.0) {
            None => None,
            Some(li) => {
                proof {
                    lemma_node_idx(self.nodes@, self.nodes@[li as int].ppn, li as int);
                }
                let k2 = Self::index_part(vpn.0, 2);
                if k2 >= self.nodes[li].entries.len() {
                    return None;
                }
                let e = self.nodes[li].entries[k2];
                if e.is_valid() {
                    Some(e)
                } else {
                    None
                }
            },
        }
    }

    /// Install the mapping `vpn -> ppn` with `flags` plus the valid bit.
    /// Mapping a page that is already valid is a kernel programming bug,
    /// excluded by the precondition; running out of frames for table nodes
    /// is fatal in this design and likewise excluded.
    pub fn map(
        &mut self,
        fa: &mut StackFrameAllocator,
        vpn: VirtPageNum,
        ppn: PhysPageNum,
        flags: PTEFlags,
    )
        requires
            old(self).wf(),
            old(fa).wf(),
            old(self).frames_allocated(*old(fa)),
            vpn.0 < VPN_LIMIT,
            ppn.0 < PPN_LIMIT,
            old(self).translate_spec(vpn.0) is None,
            leaf_of(old(self).nodes@, old(self).root_ppn, vpn.0, 0) is Some || old(
                fa,
            ).free_count() >= 2,
        ensures
            leaf_of(old(self).nodes@, old(self).root_ppn, vpn.0, 0) is Some ==> *final(fa) == *old(
                fa,
            ) && (forall|v2: u64|
                leaf_of(final(self).nodes@, final(self).root_ppn, v2, 0) == leaf_of(
                    old(self).nodes@,
                    old(self).root_ppn,
                    v2,
                    0,
                )),
            final(self).wf(),
            final(fa).wf(),
            final(self).frames_allocated(*final(fa)),
            final(self).root_ppn == old(self).root_ppn,
            final(self).nodes@.len() >= old(self).nodes@.len(),
            forall|i: int|
                0 <= i < old(self).nodes@.len() ==> (#[trigger] final(self).nodes@[i]).ppn == old(
                    self,
                ).nodes@[i].ppn,
            forall|i: int|
                old(self).nodes@.len() <= i < final(self).nodes@.len() ==> !old(fa).allocated(
                    (#[trigger] final(self).nodes@[i]).ppn,
                ),
            final(fa).start == old(fa).start,
            final(fa).end == old(fa).end,
            final(fa).free_count() >= old(fa).free_count() - 2,
            forall|q: u64| old(fa).allocated(q) ==> final(fa).allocated(q),
            final(self).translate_spec(vpn.0) == Some(
                (PageTableEntry { bits: spec_pte_bits(ppn.0, flags.bits | PTE_V) }),
            ),
            forall|v2: u64|
                v2 < VPN_LIMIT && v2 != vpn.0 ==> final(self).translate_spec(v2) == old(
                    self,
                ).translate_spec(v2),
    {
        let li = self.find_leaf_create(fa, vpn.0);
        let k2 = Self::index_part(vpn.0, 2);
        let pte = PageTableEntry::new(ppn, PTEFlags::from_bits(flags.bits | PTE_V));
        proof {
            let f = flags.bits;
            assert((f | 0x01u8) & 1 == 1) by (bit_vector);
            assert(PTE_V == 0x01u8);
            assert(pte.spec_valid());
        }
        let ghost mid = *self;
        proof {
            let nn = mid.nodes@;
            let lp = nn[li as int].ppn;
            lemma_node_idx(nn, lp, li as int);
            // the slot about to be written is invalid: the translation of
            // vpn is still the empty result after the create walk.
            assert(mid.translate_spec(vpn.0) is None);
            assert(leaf_of(nn, mid.root_ppn, vpn.0, 0) == Some(lp));
            assert(!nn[li as int].entries@[vpn_index(vpn.0, 2) as int].spec_valid());
        }
        self.nodes[li].set_entry(k2, pte);
        proof {
            let on = mid.nodes@;
            let nn = self.nodes@;
            let lp = on[li as int].ppn;
            lemma_node_idx(on, lp, li as int);
            lemma_wf_leaf_step(on, nn, li as int, k2 as int, pte);
            // the table's root clauses survive the update
            lemma_node_idx(nn, lp, li as int);
            let ir = node_idx(on, mid.root_ppn);
            lemma_node_idx(on, mid.root_ppn, ir);
            lemma_node_idx(nn, mid.root_ppn, ir);
            // the mapped page now translates to the written entry
            lemma_xlat_leaf_step(on, nn, li as int, k2 as int, pte, mid.root_ppn, vpn.0, 0);
            // every other in-range page is untouched
            assert forall|v2: u64| v2 < VPN_LIMIT && v2 != vpn.0 implies self.translate_spec(v2)
                == old(self).translate_spec(v2) by {
                lemma_xlat_leaf_step(on, nn, li as int, k2 as int, pte, mid.root_ppn, v2, 0);
                if leaf_of(on, mid.root_ppn, v2, 0) == Some(lp) && vpn_index(v2, 2) == vpn_index(
                    vpn.0,
                    2,
                ) {
                    lemma_path_injective(on, mid.root_ppn, vpn.0, v2, lp);
                }
                assert(mid.translate_spec(v2) == old(self).translate_spec(v2));
            }
            assert forall|i: int|
                0 <= i < nn.len() implies fa.allocated((#[trigger] nn[i]).ppn) by {
                assert(nn[i].ppn == on[i].ppn);
                assert(mid.frames_allocated(*fa));
            }
            // a walk that was already complete created nothing: the
            // allocator is untouched and every walk still ends where it
            // ended
            if leaf_of(old(self).nodes@, old(self).root_ppn, vpn.0, 0) is Some {
                assert(mid == *old(self));
                assert forall|v2: u64|
                    leaf_of(self.nodes@, self.root_ppn, v2, 0) == leaf_of(
                        old(self).nodes@,
                        old(self).root_ppn,
                        v2,
                        0,
                    ) by {
                    lemma_xlat_leaf_step(on, nn, li as int, k2 as int, pte, mid.root_ppn, v2, 0);
                }
            }
        }
    }

    /// Remove the mapping of `vpn` by clearing its leaf entry. Unmapping a
    /// page with no valid mapping is a kernel programming bug, excluded by
    /// the precondition. Node frames are kept for reuse.
    pub fn unmap(&mut self, vpn: VirtPageNum)
        requires
            old(self).wf(),
            vpn.0 < VPN_LIMIT,
            old(self).translate_spec(vpn.0) is Some,
        ensures
            final(self).wf(),
            final(self).root_ppn == old(self).root_ppn,
            final(self).nodes@.len() == old(self).nodes@.len(),
            forall|i: int|
                0 <= i < old(self).nodes@.len() ==> (#[trigger] final(self).nodes@[i]).ppn == old(
                    self,
                ).nodes@[i].ppn,
            final(self).translate_spec(vpn.0) is None,
            forall|v2: u64|
                v2 < VPN_LIMIT && v2 != vpn.0 ==> final(self).translate_spec(v2) == old(
                    self,
                ).translate_spec(v2),
            forall|fa: StackFrameAllocator|
                old(self).frames_allocated(fa) ==> final(self).frames_allocated(fa),
    {
        let li = match self.walk_find(vpn.0) {
            Some(i) => i,
            None => {
                proof {
                    assert(false);
                }
                vstd::pervasive::unreached()
            },
        };
        let k2 = Self::index_part(vpn.0, 2);
        let zero = PageTableEntry::empty();
        proof {
            let on = self.nodes@;
            let lp = on[li as int].ppn;
            let ir = node_idx(on, self.root_ppn);
            lemma_node_idx(on, self.root_ppn, ir);
            lemma_leaf_level(on, self.root_ppn, vpn.0, 0);
            lemma_node_idx(on, lp, li as int);
            assert(on[li as int].level == 2);
        }
        self.nodes[li].set_entry(k2, zero);
        proof {
            let on = old(self).nodes@;
            let nn = self.nodes@;
            let lp = on[li as int].ppn;
            lemma_node_idx(on, lp, li as int);
            lemma_wf_leaf_step(on, nn, li as int, k2 as int, zero);
            lemma_node_idx(nn, lp, li as int);
            let ir = node_idx(on, old(self).root_ppn);
            lemma_node_idx(on, old(self).root_ppn, ir);
            lemma_node_idx(nn, old(self).root_ppn, ir);
            lemma_xlat_leaf_step(on, nn, li as int, k2 as int, zero, old(self).root_ppn, vpn.0, 0);
            assert forall|v2: u64| v2 < VPN_LIMIT && v2 != vpn.0 implies self.translate_spec(v2)
                == old(self).translate_spec(v2) by {
                lemma_xlat_leaf_step(on, nn, li as int, k2 as int, zero, old(self).root_ppn, v2, 0);
                if leaf_of(on, old(self).root_ppn, v2, 0) == Some(lp) && vpn_index(v2, 2)
                    == vpn_index(vpn.0, 2) {
                    lemma_path_injective(on, old(self).root_ppn, vpn.0, v2, lp);
                }
            }
        }
    }

    /// The hardware translation-base value: mode bits selecting SV39
    /// combined with the root frame number.
    pub fn token(&self) -> (r: u64)
        ensures
            r == self.spec_token(),
    {
        (SATP_MODE_SV39 << 60u64) | self.root_ppn
    }

    /// A non-owning view of the address space named by `token`: it can
    /// translate (against its own nodes) and produce a token, but owns no
    /// frames and must never release any.
    pub fn from_token(token: u64) -> (pt: PageTable)
        ensures
            pt.root_ppn == token & 0xFFF_FFFF_FFFF,
            pt.root_ppn < PPN_LIMIT,
            pt.nodes@.len() == 0,
            pt.frames@.len() == 0,
            uniq(pt.nodes@),
            forall|vpn: u64| pt.translate_spec(vpn) is None,
    {
        proof {
            assert(token & 0xFFF_FFFF_FFFF < 0x1000_0000_0000) by (bit_vector);
        }
        PageTable { root_ppn: token & 0xFFF_FFFF_FFFF, nodes: Vec::new(), frames: Vec::new() }
    }
}

/// A token names its root frame exactly: rebuilding a view from a table's
/// token recovers the table's root page number.
pub proof fn lemma_token_roundtrip(p: u64)
    requires
        p < PPN_LIMIT,
    ensures
        ((SATP_MODE_SV39 << 60) | p) & 0xFFF_FFFF_FFFF == p,
{
    assert(p < 0x1000_0000_0000 ==> ((8u64 << 60) | p) & 0xFFF_FFFF_FFFF == p) by (bit_vector);
}

} // verus!

verus! {

/// One page-sized piece of a translated user buffer: the physical frame
/// and the in-page byte range `[start, end)` it occupies.
#[derive(Clone, Copy, PartialEq, Eq, Structural, Debug)]
pub struct ByteSpan {
    /// Physical frame holding this piece.
    pub ppn: u64,
    /// First byte of the piece within the frame.
    pub start: u64,
    /// One past the last byte of the piece within the frame.
    pub end: u64,
}

/// Page `v` of the table is mapped with the permission the access mode
/// needs: the write bit for writes, the read bit for reads.
pub open spec fn page_ok(pt: PageTable, v: u64, write: bool) -> bool {
    let e = pt.translate_spec(v);
    &&& e is Some
    &&& (write ==> e->Some_0.spec_flags() & PTE_W == PTE_W)
    &&& (!write ==> e->Some_0.spec_flags() & PTE_R == PTE_R)
}

/// Testing a permission on the flag byte of an entry agrees with testing
/// it on the raw entry bits.
pub proof fn lemma_flag_byte(b: u64)
    ensures
        (((b & 0xFF) as u8) & 0x02 == 0x02) <==> (b & 0x02 == 0x02),
        (((b & 0xFF) as u8) & 0x04 == 0x04) <==> (b & 0x04 == 0x04),
        (((b & 0xFF) as u8) & 0x08 == 0x08) <==> (b & 0x08 == 0x08),
{
    assert((((b & 0xFF) as u8) & 0x02 == 0x02) <==> (b & 0x02 == 0x02)) by (bit_vector);
    assert((((b & 0xFF) as u8) & 0x04 == 0x04) <==> (b & 0x04 == 0x04)) by (bit_vector);
    assert((((b & 0xFF) as u8) & 0x08 == 0x08) <==> (b & 0x08 == 0x08)) by (bit_vector);
}

/// Resolve the user buffer `[ptr, ptr + len)` against the address space
/// behind `pt` into physical byte ranges, one per page crossed, in
/// address order. Fails with the empty result - the recoverable page
/// fault - when any page is unmapped or lacks the permission the access
/// mode needs.
pub fn translated_byte_buffer(pt: &PageTable, ptr: u64, len: u64, write: bool) -> (r: Option<
    Vec<ByteSpan>,
>)
    requires
        uniq(pt.nodes@),
    ensures
        len == 0 ==> (r matches Some(spans) && spans@.len() == 0),
        len > 0 ==> ((r is Some) <==> (ptr + len <= VPN_LIMIT * PAGE_SIZE && (forall|v: u64|
            ptr / PAGE_SIZE <= v <= (ptr + len - 1) / (PAGE_SIZE as int) ==> page_ok(
                *pt,
                v,
                write,
            )))),
        r matches Some(spans) ==> len == 0 || {
            let first = ptr / PAGE_SIZE;
            let last = (ptr + len - 1) / (PAGE_SIZE as int);
            &&& spans@.len() == last - first + 1
            &&& forall|k: int|
                0 <= k < spans@.len() ==> {
                    let e = pt.translate_spec((first + k) as u64);
                    &&& (#[trigger] spans@[k]).ppn == e->Some_0.spec_ppn()
                    &&& spans@[k].start == (if k == 0 {
                        ptr % PAGE_SIZE
                    } else {
                        0
                    })
                    &&& spans@[k].end == (if k == spans@.len() - 1 {
                        (ptr + len - 1) % (PAGE_SIZE as int) + 1
                    } else {
                        PAGE_SIZE as int
                    })
                }
        },
{
    if len == 0 {
        return Some(Vec::new());
    }
    // a buffer reaching past the 39-bit virtual space is a page fault,
    // not a caller obligation
    if len > u64::MAX - ptr {
        return None;
    }
    if ptr + len > VPN_LIMIT * PAGE_SIZE {
        return None;
    }
    let first: u64 = ptr / PAGE_SIZE;
    let last: u64 = (ptr + len - 1) / PAGE_SIZE;
    proof {
        vstd::arithmetic::div_mod::lemma_div_is_ordered(
            ptr as int,
            (ptr + len - 1) as int,
            PAGE_SIZE as int,
        );
    }
    let mut spans: Vec<ByteSpan> = Vec::new();
    let mut v: u64 = first;
    while v <= last
        invariant
            first <= v <= last + 1,
            last < VPN_LIMIT,
            uniq(pt.nodes@),
            first == ptr / PAGE_SIZE,
            last == (ptr + len - 1) / (PAGE_SIZE as int),
            len > 0,
            ptr + len <= VPN_LIMIT * PAGE_SIZE,
            spans@.len() == v - first,
            forall|w: u64| first <= w < v ==> page_ok(*pt, w, write),
            forall|k: int|
                0 <= k < spans@.len() ==> {
                    let e = pt.translate_spec((first + k) as u64);
                    &&& (#[trigger] spans@[k]).ppn == e->Some_0.spec_ppn()
                    &&& spans@[k].start == (if k == 0 {
                        ptr % PAGE_SIZE
                    } else {
                        0
                    })
                    &&& spans@[k].end == (if first + k == last {
                        (ptr + len - 1) % (PAGE_SIZE as int) + 1
                    } else {
                        PAGE_SIZE as int
                    })
                },
        decreases last + 1 - v,
    {
        let e = match pt.translate(VirtPageNum(v)) {
            Some(e) => e,
            None => {
                proof {
                    assert(!page_ok(*pt, v, write));
                }
                return None;
            },
        };
        let flag_ok = if write {
            e.writable()
        } else {
            e.readable()
        };
        proof {
            lemma_flag_byte(e.bits);
            assert(flag_ok <==> page_ok(*pt, v, write));
        }
        if !flag_ok {
            return None;
        }
        let s: u64 = if v == first {
            ptr % PAGE_SIZE
        } else {
            0
        };
        let t: u64 = if v == last {
            (ptr + len - 1) % PAGE_SIZE + 1
        } else {
            PAGE_SIZE
        };
        spans.push(ByteSpan { ppn: e.ppn().0, start: s, end: t });
        v = v + 1;
    }
    Some(spans)
}

/// Resolve a user virtual pointer to the physical address of the same
/// offset within its containing frame, for an object of `size` bytes that
/// must not straddle a page boundary. Fails with the empty result when
/// the object would straddle, when the page is unmapped, or when it lacks
/// the permission the access mode needs.
pub fn translate_single_object(pt: &PageTable, ptr: u64, size: u64, write: bool) -> (r: Option<
    PhysAddr,
>)
    requires
        uniq(pt.nodes@),
        1 <= size,
    ensures
        (r is Some) <==> (ptr % PAGE_SIZE + size <= PAGE_SIZE && page_ok(
            *pt,
            ptr / PAGE_SIZE,
            write,
        )),
        r matches Some(pa) ==> pa.0 == pt.translate_spec(ptr / PAGE_SIZE)->Some_0.spec_ppn()
            * PAGE_SIZE + ptr % PAGE_SIZE,
{
    if size > PAGE_SIZE {
        return None;
    }
    let offset: u64 = ptr % PAGE_SIZE;
    if offset + size > PAGE_SIZE {
        return None;
    }
    let e = match pt.translate(VirtAddr(ptr).floor()) {
        Some(e) => e,
        None => {
            return None;
        },
    };
    let flag_ok = if write {
        e.writable()
    } else {
        e.readable()
    };
    proof {
        lemma_flag_byte(e.bits);
        assert(flag_ok <==> page_ok(*pt, ptr / PAGE_SIZE, write));
    }
    if !flag_ok {
        return None;
    }
    Some(PhysAddr::getPhaddrByOffset(e.ppn(), offset))
}

} // verus!
