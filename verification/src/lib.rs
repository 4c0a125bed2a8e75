//! Virtual-memory core of a small RISC-V (SV39) kernel: physical frame
//! ownership, a bootstrap heap arena, three-level page tables, per-address-
//! space memory sets, and cross-space translation of user pointers.

pub mod address;
pub mod config;
pub mod frame_allocator;
pub mod heap_allocator;
pub mod memory_set;
pub mod page_table;
pub mod syscall;
pub mod timer;

use vstd::prelude::*;
use crate::address::{PhysAddr, PhysPageNum};
use crate::config::{KERNEL_HEAP_SIZE, PAGE_SIZE, PPN_LIMIT};
use crate::frame_allocator::StackFrameAllocator;
use crate::heap_allocator::KernelHeap;
use crate::memory_set::{kernel_ident_at, kernel_mapped, KernelLayout, MemorySet, spec_ceil_page_vpn};
use crate::page_table::{PTE_R, PTE_W, PTE_X};
use crate::page_table::lemma_flag_byte;

verus! {

/// Everything this core owns after boot: the bootstrap heap arena, the
/// physical frame pool, and the kernel's own address space. These are
/// process-wide singletons; the surrounding kernel keeps the one value
/// of this type behind its locks.
pub struct Kernel {
    /// The bootstrap heap arena.
    pub heap: KernelHeap,
    /// The pool of free physical frames above the kernel image.
    pub frame_allocator: StackFrameAllocator,
    /// The kernel's identity-mapped address space.
    pub kernel_space: MemorySet,
}

/// One-shot boot sequence: bring up the heap arena, then the frame pool
/// over the physical frames the boot code reserves above the kernel
/// image, then build the kernel address space. Must run exactly once, before any other call
/// into this core; writing the returned space's token to the hardware
/// translation-base register is the caller's final, architecture-level
/// step.
pub fn init(l: KernelLayout, heap_base: u64, pool_start: PhysPageNum, pool_end: PhysPageNum) -> (k:
    Kernel)
    requires
        l.wf(),
        heap_base % 8 == 0,
        heap_base + KERNEL_HEAP_SIZE <= u64::MAX,
        pool_start.0 <= pool_end.0 <= PPN_LIMIT,
        pool_end.0 - pool_start.0 >= l.frames_needed(),
    ensures
        k.heap.wf(),
        k.heap.next == 0,
        k.heap.size == KERNEL_HEAP_SIZE,
        k.frame_allocator.wf(),
        k.kernel_space.wf(),
        k.kernel_space.owns(k.frame_allocator),
        kernel_mapped(k.kernel_space, l),
{
    let heap = KernelHeap::init(heap_base, KERNEL_HEAP_SIZE);
    let mut fa = StackFrameAllocator::new(pool_start, pool_end);
    let kernel_space = MemorySet::new_kernel(&mut fa, l);
    Kernel { heap, frame_allocator: fa, kernel_space }
}

/// Probe of the kernel identity mapping: the first code page translates
/// to itself, executable and not writable; the first read-only data page
/// is neither writable nor executable; the first read-write data page is
/// writable and not executable. Every probe is proved, not sampled.
pub fn remap_test(ms: &MemorySet, l: KernelLayout)
    requires
        ms.wf(),
        l.wf(),
        kernel_mapped(*ms, l),
        l.stext < l.etext,
        l.srodata < l.erodata,
        l.sdata < l.edata,
{
    let text_vpn = PhysAddr(l.stext).floor().0;
    proof {
        vstd::arithmetic::div_mod::lemma_div_is_ordered(
            l.stext as int,
            (l.etext - 1) as int,
            PAGE_SIZE as int,
        );
        assert(kernel_ident_at(*ms, text_vpn, PTE_R | PTE_X));
    }
    match ms.page_table.translate(crate::address::VirtPageNum(text_vpn)) {
        Some(e) => {
            proof {
                lemma_flag_byte(e.bits);
                assert((0x02u8 | 0x08) | 0x01 == 0x0B) by (bit_vector);
                assert(0x0Bu8 & 0x08 == 0x08 && 0x0Bu8 & 0x04 != 0x04) by (bit_vector);
            }
            let ok = e.executable() && !e.writable();
            assert(ok);
            let p = e.ppn();
            assert(p.0 == text_vpn);
        },
        None => {
            proof {
                assert(false);
            }
        },
    }
    let rodata_vpn = PhysAddr(l.srodata).floor().0;
    proof {
        vstd::arithmetic::div_mod::lemma_div_is_ordered(
            l.srodata as int,
            (l.erodata - 1) as int,
            PAGE_SIZE as int,
        );
        assert(kernel_ident_at(*ms, rodata_vpn, PTE_R));
    }
    match ms.page_table.translate(crate::address::VirtPageNum(rodata_vpn)) {
        Some(e) => {
            proof {
                lemma_flag_byte(e.bits);
                assert(0x02u8 | 0x01 == 0x03) by (bit_vector);
                assert(0x03u8 & 0x08 != 0x08 && 0x03u8 & 0x04 != 0x04) by (bit_vector);
            }
            let ok = !e.executable() && !e.writable();
            assert(ok);
        },
        None => {
            proof {
                assert(false);
            }
        },
    }
    let data_vpn = PhysAddr(l.sdata).floor().0;
    proof {
        vstd::arithmetic::div_mod::lemma_div_is_ordered(
            l.sdata as int,
            (l.edata - 1) as int,
            PAGE_SIZE as int,
        );
        assert(kernel_ident_at(*ms, data_vpn, PTE_R | PTE_W));
    }
    match ms.page_table.translate(crate::address::VirtPageNum(data_vpn)) {
        Some(e) => {
            proof {
                lemma_flag_byte(e.bits);
                assert((0x02u8 | 0x04) | 0x01 == 0x07) by (bit_vector);
                assert(0x07u8 & 0x04 == 0x04 && 0x07u8 & 0x08 != 0x08) by (bit_vector);
            }
            let ok = e.writable() && !e.executable();
            assert(ok);
        },
        None => {
            proof {
                assert(false);
            }
        },
    }
}

} // verus!
