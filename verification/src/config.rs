//! Platform constants for the SV39 memory model.

use vstd::prelude::*;

verus! {

/// Bytes in one page frame.
pub const PAGE_SIZE: u64 = 4096;
/// log2 of the page size: width of the in-page offset field.
pub const PAGE_SIZE_BITS: u64 = 12;
/// Page-table entries held by one table node.
pub const PAGE_ENTRIES: u64 = 512;
/// Physical page numbers occupy 44 bits of an SV39 entry.
pub const PPN_LIMIT: u64 = 0x1000_0000_0000;
/// Virtual page numbers occupy 27 bits (three 9-bit index groups).
pub const VPN_LIMIT: u64 = 0x800_0000;
/// Virtual page number of the shared trampoline page: the very top of the
/// 39-bit virtual range.
pub const TRAMPOLINE_VPN: u64 = 0x800_0000 - 1;
/// Mode field value selecting SV39 translation in the hardware base register.
pub const SATP_MODE_SV39: u64 = 8;
/// Bytes reserved for the kernel's bootstrap heap arena.
pub const KERNEL_HEAP_SIZE: u64 = 0x30_0000;
/// Bytes of user stack laid out by the loader.
pub const USER_STACK_SIZE: u64 = 8192;
/// Number of syscall slots recorded per task.
pub const MAX_SYSCALL_NUM: usize = 500;
/// Timer ticks per second on the target platform.
pub const CLOCK_FREQ: u64 = 12_500_000;
/// Timer interrupts per second requested by the kernel.
pub const TICKS_PER_SEC: u64 = 100;
/// Microseconds per second.
pub const MICRO_PER_SEC: u64 = 1_000_000;

} // verus!
