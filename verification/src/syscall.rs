//! Decision logic of the process-management syscalls that touch this
//! core: validating user requests and resolving user pointers through
//! the requesting task's page table. Performing the raw memory writes
//! and switching tasks belong to the surrounding kernel.

use vstd::prelude::*;
use crate::address::PhysAddr;
use crate::config::{MAX_SYSCALL_NUM, MICRO_PER_SEC, PAGE_SIZE, TRAMPOLINE_VPN, VPN_LIMIT};
use crate::frame_allocator::StackFrameAllocator;
use crate::memory_set::{range_complete, MapPermission, MapType, MemorySet};
use crate::page_table::{leaf_of, page_ok, spec_pte_bits, uniq, PageTable, PageTableEntry, PTE_V};

verus! {

/// Scheduling state of a task, as the task manager reports it.
#[derive(Clone, Copy, PartialEq, Eq, Structural, Debug)]
pub enum TaskStatus {
    /// Not yet initialized.
    UnInit,
    /// Ready to run.
    Ready,
    /// Currently running.
    Running,
    /// Finished.
    Exited,
}

/// Wall-clock time split into seconds and microseconds, the layout the
/// time syscall writes into user memory.
#[derive(Clone, Copy, PartialEq, Eq, Structural, Debug)]
pub struct TimeVal {
    /// Whole seconds.
    pub sec: u64,
    /// Microseconds below one second.
    pub usec: u64,
}

impl TimeVal {
    /// Split a microsecond count into seconds and the remainder.
    pub fn from_us(us: u64) -> (r: TimeVal)
        ensures
            r.sec == us / MICRO_PER_SEC,
            r.usec == us % MICRO_PER_SEC,
            r.usec < MICRO_PER_SEC,
    {
        TimeVal { sec: us / MICRO_PER_SEC, usec: us % MICRO_PER_SEC }
    }
}

/// What the task-info syscall reports about a task.
#[derive(Clone, Copy)]
pub struct TaskInfo {
    /// The task's scheduling state.
    pub status: TaskStatus,
    /// How often each syscall number was invoked.
    pub syscall_times: [u32; MAX_SYSCALL_NUM],
    /// Milliseconds since the task was first scheduled.
    pub time: u64,
}

/// Give up the processor voluntarily: always succeeds. Suspending the
/// current task and scheduling the next is the caller's act.
pub fn sys_yield() -> (r: isize)
    ensures
        r == 0,
{
    0
}

/// Priority scheduling is not supported by this kernel: the request is
/// always rejected.
pub fn sys_set_priority(prio: isize) -> (r: isize)
    ensures
        r == -1,
{
    -1
}

/// Resolve the user's `TimeVal` pointer and split the microsecond count
/// read from the timer. Returns zero and the physical destination when
/// the pointer lies in one writable page; returns the page-fault status
/// and no destination otherwise, instead of crashing the kernel.
pub fn sys_get_time(pt: &PageTable, ts_ptr: u64, us: u64) -> (r: (isize, Option<PhysAddr>, TimeVal))
    requires
        uniq(pt.nodes@),
    ensures
        ({
            let (code, pa, tv) = r;
            &&& tv.sec == us / MICRO_PER_SEC
            &&& tv.usec == us % MICRO_PER_SEC
            &&& (code == 0 || code == -1)
            &&& ((code == 0) <==> pa is Some)
            &&& ((pa is Some) <==> (ts_ptr % PAGE_SIZE + 16 <= PAGE_SIZE && page_ok(
                *pt,
                ts_ptr / PAGE_SIZE,
                true,
            )))
            &&& (pa matches Some(p) ==> p.0 == pt.translate_spec(
                ts_ptr / PAGE_SIZE,
            )->Some_0.spec_ppn() * PAGE_SIZE + ts_ptr % PAGE_SIZE)
        }),
{
    let tv = TimeVal::from_us(us);
    match crate::page_table::translate_single_object(pt, ts_ptr, 16, true) {
        Some(pa) => (0, Some(pa), tv),
        None => (-1, None, tv),
    }
}

/// Resolve the user's `TaskInfo` pointer, for an object of `size` bytes,
/// to the physical address the task manager will fill in. Returns the
/// page-fault status instead of crashing when the pointer is bad.
pub fn sys_task_info(pt: &PageTable, ti_ptr: u64, size: u64) -> (r: (isize, Option<PhysAddr>))
    requires
        uniq(pt.nodes@),
        1 <= size <= PAGE_SIZE,
    ensures
        ({
            let (code, pa) = r;
            &&& (code == 0 || code == -1)
            &&& ((code == 0) <==> pa is Some)
            &&& ((pa is Some) <==> (ti_ptr % PAGE_SIZE + size <= PAGE_SIZE && page_ok(
                *pt,
                ti_ptr / PAGE_SIZE,
                true,
            )))
            &&& (pa matches Some(p) ==> p.0 == pt.translate_spec(
                ti_ptr / PAGE_SIZE,
            )->Some_0.spec_ppn() * PAGE_SIZE + ti_ptr % PAGE_SIZE)
        }),
{
    match crate::page_table::translate_single_object(pt, ti_ptr, size, true) {
        Some(pa) => (0, Some(pa)),
        None => (-1, None),
    }
}

/// Whether a memory-map request's protection bits are acceptable: only
/// the three low bits may be used, and at least one must be.
pub open spec fn mmap_port_ok(port: u64) -> bool {
    port & 0xFFFF_FFFF_FFFF_FFF8 == 0 && port & 0x7 != 0
}

/// The first page boundary at or after the mathematical byte position
/// `x`.
pub open spec fn ceil_int(x: int) -> int {
    if x <= 0 {
        0
    } else {
        (x - 1) / (PAGE_SIZE as int) + 1
    }
}

/// Whether a memory-map request is well-formed: an aligned start, valid
/// protection bits, and an end below the trampoline page.
pub open spec fn mmap_args_ok(start: u64, len: u64, port: u64) -> bool {
    &&& start % PAGE_SIZE == 0
    &&& mmap_port_ok(port)
    &&& ceil_int(start + len) <= TRAMPOLINE_VPN
}

/// Frames a memory-map request needs from the pool: one backing frame
/// per page, plus up to two table nodes per page when some walk of the
/// range is still incomplete.
pub open spec fn mmap_frames_needed(pt: PageTable, start: u64, len: u64) -> int {
    let s = start / PAGE_SIZE;
    let e = ceil_int(start + len);
    if range_complete(pt, s, e as u64) {
        e - s
    } else {
        3 * (e - s)
    }
}

/// Map `[start, start + len)` into the task's space as fresh
/// user-accessible frames with the requested protection. Rejects, with a
/// negative status and no change, a misaligned start, bad protection
/// bits, a range reaching the trampoline, overlap with an existing area,
/// or a frame pool that cannot supply the request - out-of-memory is
/// surfaced to the task, not a kernel abort.
pub fn sys_mmap(
    ms: &mut MemorySet,
    fa: &mut StackFrameAllocator,
    start: u64,
    len: u64,
    port: u64,
) -> (r: isize)
    requires
        old(ms).wf(),
        old(fa).wf(),
        old(ms).owns(*old(fa)),
    ensures
        final(ms).wf(),
        final(fa).wf(),
        final(ms).owns(*final(fa)),
        r == 0 || r == -1,
        (r == 0) <==> (mmap_args_ok(start, len, port) && old(fa).free_count()
            >= mmap_frames_needed(old(ms).page_table, start, len) && (forall|v: u64|
            start / PAGE_SIZE <= v < ceil_int(start + len) ==> !old(ms).covers(v))),
        r == -1 ==> *final(ms) == *old(ms) && *final(fa) == *old(fa),
        r == 0 ==> final(ms).areas@.len() == old(ms).areas@.len() + 1
            && final(ms).areas@.last().map_type is Framed
            && final(ms).areas@.last().vpn_range.start.0 == start / PAGE_SIZE
            && final(ms).areas@.last().vpn_range.end.0 == ceil_int(start + len),
        r == 0 ==> forall|v: u64|
            start / PAGE_SIZE <= v < ceil_int(start + len)
                ==> #[trigger] final(ms).page_table.translate_spec(v) == Some(
                (PageTableEntry {
                    bits: spec_pte_bits(
                        final(ms).areas@.last().data_frames@[(v - start
                            / PAGE_SIZE) as int].ppn.0,
                        (((port & 0x7) << 1) as u8 | 0x10) | PTE_V,
                    ),
                }),
            ),
        r == 0 ==> forall|v: u64|
            start / PAGE_SIZE <= v < ceil_int(start + len) ==> {
                let e = #[trigger] final(ms).page_table.translate_spec(v);
                &&& e is Some
                &&& e->Some_0.spec_flags() == ((((port & 0x7) << 1) as u8 | 0x10) | PTE_V)
            },
        r == 0 ==> forall|v: u64|
            v < VPN_LIMIT && !(start / PAGE_SIZE <= v < ceil_int(start + len))
                ==> final(ms).page_table.translate_spec(v) == old(ms).page_table.translate_spec(
                v,
            ),
{
    if start % PAGE_SIZE != 0 {
        return -1;
    }
    if port & 0xFFFF_FFFF_FFFF_FFF8 != 0 || port & 0x7 == 0 {
        return -1;
    }
    if len > u64::MAX - start {
        proof {
            assert(ceil_int(start + len) > TRAMPOLINE_VPN) by {
                assert((start + len - 1) as int / (PAGE_SIZE as int) + 1 > TRAMPOLINE_VPN) by {
                    vstd::arithmetic::div_mod::lemma_div_is_ordered(
                        0xFFFF_FFFF_FFFF_FFFF,
                        (start + len - 1) as int,
                        PAGE_SIZE as int,
                    );
                    assert(0xFFFF_FFFF_FFFF_FFFFint / (PAGE_SIZE as int) == 0xF_FFFF_FFFF_FFFF);
                }
            }
        }
        return -1;
    }
    let end: u64 = start + len;
    let end_vpn = crate::address::VirtAddr(end).ceil();
    if end_vpn.0 > TRAMPOLINE_VPN {
        return -1;
    }
    let sv: u64 = start / PAGE_SIZE;
    // out-of-memory is recoverable here: count what the request needs -
    // one frame per page over complete walks, three otherwise - and
    // report failure to the task if the pool falls short
    let mut complete = true;
    let mut w: u64 = sv;
    while w < end_vpn.0
        invariant
            sv <= w <= end_vpn.0,
            *ms == *old(ms),
            *fa == *old(fa),
            old(ms).wf(),
            old(fa).wf(),
            old(ms).owns(*old(fa)),
            complete <==> (forall|v: u64|
                sv <= v < w ==> leaf_of(
                    ms.page_table.nodes@,
                    ms.page_table.root_ppn,
                    v,
                    0,
                ) is Some),
        decreases end_vpn.0 - w,
    {
        if !ms.page_table.path_complete(crate::address::VirtPageNum(w)) {
            complete = false;
        }
        w = w + 1;
    }
    let pages: u64 = end_vpn.0 - sv;
    let needed: u64 = if complete {
        pages
    } else {
        3 * pages
    };
    proof {
        assert(end_vpn.0 == ceil_int(start + len));
        assert(complete <==> range_complete(old(ms).page_table, sv, end_vpn.0));
        assert(needed == mmap_frames_needed(old(ms).page_table, start, len));
    }
    if !fa.has_free(needed) {
        return -1;
    }
    proof {
        let p = port;
        assert((p & 0x7) << 1 <= 14) by (bit_vector);
        assert((((p & 0x7) << 1) as u8 | 0x10) & 0xE1 == 0) by (bit_vector);
    }
    let low: u64 = (port & 0x7) << 1u64;
    let perm_bits: u8 = low as u8 | 0x10;
    let perm = MapPermission::from_bits(perm_bits);
    ms.insert_framed_area(fa, crate::address::VirtAddr(start), crate::address::VirtAddr(end), perm)
}

/// Unmap the exact area `[start, start + len)` installed by an earlier
/// map request, releasing its frames. Rejects, with a negative status
/// and no change, a misaligned start or a range that is not exactly one
/// existing area.
pub fn sys_munmap(ms: &mut MemorySet, fa: &mut StackFrameAllocator, start: u64, len: u64) -> (r:
    isize)
    requires
        old(ms).wf(),
        old(fa).wf(),
        old(ms).owns(*old(fa)),
    ensures
        final(ms).wf(),
        final(fa).wf(),
        final(ms).owns(*final(fa)),
        r == 0 || r == -1,
        r == -1 ==> *final(ms) == *old(ms) && *final(fa) == *old(fa),
        (r == 0) <==> (start % PAGE_SIZE == 0 && len <= u64::MAX - start && (exists|i: int|
            0 <= i < old(ms).areas@.len() && {
                let a = #[trigger] old(ms).areas@[i];
                a.vpn_range.start.0 == start / PAGE_SIZE && a.vpn_range.end.0 == ceil_int(
                    start + len,
                )
            })),
        r == 0 ==> forall|v: u64|
            start / PAGE_SIZE <= v < ceil_int(start + len)
                ==> final(ms).page_table.translate_spec(v) is None,
        r == 0 ==> forall|v: u64|
            v < VPN_LIMIT && !(start / PAGE_SIZE <= v < ceil_int(start + len))
                ==> final(ms).page_table.translate_spec(v) == old(ms).page_table.translate_spec(
                v,
            ),
        r == 0 ==> final(fa).free_count() >= old(fa).free_count(),
        r == 0 ==> (exists|i: int|
            0 <= i < old(ms).areas@.len() && (#[trigger] old(ms).areas@[i]).vpn_range.start.0
                == start / PAGE_SIZE && old(ms).areas@[i].vpn_range.end.0 == ceil_int(start + len)
                && final(fa).free_count() == old(fa).free_count()
                + old(ms).areas@[i].data_frames@.len()),
{
    if start % PAGE_SIZE != 0 {
        return -1;
    }
    if len > u64::MAX - start {
        return -1;
    }
    let sv: u64 = start / PAGE_SIZE;
    let ev = crate::address::VirtAddr(start + len).ceil();
    let mut idx: usize = 0;
    while idx < ms.areas.len()
        invariant
            idx <= ms.areas@.len(),
            *ms == *old(ms),
            *fa == *old(fa),
            old(ms).wf(),
            old(fa).wf(),
            old(ms).owns(*old(fa)),
            sv == start / PAGE_SIZE,
            ev.0 == ceil_int(start + len),
            start % PAGE_SIZE == 0,
            len <= u64::MAX - start,
            forall|j: int|
                0 <= j < idx ==> !({
                    let a = #[trigger] ms.areas@[j];
                    a.vpn_range.start.0 == sv && a.vpn_range.end.0 == ev.0
                }),
        decreases ms.areas@.len() - idx,
    {
        if ms.areas[idx].vpn_range.start.0 == sv && ms.areas[idx].vpn_range.end.0 == ev.0 {
            let ghost witness = idx as int;
            ms.remove_area(fa, idx);
            proof {
                assert(old(ms).areas@[witness].vpn_range.start.0 == start / PAGE_SIZE);
                assert(old(ms).areas@[witness].vpn_range.end.0 == ceil_int(start + len));
                assert(forall|v: u64|
                    sv <= v < ev.0 ==> old(ms).areas@[witness].vpn_range.spec_contains(v));
                assert(exists|i: int|
                    0 <= i < old(ms).areas@.len() && {
                        let a = #[trigger] old(ms).areas@[i];
                        a.vpn_range.start.0 == start / PAGE_SIZE && a.vpn_range.end.0 == ceil_int(
                            start + len,
                        )
                    }) by {
                    assert(0 <= witness < old(ms).areas@.len());
                    assert({
                        let a = old(ms).areas@[witness];
                        a.vpn_range.start.0 == start / PAGE_SIZE && a.vpn_range.end.0 == ceil_int(
                            start + len,
                        )
                    });
                }
            }
            return 0;
        }
        idx = idx + 1;
    }
    -1
}

} // verus!
