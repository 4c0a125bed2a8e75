use os4_mm::address::{PhysPageNum, VirtPageNum};
use os4_mm::config::{CLOCK_FREQ, KERNEL_HEAP_SIZE, PAGE_SIZE, TICKS_PER_SEC};
use os4_mm::frame_allocator::StackFrameAllocator;
use os4_mm::init;
use os4_mm::memory_set::{KernelLayout, MapPermission, MemorySet};
use os4_mm::syscall::{
    sys_get_time, sys_mmap, sys_munmap, sys_set_priority, sys_task_info, sys_yield, TimeVal,
};
use os4_mm::timer::{get_time2, get_time_us, set_next_trigger};

fn big_pool() -> StackFrameAllocator {
    StackFrameAllocator::new(PhysPageNum(0x1000), PhysPageNum(0x9000))
}

fn user_space() -> (MemorySet, StackFrameAllocator) {
    let mut fa = big_pool();
    let mut ms = MemorySet::new_bare(&mut fa);
    ms.push_area(
        &mut fa,
        VirtPageNum(0x10),
        VirtPageNum(0x11),
        os4_mm::memory_set::MapType::Framed,
        MapPermission::from_bits(0x16),
    );
    (ms, fa)
}

#[test]
fn yield_and_priority() {
    assert_eq!(sys_yield(), 0);
    assert_eq!(sys_set_priority(5), -1);
    assert_eq!(sys_set_priority(-3), -1);
}

#[test]
fn get_time_resolves_user_pointer() {
    let (ms, _fa) = user_space();
    let ppn = ms.page_table.translate(VirtPageNum(0x10)).unwrap().ppn().0;
    let (code, pa, tv) = sys_get_time(&ms.page_table, 0x10010, 3_500_000);
    assert_eq!(code, 0);
    assert_eq!(pa.unwrap().0, ppn * PAGE_SIZE + 0x10);
    assert_eq!(tv, TimeVal { sec: 3, usec: 500_000 });
    // an unmapped pointer is a recoverable page fault, not a crash
    let (bad, none, _tv) = sys_get_time(&ms.page_table, 0x20010, 3_500_000);
    assert_eq!(bad, -1);
    assert!(none.is_none());
    // a pointer straddling a page boundary is rejected
    let (straddle, _, _) = sys_get_time(&ms.page_table, 0x10FFC, 1);
    assert_eq!(straddle, -1);
}

#[test]
fn task_info_resolves_user_pointer() {
    let (ms, _fa) = user_space();
    let ppn = ms.page_table.translate(VirtPageNum(0x10)).unwrap().ppn().0;
    let (code, pa) = sys_task_info(&ms.page_table, 0x10100, 64);
    assert_eq!(code, 0);
    assert_eq!(pa.unwrap().0, ppn * PAGE_SIZE + 0x100);
    let (bad, none) = sys_task_info(&ms.page_table, 0x50000, 64);
    assert_eq!(bad, -1);
    assert!(none.is_none());
}

#[test]
fn mmap_validates_and_maps() {
    let mut fa = big_pool();
    let mut ms = MemorySet::new_bare(&mut fa);
    // a good request maps user-accessible pages with the asked rights
    assert_eq!(sys_mmap(&mut ms, &mut fa, 0x10000, 0x2000, 0x3), 0);
    let e = ms.page_table.translate(VirtPageNum(0x10)).expect("mapped");
    assert_eq!(e.flags().bits, ((0x3 << 1) as u8) | 0x10 | 0x01);
    assert!(ms.page_table.translate(VirtPageNum(0x11)).is_some());
    assert!(ms.page_table.translate(VirtPageNum(0x12)).is_none());
    // bad arguments are rejected with a negative status
    assert_eq!(sys_mmap(&mut ms, &mut fa, 0x10001, 0x1000, 0x3), -1);
    assert_eq!(sys_mmap(&mut ms, &mut fa, 0x20000, 0x1000, 0x8), -1);
    assert_eq!(sys_mmap(&mut ms, &mut fa, 0x20000, 0x1000, 0x0), -1);
    // overlap with an existing area is a mapping conflict
    assert_eq!(sys_mmap(&mut ms, &mut fa, 0x11000, 0x1000, 0x1), -1);
}

#[test]
fn munmap_round_trip() {
    let mut fa = big_pool();
    let mut ms = MemorySet::new_bare(&mut fa);
    assert_eq!(sys_mmap(&mut ms, &mut fa, 0x10000, 0x2000, 0x3), 0);
    // a partial range does not match the mapped area
    assert_eq!(sys_munmap(&mut ms, &mut fa, 0x10000, 0x1000), -1);
    // a misaligned start is rejected
    assert_eq!(sys_munmap(&mut ms, &mut fa, 0x10001, 0x2000), -1);
    // the exact range is unmapped and its pages translate to nothing
    assert_eq!(sys_munmap(&mut ms, &mut fa, 0x10000, 0x2000), 0);
    assert!(ms.page_table.translate(VirtPageNum(0x10)).is_none());
    assert!(ms.page_table.translate(VirtPageNum(0x11)).is_none());
    // unmapping again fails
    assert_eq!(sys_munmap(&mut ms, &mut fa, 0x10000, 0x2000), -1);
    // and the frames were recycled: mapping again succeeds
    assert_eq!(sys_mmap(&mut ms, &mut fa, 0x10000, 0x2000, 0x7), 0);
}

#[test]
fn timer_arithmetic() {
    assert_eq!(get_time_us(24), 2);
    assert_eq!(get_time_us(12_500_000), 12_500_000 / (CLOCK_FREQ / 1_000_000));
    assert_eq!(set_next_trigger(0), CLOCK_FREQ / TICKS_PER_SEC);
    assert_eq!(set_next_trigger(1000), 1000 + CLOCK_FREQ / TICKS_PER_SEC);
    assert_eq!(get_time2(1_234_567), 1 * 1000 + 234);
    assert_eq!(get_time2(0), 0);
    assert_eq!(get_time2(999_999), 999);
}

#[test]
fn boot_init_builds_kernel() {
    let l = KernelLayout {
        stext: 0x1000,
        etext: 0x2000,
        srodata: 0x2000,
        erodata: 0x3000,
        sdata: 0x3000,
        edata: 0x4000,
        sbss: 0x4000,
        ebss: 0x5000,
        memory_end: 0x8000,
        strampoline: 0x1000,
    };
    let k = init(l, 0x8000_0000, PhysPageNum(0x1000), PhysPageNum(0x2000));
    assert_eq!(k.heap.size, KERNEL_HEAP_SIZE);
    let e = k.kernel_space.page_table.translate(VirtPageNum(3)).expect("identity");
    assert_eq!(e.ppn().0, 3);
    let token = k.kernel_space.token();
    assert_eq!(token >> 60, 8);
}

#[test]
fn mmap_out_of_memory_is_reported() {
    // a pool holding exactly the root frame: the first map request finds
    // no frames for its pages and fails with a negative status, leaving
    // the space untouched
    let mut fa = StackFrameAllocator::new(PhysPageNum(0x100), PhysPageNum(0x101));
    let mut ms = MemorySet::new_bare(&mut fa);
    assert_eq!(sys_mmap(&mut ms, &mut fa, 0x10000, 0x1000, 0x3), -1);
    assert!(ms.page_table.translate(VirtPageNum(0x10)).is_none());
    assert_eq!(ms.areas.len(), 0);
}

#[test]
fn munmap_then_remap_reuses_the_freed_frame() {
    // a pool sized so the first one-page map consumes it completely:
    // one root, two table nodes, one backing frame
    let mut fa = StackFrameAllocator::new(PhysPageNum(0x100), PhysPageNum(0x104));
    let mut ms = MemorySet::new_bare(&mut fa);
    assert_eq!(sys_mmap(&mut ms, &mut fa, 0x10000, 0x1000, 0x3), 0);
    let first = ms.page_table.translate(VirtPageNum(0x10)).unwrap().ppn().0;
    // the pool is now exhausted: a fresh request elsewhere fails
    assert_eq!(sys_mmap(&mut ms, &mut fa, 0x20000, 0x1000, 0x3), -1);
    // releasing the one page returns exactly its backing frame
    assert_eq!(sys_munmap(&mut ms, &mut fa, 0x10000, 0x1000), 0);
    // remapping the same range needs only that one frame: the table
    // nodes still stand, and the LIFO recycle list hands the frame back
    assert_eq!(sys_mmap(&mut ms, &mut fa, 0x10000, 0x1000, 0x3), 0);
    let again = ms.page_table.translate(VirtPageNum(0x10)).unwrap().ppn().0;
    assert_eq!(again, first);
}
