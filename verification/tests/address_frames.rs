use os4_mm::address::{PhysAddr, PhysPageNum, StepByOne, VPNRange, VirtAddr, VirtPageNum};
use os4_mm::config::{PAGE_SIZE, TRAMPOLINE_VPN, VPN_LIMIT};
use os4_mm::frame_allocator::{frame_alloc, frame_dealloc, StackFrameAllocator};
use os4_mm::heap_allocator::{heap_test, KernelHeap};

#[test]
fn address_floor_offset_reconstruct() {
    let a = VirtAddr(0x1234_5678);
    let floor = a.floor();
    let offset = a.page_offset();
    assert_eq!(floor.0 * PAGE_SIZE + offset, a.0);
    assert!(offset < PAGE_SIZE);
    let p = PhysAddr(0xFFFF_FFFF);
    assert_eq!(p.floor().0 * PAGE_SIZE + p.page_offset(), p.0);
}

#[test]
fn address_ceil_cases() {
    assert_eq!(VirtAddr(0).ceil().0, 0);
    assert_eq!(VirtAddr(1).ceil().0, 1);
    assert_eq!(VirtAddr(4096).ceil().0, 1);
    assert_eq!(VirtAddr(4097).ceil().0, 2);
    assert_eq!(VirtAddr(8192).floor().0, 2);
    assert_eq!(VirtAddr(8191).floor().0, 1);
}

#[test]
fn phys_addr_from_ppn_and_offset() {
    let pa = PhysAddr::getPhaddrByOffset(PhysPageNum(2), 5);
    assert_eq!(pa.0, 2 * PAGE_SIZE + 5);
    assert_eq!(pa.floor().0, 2);
    assert_eq!(pa.page_offset(), 5);
}

#[test]
fn step_and_range() {
    let mut v = VirtPageNum(7);
    v.step();
    assert_eq!(v.0, 8);
    let mut p = PhysPageNum(0);
    p.step();
    assert_eq!(p.0, 1);
    let r = VPNRange::new(VirtPageNum(3), VirtPageNum(9));
    assert_eq!(r.get_start().0, 3);
    assert_eq!(r.get_end().0, 9);
    assert_eq!(r.len(), 6);
    assert!(TRAMPOLINE_VPN < VPN_LIMIT);
}

#[test]
fn frame_exhaustion_and_reuse() {
    let mut fa = StackFrameAllocator::new(PhysPageNum(10), PhysPageNum(13));
    let f0 = frame_alloc(&mut fa).expect("first frame");
    let f1 = frame_alloc(&mut fa).expect("second frame");
    let f2 = frame_alloc(&mut fa).expect("third frame");
    assert_eq!(f0.ppn.0, 10);
    assert_eq!(f1.ppn.0, 11);
    assert_eq!(f2.ppn.0, 12);
    // the pool held exactly three frames: the fourth request fails
    assert!(frame_alloc(&mut fa).is_none());
    // releasing one frame makes allocation succeed again, and the just-
    // released frame is the one handed back
    frame_dealloc(&mut fa, f1);
    let again = frame_alloc(&mut fa).expect("frame after release");
    assert_eq!(again.ppn.0, 11);
    assert!(frame_alloc(&mut fa).is_none());
}

#[test]
fn frame_allocator_methods() {
    let mut fa = StackFrameAllocator::new(PhysPageNum(100), PhysPageNum(102));
    let a = fa.alloc_frame().expect("frame");
    assert_eq!(a.ppn.0, 100);
    fa.dealloc(a);
    let b = fa.alloc_frame().expect("frame");
    assert_eq!(b.ppn.0, 100);
}

#[test]
fn heap_bootstrap_scenario() {
    let base: u64 = 0x8000_0000;
    let mut heap = KernelHeap::init(base, os4_mm::config::KERNEL_HEAP_SIZE);
    // a single integer-sized object: written, then read back unchanged
    let a = heap.alloc_bytes(8, 8).expect("word allocation");
    assert!(base <= a && a + 8 <= base + heap.size);
    heap.store(a, 5);
    assert_eq!(heap.load(a), 5);
    // five hundred sequential words, read back in order
    let buf = heap.alloc_bytes(500 * 8, 8).expect("buffer allocation");
    assert!(base <= buf && buf + 500 * 8 <= base + heap.size);
    for i in 0..500u64 {
        heap.store(buf + 8 * i, i);
    }
    for i in 0..500u64 {
        assert_eq!(heap.load(buf + 8 * i), i);
    }
}

#[test]
fn heap_test_runs() {
    let mut heap = KernelHeap::init(0x100, 8192);
    heap_test(&mut heap);
}

#[test]
fn heap_exhaustion_is_reported() {
    let mut heap = KernelHeap::init(0x1000, 16);
    assert!(heap.alloc_bytes(8, 8).is_some());
    assert!(heap.alloc_bytes(8, 8).is_some());
    assert!(heap.alloc_bytes(8, 8).is_none());
}
