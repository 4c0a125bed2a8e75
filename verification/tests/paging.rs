use os4_mm::address::{PhysPageNum, VirtAddr, VirtPageNum};
use os4_mm::config::{PAGE_SIZE, SATP_MODE_SV39, TRAMPOLINE_VPN};
use os4_mm::frame_allocator::StackFrameAllocator;
use os4_mm::memory_set::{KernelLayout, MapPermission, MemorySet, Segment};
use os4_mm::page_table::{
    translate_single_object, translated_byte_buffer, PTEFlags, PageTable, PageTableEntry, PTE_R,
    PTE_U, PTE_V, PTE_W, PTE_X,
};
use os4_mm::remap_test;

fn big_pool() -> StackFrameAllocator {
    StackFrameAllocator::new(PhysPageNum(0x1000), PhysPageNum(0x9000))
}

#[test]
fn pte_bit_layout_is_exact() {
    let e = PageTableEntry::new(PhysPageNum(0x12345), PTEFlags::from_bits(PTE_V | PTE_R | PTE_W));
    // flags in bits 0-7, physical page number in bits 10-53
    assert_eq!(e.bits, (0x12345u64 << 10) | 0x07);
    assert_eq!(e.bits, 0x48D_1407);
    assert_eq!(e.ppn().0, 0x12345);
    assert_eq!(e.flags().bits, 0x07);
    assert!(e.is_valid());
    assert!(e.readable());
    assert!(e.writable());
    assert!(!e.executable());
    let z = PageTableEntry::empty();
    assert_eq!(z.bits, 0);
    assert!(!z.is_valid());
}

#[test]
fn token_round_trip() {
    let mut fa = big_pool();
    let pt = PageTable::new_bare(&mut fa);
    let token = pt.token();
    assert_eq!(token, (SATP_MODE_SV39 << 60) | pt.root_ppn);
    let view = PageTable::from_token(token);
    assert_eq!(view.root_ppn, pt.root_ppn);
    // a bare view owns nothing and resolves nothing by itself
    assert!(view.translate(VirtPageNum(0)).is_none());
}

#[test]
fn map_translate_unmap_round_trip() {
    let mut fa = big_pool();
    let mut pt = PageTable::new_bare(&mut fa);
    let vpn = VirtPageNum(0x12345);
    let ppn = PhysPageNum(0x678);
    let flags = PTEFlags::from_bits(PTE_R | PTE_W | PTE_U);
    assert!(pt.translate(vpn).is_none());
    pt.map(&mut fa, vpn, ppn, flags);
    let e = pt.translate(vpn).expect("mapped page translates");
    assert_eq!(e.ppn().0, 0x678);
    assert_eq!(e.flags().bits, PTE_R | PTE_W | PTE_U | PTE_V);
    // a neighbouring page is untouched
    assert!(pt.translate(VirtPageNum(0x12346)).is_none());
    pt.unmap(vpn);
    assert!(pt.translate(vpn).is_none());
}

fn sample_layout() -> KernelLayout {
    KernelLayout {
        stext: 0x1000,
        etext: 0x2000,
        srodata: 0x2000,
        erodata: 0x3000,
        sdata: 0x3000,
        edata: 0x4000,
        sbss: 0x4000,
        ebss: 0x5000,
        memory_end: 0x8000,
        strampoline: 0x1000,
    }
}

#[test]
fn kernel_identity_mapping() {
    let mut fa = big_pool();
    let ms = MemorySet::new_kernel(&mut fa, sample_layout());
    // every section page translates to itself with its section's rights
    let text = ms.page_table.translate(VirtPageNum(1)).expect("text mapped");
    assert_eq!(text.ppn().0, 1);
    assert_eq!(text.flags().bits, PTE_R | PTE_X | PTE_V);
    let rodata = ms.page_table.translate(VirtPageNum(2)).expect("rodata mapped");
    assert_eq!(rodata.ppn().0, 2);
    assert_eq!(rodata.flags().bits, PTE_R | PTE_V);
    let data = ms.page_table.translate(VirtPageNum(3)).expect("data mapped");
    assert_eq!(data.ppn().0, 3);
    assert_eq!(data.flags().bits, PTE_R | PTE_W | PTE_V);
    let bss = ms.page_table.translate(VirtPageNum(4)).expect("bss mapped");
    assert_eq!(bss.ppn().0, 4);
    // the rest of physical memory is identity-mapped read-write
    let frame = ms.page_table.translate(VirtPageNum(6)).expect("free memory mapped");
    assert_eq!(frame.ppn().0, 6);
    assert_eq!(frame.flags().bits, PTE_R | PTE_W | PTE_V);
    // the trampoline page is mapped at the very top, to the trampoline code
    let tramp = ms.page_table.translate(VirtPageNum(TRAMPOLINE_VPN)).expect("trampoline");
    assert_eq!(tramp.ppn().0, 1);
    assert_eq!(tramp.flags().bits, PTE_R | PTE_X | PTE_V);
    // beyond the mapped image nothing translates
    assert!(ms.page_table.translate(VirtPageNum(0x999)).is_none());
    remap_test(&ms, sample_layout());
}

#[test]
fn elf_loading_layout() {
    let mut fa = big_pool();
    let segments = vec![
        Segment { start_va: 0x10000, end_va: 0x11000, perm: MapPermission::from_bits(0x0A) },
        Segment { start_va: 0x11000, end_va: 0x12000, perm: MapPermission::from_bits(0x06) },
    ];
    let (ms, entry, stack_top, heap_base) =
        MemorySet::from_elf(&mut fa, &segments, 0x10000, PhysPageNum(7));
    // the entry point is the image's declared entry address
    assert_eq!(entry, 0x10000);
    // the user stack top is page-aligned, two pages above the guard page
    assert_eq!(stack_top % PAGE_SIZE, 0);
    assert_eq!(stack_top, 0x15 * PAGE_SIZE);
    assert_eq!(heap_base, stack_top);
    // code: user-accessible read-execute; data: user-accessible read-write
    let code = ms.page_table.translate(VirtPageNum(0x10)).expect("code mapped");
    assert_eq!(code.flags().bits, 0x0A | PTE_U | PTE_V);
    let data = ms.page_table.translate(VirtPageNum(0x11)).expect("data mapped");
    assert_eq!(data.flags().bits, 0x06 | PTE_U | PTE_V);
    // the guard page below the stack is unmapped
    assert!(ms.page_table.translate(VirtPageNum(0x12)).is_none());
    // the stack pages themselves are mapped read-write for the user
    let stack = ms.page_table.translate(VirtPageNum(0x13)).expect("stack mapped");
    assert_eq!(stack.flags().bits, PTE_R | PTE_W | PTE_U | PTE_V);
    assert!(ms.page_table.translate(VirtPageNum(0x14)).is_some());
    assert!(ms.page_table.translate(VirtPageNum(0x15)).is_none());
}

#[test]
fn byte_buffer_spans_pages() {
    let mut fa = big_pool();
    let mut ms = MemorySet::new_bare(&mut fa);
    ms.push_area(
        &mut fa,
        VirtPageNum(0x10),
        VirtPageNum(0x12),
        os4_mm::memory_set::MapType::Framed,
        MapPermission::from_bits(0x06),
    );
    let spans = translated_byte_buffer(&ms.page_table, 0x10800, 0x1000, false)
        .expect("buffer resolves");
    assert_eq!(spans.len(), 2);
    let p0 = ms.page_table.translate(VirtPageNum(0x10)).unwrap().ppn().0;
    let p1 = ms.page_table.translate(VirtPageNum(0x11)).unwrap().ppn().0;
    assert_eq!(spans[0].ppn, p0);
    assert_eq!(spans[0].start, 0x800);
    assert_eq!(spans[0].end, 0x1000);
    assert_eq!(spans[1].ppn, p1);
    assert_eq!(spans[1].start, 0);
    assert_eq!(spans[1].end, 0x800);
    // an unmapped page anywhere in the range is a page fault
    assert!(translated_byte_buffer(&ms.page_table, 0x11800, 0x1000, false).is_none());
    // writes are allowed here; an empty buffer is trivially fine
    assert!(translated_byte_buffer(&ms.page_table, 0x10800, 0x1000, true).is_some());
    assert_eq!(translated_byte_buffer(&ms.page_table, 0x10800, 0, true).unwrap().len(), 0);
}

#[test]
fn byte_buffer_checks_write_permission() {
    let mut fa = big_pool();
    let mut ms = MemorySet::new_bare(&mut fa);
    // read-only area: reads resolve, writes fault
    ms.push_area(
        &mut fa,
        VirtPageNum(0x20),
        VirtPageNum(0x21),
        os4_mm::memory_set::MapType::Framed,
        MapPermission::from_bits(0x02),
    );
    assert!(translated_byte_buffer(&ms.page_table, 0x20000, 16, false).is_some());
    assert!(translated_byte_buffer(&ms.page_table, 0x20000, 16, true).is_none());
}

#[test]
fn single_object_translation() {
    let mut fa = big_pool();
    let mut ms = MemorySet::new_bare(&mut fa);
    ms.push_area(
        &mut fa,
        VirtPageNum(0x10),
        VirtPageNum(0x11),
        os4_mm::memory_set::MapType::Framed,
        MapPermission::from_bits(0x06),
    );
    let ppn = ms.page_table.translate(VirtPageNum(0x10)).unwrap().ppn().0;
    let pa = translate_single_object(&ms.page_table, 0x10010, 16, true).expect("object resolves");
    assert_eq!(pa.0, ppn * PAGE_SIZE + 0x10);
    // an object straddling the page boundary is rejected
    assert!(translate_single_object(&ms.page_table, 0x10FFC, 16, true).is_none());
    // an unmapped page is a page fault
    assert!(translate_single_object(&ms.page_table, 0x11010, 16, true).is_none());
}

#[test]
fn insert_and_remove_area() {
    let mut fa = big_pool();
    let mut ms = MemorySet::new_bare(&mut fa);
    let r = ms.insert_framed_area(
        &mut fa,
        VirtAddr(0x30000),
        VirtAddr(0x32000),
        MapPermission::from_bits(0x06),
    );
    assert_eq!(r, 0);
    assert!(ms.page_table.translate(VirtPageNum(0x30)).is_some());
    // overlapping insertion reports a mapping conflict
    let conflict = ms.insert_framed_area(
        &mut fa,
        VirtAddr(0x31000),
        VirtAddr(0x33000),
        MapPermission::from_bits(0x06),
    );
    assert_eq!(conflict, -1);
    // removing the area by its start page clears its pages
    assert_eq!(ms.remove_area_with_start_vpn(&mut fa, VirtPageNum(0x30)), 0);
    assert!(ms.page_table.translate(VirtPageNum(0x30)).is_none());
    assert!(ms.page_table.translate(VirtPageNum(0x31)).is_none());
    // removing it again fails
    assert_eq!(ms.remove_area_with_start_vpn(&mut fa, VirtPageNum(0x30)), -1);
}

#[test]
fn framed_pages_name_their_owned_frames() {
    let mut fa = big_pool();
    let mut ms = MemorySet::new_bare(&mut fa);
    ms.push_area(
        &mut fa,
        VirtPageNum(0x40),
        VirtPageNum(0x43),
        os4_mm::memory_set::MapType::Framed,
        MapPermission::from_bits(0x06),
    );
    let area = ms.areas.last().expect("the new area");
    for k in 0..3u64 {
        let e = ms.page_table.translate(VirtPageNum(0x40 + k)).expect("mapped");
        // each page translates to exactly the frame the area owns for it
        assert_eq!(e.ppn().0, area.data_frames[k as usize].ppn.0);
        // and the raw entry is the frame number shifted past the two
        // reserved bits plus the flag byte, bit-for-bit
        assert_eq!(e.bits, (area.data_frames[k as usize].ppn.0 << 10) | 0x07);
    }
}

#[test]
fn oversized_objects_and_buffers_fault() {
    let mut fa = big_pool();
    let mut ms = MemorySet::new_bare(&mut fa);
    ms.push_area(
        &mut fa,
        VirtPageNum(0x10),
        VirtPageNum(0x11),
        os4_mm::memory_set::MapType::Framed,
        MapPermission::from_bits(0x06),
    );
    // an object larger than a page always straddles
    assert!(translate_single_object(&ms.page_table, 0x10000, PAGE_SIZE + 1, false).is_none());
    // a buffer reaching past the 39-bit space is a fault, not a panic
    assert!(translated_byte_buffer(&ms.page_table, u64::MAX - 16, 32, false).is_none());
    assert!(translated_byte_buffer(&ms.page_table, 1u64 << 39, 16, false).is_none());
}
