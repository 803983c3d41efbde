use kernel_paging::allocator::RangeFrameAllocator;
use kernel_paging::frame::{Frame, FrameAllocator, PAGE_SIZE};
use kernel_paging::mapper::MapError;
use kernel_paging::page::Page;
use kernel_paging::paging::{
    remap_kernel, ActivePageTable, BootInfo, SectionInfo, TemporaryPage, InactivePageTable,
};
use kernel_paging::table::{
    flags_from_section, FLAG_NO_EXECUTE, FLAG_PRESENT, FLAG_WRITABLE,
};

#[test]
fn containing_address_brackets() {
    let f = Frame::containing_address(5000);
    assert_eq!(f.index, 1);
    let start = f.start_address();
    assert!(start <= 5000);
    assert!(5000 < start + PAGE_SIZE);
}

#[test]
fn frame_roundtrip() {
    let f = Frame::containing_address(3 * PAGE_SIZE + 17);
    assert_eq!(f.index, 3);
    let start = f.start_address();
    let g = Frame::containing_address(start);
    assert_eq!(g, f);
}

#[test]
fn range_inclusive_single() {
    let a = Frame::containing_address(7 * PAGE_SIZE);
    let b = Frame::containing_address(7 * PAGE_SIZE);
    let mut it = Frame::range_inclusive(a, b);
    let first = it.next();
    assert_eq!(first, Some(Frame { index: 7 }));
    assert_eq!(it.next(), None);
}

#[test]
fn range_inclusive_reversed_is_empty() {
    let lo = Frame { index: 3 };
    let hi = Frame { index: 9 };
    let mut it = Frame::range_inclusive(hi, lo);
    assert_eq!(it.next(), None);
}

#[test]
fn range_inclusive_walks_span() {
    let mut it = Frame::range_inclusive(Frame { index: 10 }, Frame { index: 12 });
    assert_eq!(it.next(), Some(Frame { index: 10 }));
    assert_eq!(it.next(), Some(Frame { index: 11 }));
    assert_eq!(it.next(), Some(Frame { index: 12 }));
    assert_eq!(it.next(), None);
}

#[test]
fn page_indices() {
    let p = Page::new(0o777_777_777_777u64 & !0o777);
    assert_eq!(p.p4_index(), 511);
    assert_eq!(p.p3_index(), 511);
    assert_eq!(p.p2_index(), 511);
    assert_eq!(p.p1_index(), 0);
    let q = Page::containing_address(0xb8000);
    assert_eq!(q.index, 0xb8);
}

#[test]
fn section_flag_derivation() {
    assert_eq!(
        flags_from_section(true, false),
        FLAG_WRITABLE | FLAG_NO_EXECUTE
    );
    assert_eq!(flags_from_section(false, true), 0);
    assert_eq!(flags_from_section(true, true), FLAG_WRITABLE);
    assert_eq!(flags_from_section(false, false), FLAG_NO_EXECUTE);
}

#[test]
fn map_to_then_translate() {
    let mut active = ActivePageTable::new(Frame { index: 2 });
    let mut alloc = RangeFrameAllocator::new(100, 200);
    let page = Page::new(42);
    let res = active.mapper.map_to(page, Frame { index: 7 }, FLAG_WRITABLE, &mut alloc);
    assert_eq!(res, Ok(()));
    let phys = active.mapper.translate(42 * PAGE_SIZE + 123);
    assert_eq!(phys, Some(7 * PAGE_SIZE + 123));
    assert_eq!(active.mapper.translate(41 * PAGE_SIZE), None);
}

#[test]
fn unmap_returns_frame_to_allocator() {
    let mut active = ActivePageTable::new(Frame { index: 2 });
    let mut alloc = RangeFrameAllocator::new(100, 103);
    let page = Page::new(42);
    assert_eq!(
        active.mapper.map_to(page, Frame { index: 7 }, FLAG_WRITABLE, &mut alloc),
        Ok(())
    );
    assert!(active.mapper.translate(42 * PAGE_SIZE).is_some());
    active.mapper.unmap(page, &mut alloc);
    assert_eq!(active.mapper.translate(42 * PAGE_SIZE), None);
    // The freed frame is re-issuable by the very next allocation.
    let back = alloc.alloc_frame();
    assert_eq!(back, Some(Frame { index: 7 }));
}

#[test]
fn map_to_present_page_fails_and_changes_nothing() {
    let mut active = ActivePageTable::new(Frame { index: 2 });
    let mut alloc = RangeFrameAllocator::new(100, 200);
    let page = Page::new(42);
    assert_eq!(
        active.mapper.map_to(page, Frame { index: 7 }, FLAG_WRITABLE, &mut alloc),
        Ok(())
    );
    let second = active.mapper.map_to(page, Frame { index: 8 }, FLAG_WRITABLE, &mut alloc);
    assert_eq!(second, Err(MapError::AlreadyInUse));
    // The original mapping is unchanged after the failed attempt.
    assert_eq!(
        active.mapper.translate(42 * PAGE_SIZE),
        Some(7 * PAGE_SIZE)
    );
}

#[test]
fn map_fails_when_exhausted() {
    let mut active = ActivePageTable::new(Frame { index: 2 });
    let mut alloc = RangeFrameAllocator::new(100, 100);
    let page = Page::new(42);
    let res = active.mapper.map_to(page, Frame { index: 7 }, FLAG_WRITABLE, &mut alloc);
    assert_eq!(res, Err(MapError::FrameExhausted));
    assert_eq!(active.mapper.translate(42 * PAGE_SIZE), None);
}

#[test]
fn identity_map_maps_frame_at_own_index() {
    let mut active = ActivePageTable::new(Frame { index: 2 });
    let mut alloc = RangeFrameAllocator::new(100, 200);
    let res = active.mapper.identity_map(Frame { index: 0xb8 }, FLAG_WRITABLE, &mut alloc);
    assert_eq!(res, Ok(()));
    assert_eq!(active.mapper.translate(0xb8000), Some(0xb8000));
}

#[test]
fn inactive_table_is_built_through_temporary_page() {
    let mut active = ActivePageTable::new(Frame { index: 2 });
    let mut alloc = RangeFrameAllocator::new(100, 200);
    let mut scratch = TemporaryPage::new(Page::new(0xabadcafe), &mut alloc);
    let frame = alloc.alloc_frame().unwrap();
    let idx = frame.index;
    let table: InactivePageTable = InactivePageTable::new(frame, &mut active, &mut scratch);
    assert_eq!(table.p4_frame.index, idx);
    // The scratch page is unmapped again afterwards.
    assert_eq!(active.mapper.translate(0xabadcafe * PAGE_SIZE), None);
}

#[test]
fn remap_one_section_kernel() {
    // A one-section kernel at frames [10, 12], a boot-info block at frame 5,
    // free frames [100, 200), and the old top-level table in frame 2.
    let active = ActivePageTable::new(Frame { index: 2 });
    let mut alloc = RangeFrameAllocator::new(100, 200);
    let boot = BootInfo {
        sections: vec![SectionInfo {
            start: 10 * PAGE_SIZE,
            size: 3 * PAGE_SIZE,
            allocated: true,
            writable: true,
            executable: false,
        }],
        multiboot_start: 5 * PAGE_SIZE,
        multiboot_end: 6 * PAGE_SIZE,
    };
    let table = remap_kernel(active, &mut alloc, &boot).unwrap();
    // The kernel's frames are identity mapped.
    assert_eq!(table.mapper.translate(10 * PAGE_SIZE), Some(10 * PAGE_SIZE));
    assert_eq!(table.mapper.translate(11 * PAGE_SIZE + 5), Some(11 * PAGE_SIZE + 5));
    assert_eq!(table.mapper.translate(12 * PAGE_SIZE), Some(12 * PAGE_SIZE));
    // So are the boot-info block and the display buffer.
    assert_eq!(table.mapper.translate(5 * PAGE_SIZE), Some(5 * PAGE_SIZE));
    assert_eq!(table.mapper.translate(0xb8000), Some(0xb8000));
    // The page of the pre-remap top-level table is unmapped: a guard page.
    assert_eq!(table.mapper.translate(2 * PAGE_SIZE), None);
    // Nothing else is mapped.
    assert_eq!(table.mapper.translate(50 * PAGE_SIZE), None);
    assert_eq!(table.mapper.translate(13 * PAGE_SIZE), None);
}

#[test]
fn remap_guards_even_a_mapped_old_table() {
    // The old top-level table lives inside the kernel image: its page is
    // first identity mapped, then turned into the guard page.
    let active = ActivePageTable::new(Frame { index: 11 });
    let mut alloc = RangeFrameAllocator::new(100, 200);
    let boot = BootInfo {
        sections: vec![SectionInfo {
            start: 10 * PAGE_SIZE,
            size: 3 * PAGE_SIZE,
            allocated: true,
            writable: true,
            executable: false,
        }],
        multiboot_start: 5 * PAGE_SIZE,
        multiboot_end: 6 * PAGE_SIZE,
    };
    let table = remap_kernel(active, &mut alloc, &boot).unwrap();
    assert_eq!(table.mapper.translate(10 * PAGE_SIZE), Some(10 * PAGE_SIZE));
    assert_eq!(table.mapper.translate(12 * PAGE_SIZE), Some(12 * PAGE_SIZE));
    assert_eq!(table.mapper.translate(11 * PAGE_SIZE), None);
}

#[test]
fn remap_skips_unallocated_sections() {
    let active = ActivePageTable::new(Frame { index: 2 });
    let mut alloc = RangeFrameAllocator::new(100, 200);
    let boot = BootInfo {
        sections: vec![
            SectionInfo {
                start: 10 * PAGE_SIZE,
                size: PAGE_SIZE,
                allocated: true,
                writable: false,
                executable: true,
            },
            SectionInfo {
                start: 20 * PAGE_SIZE,
                size: PAGE_SIZE,
                allocated: false,
                writable: true,
                executable: false,
            },
        ],
        multiboot_start: 5 * PAGE_SIZE,
        multiboot_end: 6 * PAGE_SIZE,
    };
    let table = remap_kernel(active, &mut alloc, &boot).unwrap();
    assert_eq!(table.mapper.translate(10 * PAGE_SIZE), Some(10 * PAGE_SIZE));
    assert_eq!(table.mapper.translate(20 * PAGE_SIZE), None);
}
