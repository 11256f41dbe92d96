use earlyboot::boot::{BootInformation, ElfSection, MemoryArea};
use earlyboot::mem::paging::entry::{EntryFlags, NO_EXECUTE, PRESENT, WRITABLE};
use earlyboot::mem::paging::tpage::TemporaryPage;
use earlyboot::mem::paging::{
    is_mappable, is_planned, remap_kernel, try_remap_kernel, ActivePageTable, InactivePageTable,
    MapError, Mapper,
    Page,
};
use earlyboot::mem::{init, kernel_bounds, try_init, AreaFrameAllocator, Frame, FrameAllocator};

fn boot_table() -> ActivePageTable {
    ActivePageTable::new(Frame { number: 1 }, Frame { number: 2 }, Frame { number: 3 })
}

fn allocator(first_frame: u64, frames: u64) -> AreaFrameAllocator {
    AreaFrameAllocator::new(
        0x0,
        0xffff,
        0x10000,
        0x10fff,
        vec![MemoryArea { base_addr: first_frame * 4096, length: frames * 4096 }],
    )
}

fn scratch() -> Page {
    Page { number: 0xcafebabe }
}

fn sections() -> Vec<ElfSection> {
    vec![
        ElfSection { addr: 0x0, size: 0x8000, flags: 0x2 | 0x4 },
        ElfSection { addr: 0x8000, size: 0x2800, flags: 0x2 | 0x1 },
        ElfSection { addr: 0x50000, size: 0x4000, flags: 0x0 },
        ElfSection { addr: 0xb000, size: 0x1000, flags: 0x2 },
        ElfSection { addr: 0xc000, size: 0x0, flags: 0x2 },
    ]
}

fn boot_info(areas: Vec<MemoryArea>) -> BootInformation {
    BootInformation {
        start: 0x20000,
        end: 0x20c00,
        memory_map: Some(areas),
        elf_sections: Some(sections()),
    }
}

#[test]
fn temporary_page_maps_and_unmaps() {
    let mut active = boot_table();
    let mut allocator = allocator(0x100, 16);
    let mut temporary = TemporaryPage::new(scratch(), &mut allocator);
    assert_eq!(allocator.allocate_frame(), Some(Frame { number: 0x103 }));
    assert_eq!(active.deref().translate_page(scratch()), None);
    let address = temporary.map(Frame { number: 0x77 }, &mut active);
    assert_eq!(address, 0xcafe_babe_000);
    assert_eq!(active.deref().translate_page(scratch()), Some(Frame { number: 0x77 }));
    assert_eq!(active.deref().translate(0xcafe_babe_010), Some(0x77010));
    temporary.unmap(&mut active);
    assert_eq!(active.deref().translate_page(scratch()), None);
    let window = temporary.map_table_frame(Frame { number: 0x78 }, &mut active);
    assert_eq!(window, scratch());
    assert_eq!(active.deref().translate_page(scratch()), Some(Frame { number: 0x78 }));
    assert_eq!(allocator.allocate_frame(), Some(Frame { number: 0x104 }));
    assert_eq!(active.deref().translate(0x5000), Some(0x5000));
}

#[test]
fn temporary_page_stock_covers_the_missing_tables() {
    let mut active = boot_table();
    let mut short = allocator(0x100, 2);
    let poor = TemporaryPage::new(scratch(), &mut short);
    assert_eq!(poor.stock(), 2);
    assert_eq!(active.deref().missing(scratch()), 3);
    assert!(poor.stock() < active.deref().missing(scratch()));
    let mut allocator = allocator(0x200, 8);
    let mut temporary = TemporaryPage::new(scratch(), &mut allocator);
    assert_eq!(temporary.stock(), 3);
    temporary.map(Frame { number: 0x77 }, &mut active);
    assert_eq!(temporary.stock(), 0);
    assert_eq!(active.deref().missing(scratch()), 0);
    temporary.unmap(&mut active);
    assert_eq!(active.deref().missing(scratch()), 0);
    temporary.map(Frame { number: 0x78 }, &mut active);
    assert_eq!(temporary.stock(), 0);
    assert_eq!(active.deref().translate_page(scratch()), Some(Frame { number: 0x78 }));
}

#[test]
fn temporary_page_stock_is_filled_in_the_order_of_allocation() {
    let mut active = boot_table();
    let mut allocator = allocator(0x100, 8);
    let mut temporary = TemporaryPage::new(scratch(), &mut allocator);
    temporary.map(Frame { number: 0x77 }, &mut active);
    let mapper = active.deref();
    let p3 = mapper.next_table(&mapper.table_base(), scratch().p4_index()).unwrap();
    let p2 = mapper.next_table(&p3, scratch().p3_index()).unwrap();
    let p1 = mapper.next_table(&p2, scratch().p2_index()).unwrap();
    assert_eq!((p3.number, p2.number, p1.number), (0x100, 0x101, 0x102));
}

#[test]
fn missing_tables_are_counted() {
    let mut active = boot_table();
    let mut allocator = allocator(0x100, 8);
    assert_eq!(active.deref().missing(Page { number: 5 }), 1);
    assert_eq!(active.deref().missing(Page { number: 0x4_0000 }), 2);
    assert_eq!(active.deref().missing(Page { number: 1 << 27 }), 3);
    active
        .deref_mut()
        .map_to(Page { number: 0x4_0000 }, Frame { number: 9 }, EntryFlags::empty(), &mut allocator);
    assert_eq!(active.deref().missing(Page { number: 0x4_0000 }), 0);
    assert_eq!(active.deref().missing(Page { number: 0x4_0001 }), 0);
    assert_eq!(active.deref().missing(Page { number: 0x4_0200 }), 1);
}

#[test]
fn fresh_hierarchy_maps_nothing() {
    let mut active = boot_table();
    let mut allocator = allocator(0x100, 16);
    let mut temporary = TemporaryPage::new(scratch(), &mut allocator);
    let frame = allocator.allocate_frame().unwrap();
    let mut table = InactivePageTable::new(frame, &mut active, &mut temporary);
    assert_eq!(table.p4_frame(), Frame { number: 0x103 });
    assert_eq!(active.deref().translate_page(scratch()), None);
    assert_eq!(active.deref().translate(0x3000), Some(0x3000));
    let mut seen = Vec::new();
    active.with(&mut table, &mut temporary, |mapper| {
        for address in [0u64, 0x1000, 0x3000, 0xb8000, 0x3fff_ffff, 0x4000_0000, 0x7fff_ffff_f000] {
            seen.push(mapper.translate(address));
        }
        seen.push(mapper.translate(0xffff_8000_0000_0000));
        seen.push(mapper.translate(0xcafe_babe_000));
    });
    assert_eq!(seen, vec![None; 9]);
    assert_eq!(active.deref().translate(0x3000), Some(0x3000));
    assert_eq!(active.deref().translate_page(scratch()), None);
}

#[test]
fn with_edits_the_inactive_hierarchy_only() {
    let mut active = boot_table();
    let mut allocator = allocator(0x100, 32);
    let mut temporary = TemporaryPage::new(scratch(), &mut allocator);
    let frame = allocator.allocate_frame().unwrap();
    let mut table = InactivePageTable::new(frame, &mut active, &mut temporary);
    let page = Page::containing(0x6000_0000);
    let low = Page::containing(0x5000);
    active.with(&mut table, &mut temporary, |mapper: &mut Mapper| {
        assert_eq!(mapper.table_base(), Frame { number: 1 });
        assert_eq!(mapper.p4().leads_to(511), Some(Frame { number: 0x103 }));
        mapper.map_to(page, Frame { number: 0x99 }, EntryFlags::empty(), &mut allocator);
        mapper.identity_map(Frame { number: 5 }, EntryFlags::empty(), &mut allocator);
        assert_eq!(mapper.translate_page(page), Some(Frame { number: 0x99 }));
        assert_eq!(mapper.translate_page(low), Some(Frame { number: 5 }));
        assert_eq!(mapper.translate(0x6000), None);
    });
    assert_eq!(active.deref().p4().leads_to(511), Some(Frame { number: 1 }));
    assert_eq!(active.deref().translate_page(page), None);
    assert_eq!(active.deref().translate(0x6000), Some(0x6000));
    let old = active.switch(table);
    assert_eq!(old.p4_frame(), Frame { number: 1 });
    assert_eq!(active.deref().table_base(), Frame { number: 0x103 });
    assert_eq!(active.deref().translate_page(page), Some(Frame { number: 0x99 }));
    assert_eq!(active.deref().translate(0x5123), Some(0x5123));
    assert_eq!(active.deref().translate(0x6000), None);
    let back = active.switch(old);
    assert_eq!(back.p4_frame(), Frame { number: 0x103 });
    assert_eq!(active.deref().translate(0x6000), Some(0x6000));
    assert_eq!(active.deref().translate_page(page), None);
}

#[test]
fn remap_kernel_maps_the_kernel_to_itself() {
    let mut allocator = AreaFrameAllocator::new(
        0x0,
        0xc000,
        0x20000,
        0x20c00,
        vec![MemoryArea { base_addr: 0x100000, length: 0x100000 }],
    );
    let info = boot_info(vec![MemoryArea { base_addr: 0x100000, length: 0x100000 }]);
    let table = remap_kernel(boot_table(), &mut allocator, &info);
    let mapper = table.deref();
    assert_eq!(mapper.table_base(), Frame { number: 0x103 });
    assert_eq!(mapper.p4().leads_to(511), Some(Frame { number: 0x103 }));
    for frame in [0u64, 2, 3, 4, 5, 6, 7, 8, 9, 10, 11, 0xb8, 0x20] {
        for offset in [0u64, 0x10, 0xfff] {
            let address = frame * 4096 + offset;
            assert_eq!(mapper.translate(address), Some(address));
        }
    }
    assert_eq!(mapper.translate(0x1000), None);
    assert_eq!(mapper.translate(0x1fff), None);
    for address in [0xc000u64, 0xd000, 0x21000, 0x50000, 0xb7fff, 0xb9000, 0x100000, 0x3fff_f000] {
        assert_eq!(mapper.translate(address), None);
    }
    assert_eq!(mapper.translate_page(Page { number: 0xcafebabe }), None);
    let next = allocator.allocate_frame().unwrap();
    assert_eq!(next.number, 0x107);
}

fn leaf_bits(mapper: &Mapper, page: Page) -> u64 {
    let p3 = mapper.next_table(&mapper.table_base(), page.p4_index()).unwrap();
    let p2 = mapper.next_table(&p3, page.p3_index()).unwrap();
    let p1 = mapper.next_table(&p2, page.p2_index()).unwrap();
    mapper.table_at(&p1).unwrap().entry(page.p1_index()).0
}

#[test]
fn remap_kernel_sets_the_flags_of_each_part() {
    let mut allocator = AreaFrameAllocator::new(
        0x0,
        0xc000,
        0x20000,
        0x20c00,
        vec![MemoryArea { base_addr: 0x100000, length: 0x100000 }],
    );
    let info = boot_info(Vec::new());
    let table = remap_kernel(boot_table(), &mut allocator, &info);
    let mapper = table.deref();
    assert_eq!(leaf_bits(mapper, Page { number: 0 }), PRESENT);
    assert_eq!(leaf_bits(mapper, Page { number: 7 }), (7 << 12) | PRESENT);
    assert_eq!(leaf_bits(mapper, Page { number: 8 }), (8 << 12) | PRESENT | WRITABLE | NO_EXECUTE);
    assert_eq!(leaf_bits(mapper, Page { number: 10 }), (10 << 12) | PRESENT | WRITABLE | NO_EXECUTE);
    assert_eq!(leaf_bits(mapper, Page { number: 11 }), (11 << 12) | PRESENT | NO_EXECUTE);
    assert_eq!(leaf_bits(mapper, Page { number: 0xb8 }), (0xb8 << 12) | PRESENT | WRITABLE);
    assert_eq!(leaf_bits(mapper, Page { number: 0x20 }), (0x20 << 12) | PRESENT);
    assert_eq!(leaf_bits(mapper, Page { number: 1 }), 0);
    assert_eq!(leaf_bits(mapper, Page { number: 12 }), 0);
    assert!(mapper.table_at(&Frame { number: 0x50 }).is_none());
}

#[test]
fn remap_kernel_without_frames_fails() {
    for frames in 0..7u64 {
        let mut allocator = AreaFrameAllocator::new(
            0x0,
            0xc000,
            0x20000,
            0x20c00,
            vec![MemoryArea { base_addr: 0x100000, length: 0x1000 * frames.max(1) }],
        );
        if frames == 0 {
            allocator.allocate_frame();
        }
        let info = boot_info(Vec::new());
        assert!(matches!(
            try_remap_kernel(boot_table(), &mut allocator, &info),
            Err(MapError::OutOfFrames)
        ));
        assert_eq!(allocator.allocate_frame(), None);
    }
    let mut allocator = AreaFrameAllocator::new(
        0x0,
        0xc000,
        0x20000,
        0x20c00,
        vec![MemoryArea { base_addr: 0x100000, length: 0x7000 }],
    );
    let info = boot_info(Vec::new());
    assert!(try_remap_kernel(boot_table(), &mut allocator, &info).is_ok());
}

#[test]
fn kernel_bounds_are_lowest_start_and_highest_end() {
    assert_eq!(kernel_bounds(&sections()), (0x0, 0xc000));
    let other = vec![
        ElfSection { addr: 0x0, size: 0x100000, flags: 0x0 },
        ElfSection { addr: 0x9000, size: 0x1000, flags: 0x2 },
        ElfSection { addr: 0x3000, size: 0x8000, flags: 0x3 },
    ];
    assert_eq!(kernel_bounds(&other), (0x3000, 0xb000));
}

#[test]
fn init_maps_the_kernel_and_the_heap() {
    let info = boot_info(vec![
        MemoryArea { base_addr: 0x0, length: 0x9f000 },
        MemoryArea { base_addr: 0x100000, length: 0x100000 },
    ]);
    let (table, mut allocator) = init(boot_table(), &info);
    let mapper = table.deref();
    assert_eq!(mapper.translate(0x2000), Some(0x2000));
    assert_eq!(mapper.translate(0x1000), None);
    assert_eq!(mapper.translate(0xb8000), Some(0xb8000));
    assert_eq!(mapper.translate(0x20000), Some(0x20000));
    let mut frames = Vec::new();
    for page in 0..25u64 {
        let address = 0x4000_0000 + page * 4096;
        let physical = mapper.translate(address).unwrap();
        assert_eq!(physical % 4096, 0);
        assert!(physical >= 0x100000 && physical < 0x200000);
        frames.push(physical / 4096);
        assert_eq!(leaf_bits(mapper, Page::containing(address)) & 0xfff, PRESENT | WRITABLE);
    }
    let mut sorted = frames.clone();
    sorted.sort();
    sorted.dedup();
    assert_eq!(sorted.len(), 25);
    assert_eq!(mapper.translate(0x4000_0000 + 25 * 4096), None);
    assert_eq!(mapper.translate(0x3fff_f000), None);
    let next = allocator.allocate_frame().unwrap();
    assert!(!frames.contains(&next.number));
    assert!(next.number > *sorted.last().unwrap());
}

#[test]
fn init_without_memory_fails() {
    let info = boot_info(vec![MemoryArea { base_addr: 0x100000, length: 0x8000 }]);
    assert!(matches!(try_init(boot_table(), &info), Err(MapError::OutOfFrames)));
}

#[test]
fn planned_frames_are_sections_console_and_report() {
    let info = boot_info(Vec::new());
    for n in [0u64, 1, 7, 8, 10, 11, 0xb8, 0x20] {
        assert!(is_planned(&info, n));
    }
    for n in [12u64, 0x1f, 0x21, 0x50, 0x53, 0xb7, 0xb9, 0x4_0000] {
        assert!(!is_planned(&info, n));
    }
}

#[test]
fn mappable_reports() {
    assert!(is_mappable(&boot_info(Vec::new())));
    let mut none = boot_info(Vec::new());
    none.elf_sections = None;
    assert!(!is_mappable(&none));
    let mut unaligned = boot_info(Vec::new());
    unaligned.elf_sections = Some(vec![ElfSection { addr: 0x1800, size: 0x1000, flags: 0x2 }]);
    assert!(!is_mappable(&unaligned));
    let mut unaligned_but_absent = boot_info(Vec::new());
    unaligned_but_absent.elf_sections =
        Some(vec![ElfSection { addr: 0x1800, size: 0x1000, flags: 0x0 }]);
    assert!(is_mappable(&unaligned_but_absent));
    let mut shared = boot_info(Vec::new());
    shared.elf_sections = Some(vec![
        ElfSection { addr: 0x1000, size: 0x1800, flags: 0x2 },
        ElfSection { addr: 0x2000, size: 0x1000, flags: 0x2 },
    ]);
    assert!(!is_mappable(&shared));
    let mut adjacent = boot_info(Vec::new());
    adjacent.elf_sections = Some(vec![
        ElfSection { addr: 0x1000, size: 0x1000, flags: 0x2 },
        ElfSection { addr: 0x2000, size: 0x1000, flags: 0x2 },
    ]);
    assert!(is_mappable(&adjacent));
    let mut over_console = boot_info(Vec::new());
    over_console.elf_sections = Some(vec![ElfSection { addr: 0xb0000, size: 0x9000, flags: 0x2 }]);
    assert!(!is_mappable(&over_console));
    let mut over_report = boot_info(Vec::new());
    over_report.elf_sections = Some(vec![ElfSection { addr: 0x20000, size: 0x1, flags: 0x2 }]);
    assert!(!is_mappable(&over_report));
    let mut report_on_console = boot_info(Vec::new());
    report_on_console.start = 0xb8800;
    report_on_console.end = 0xb8900;
    assert!(!is_mappable(&report_on_console));
    let mut empty_report = boot_info(Vec::new());
    empty_report.end = 0;
    assert!(!is_mappable(&empty_report));
    let mut high = boot_info(Vec::new());
    high.elf_sections = Some(vec![ElfSection { addr: 0x7fff_ffff_f000, size: 0x1001, flags: 0x2 }]);
    assert!(!is_mappable(&high));
    let mut top = boot_info(Vec::new());
    top.elf_sections = Some(vec![ElfSection { addr: 0x7fff_ffff_f000, size: 0x1000, flags: 0x2 }]);
    assert!(is_mappable(&top));
}

#[test]
fn init_needs_a_frame_for_each_table_and_heap_page() {
    let short = boot_info(vec![MemoryArea { base_addr: 0x100000, length: 33 * 0x1000 }]);
    assert!(matches!(try_init(boot_table(), &short), Err(MapError::OutOfFrames)));
    let enough = boot_info(vec![MemoryArea { base_addr: 0x100000, length: 34 * 0x1000 }]);
    let (_, mut allocator) = try_init(boot_table(), &enough).unwrap();
    assert_eq!(allocator.allocate_frame(), None);
}

#[test]
fn remap_kernel_takes_one_frame_for_each_table() {
    let far = BootInformation {
        start: 0x4020_0000,
        end: 0x4020_0001,
        memory_map: None,
        elf_sections: Some(vec![
            ElfSection { addr: 0x0, size: 0x2000, flags: 0x2 },
            ElfSection { addr: 0x20_0000, size: 0x1000, flags: 0x2 },
            ElfSection { addr: 0x80_0000_0000, size: 0x1000, flags: 0x2 },
        ]),
    };
    for frames in [12u64, 13] {
        let mut allocator = AreaFrameAllocator::new(
            0x0,
            0x1fff,
            0x4020_0000,
            0x4020_0001,
            vec![MemoryArea { base_addr: 0x100000, length: frames * 0x1000 }],
        );
        let result = try_remap_kernel(boot_table(), &mut allocator, &far);
        assert_eq!(result.is_ok(), frames == 13);
        assert_eq!(allocator.allocate_frame(), None);
    }
}

#[test]
fn new_top_level_table_holds_the_recursive_slot_alone() {
    let mut active = boot_table();
    let mut allocator = allocator(0x100, 16);
    let mut temporary = TemporaryPage::new(scratch(), &mut allocator);
    let frame = allocator.allocate_frame().unwrap();
    let table = InactivePageTable::new(frame, &mut active, &mut temporary);
    let top = table.p4_frame();
    let entries = active.deref().table_at(&top).unwrap();
    for index in 0..511 {
        assert_eq!(entries.entry(index).0, 0);
    }
    assert_eq!(entries.entry(511).0, (0x103 << 12) | PRESENT | WRITABLE);
}

#[test]
fn with_puts_the_recursive_slot_back() {
    let mut active = boot_table();
    let mut allocator = allocator(0x100, 16);
    let mut temporary = TemporaryPage::new(scratch(), &mut allocator);
    let frame = allocator.allocate_frame().unwrap();
    let mut table = InactivePageTable::new(frame, &mut active, &mut temporary);
    assert_eq!(active.deref().p4().entry(511).0, (1 << 12) | PRESENT | WRITABLE);
    let mut inside = 0;
    active.with(&mut table, &mut temporary, |mapper| {
        inside = mapper.table_at(&Frame { number: 1 }).unwrap().entry(511).0;
    });
    assert_eq!(inside, (0x103 << 12) | PRESENT | WRITABLE);
    assert_eq!(active.deref().p4().entry(511).0, (1 << 12) | PRESENT | WRITABLE);
    assert_eq!(active.deref().table_base(), Frame { number: 1 });
    assert_eq!(table.p4_frame(), Frame { number: 0x103 });
}

#[test]
fn unmap_leaves_the_recursive_window_alone() {
    let mut active = boot_table();
    let mut allocator = allocator(0x100, 16);
    let page = Page { number: 0x6_0000 };
    active.deref_mut().map_to(page, Frame { number: 9 }, EntryFlags::empty(), &mut allocator);
    let windows = [
        Page::containing(0xffff_ffff_ffff_f000),
        Page { number: 0xf_ffff_ffff_fe00 },
        Page { number: 0xf_ffff_fffc_0001 },
        Page { number: 0xf_ffff_f800_0300 },
    ];
    let before: Vec<_> = windows.iter().map(|q| active.deref().translate_page(*q)).collect();
    assert_eq!(before[3], Some(Frame { number: 0x101 }));
    active.deref_mut().unmap(page, &mut allocator);
    let after: Vec<_> = windows.iter().map(|q| active.deref().translate_page(*q)).collect();
    assert_eq!(before, after);
}
