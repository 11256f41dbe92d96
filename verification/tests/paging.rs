use earlyboot::boot::{ElfSection, MemoryArea};
use earlyboot::mem::paging::entry::{
    Entry, EntryFlags, HUGE_PAGE, NO_EXECUTE, PRESENT, USER_ACCESSIBLE, WRITABLE,
};
use earlyboot::mem::paging::mapper::Walk;
use earlyboot::mem::paging::table::Table;
use earlyboot::mem::paging::{ActivePageTable, MapError, Page};
use earlyboot::mem::{AreaFrameAllocator, Frame, FrameAllocator};

fn boot_table() -> ActivePageTable {
    ActivePageTable::new(Frame { number: 1 }, Frame { number: 2 }, Frame { number: 3 })
}

fn allocator(first_frame: u64, frames: u64) -> AreaFrameAllocator {
    AreaFrameAllocator::new(
        0x0,
        0xffff,
        0x10000,
        0x10fff,
        vec![MemoryArea { base_addr: first_frame * 4096, length: frames * 4096 }],
    )
}

fn flags(bits: u64) -> EntryFlags {
    EntryFlags::from_bits_truncate(bits)
}

#[test]
fn entry_flags_from_bits() {
    assert_eq!(EntryFlags::empty().bits(), 0);
    assert!(EntryFlags::empty().is_empty());
    assert_eq!(flags(PRESENT | WRITABLE).bits(), 3);
    assert_eq!(flags(0xffff_ffff_ffff_ffff).bits(), 0x8000_0000_0000_01ff);
    assert_eq!(flags(0x1000).bits(), 0);
    assert!(EntryFlags::from_bits(0x1000).is_none());
    assert_eq!(EntryFlags::from_bits(NO_EXECUTE | PRESENT).unwrap().bits(), 0x8000_0000_0000_0001);
}

#[test]
fn entry_flags_contains_and_union() {
    let both = flags(PRESENT).union(flags(WRITABLE));
    assert_eq!(both.bits(), 3);
    assert!(both.contains(flags(PRESENT)));
    assert!(both.contains(flags(WRITABLE)));
    assert!(both.contains(flags(PRESENT | WRITABLE)));
    assert!(!both.contains(flags(HUGE_PAGE)));
    assert!(!both.contains(flags(PRESENT | HUGE_PAGE)));
    assert!(both.contains(EntryFlags::empty()));
}

#[test]
fn entry_flags_for_sections() {
    let code = ElfSection { addr: 0x1000, size: 0x1000, flags: 0x2 | 0x4 };
    assert_eq!(EntryFlags::from_elf_section_flags(&code).bits(), PRESENT);
    let data = ElfSection { addr: 0x1000, size: 0x1000, flags: 0x2 | 0x1 };
    assert_eq!(EntryFlags::from_elf_section_flags(&data).bits(), PRESENT | WRITABLE | NO_EXECUTE);
    let read_only = ElfSection { addr: 0x1000, size: 0x1000, flags: 0x2 };
    assert_eq!(EntryFlags::from_elf_section_flags(&read_only).bits(), PRESENT | NO_EXECUTE);
    let unallocated = ElfSection { addr: 0x1000, size: 0x1000, flags: 0x4 };
    assert_eq!(EntryFlags::from_elf_section_flags(&unallocated).bits(), 0);
    let nothing = ElfSection { addr: 0x1000, size: 0x1000, flags: 0x0 };
    assert_eq!(EntryFlags::from_elf_section_flags(&nothing).bits(), NO_EXECUTE);
}

#[test]
fn elf_section_accessors() {
    let section = ElfSection { addr: 0x2000, size: 0x1800, flags: 0x3 };
    assert_eq!(section.start_address(), 0x2000);
    assert_eq!(section.end_address(), 0x3800);
    assert_eq!(section.flags(), 0x3);
    assert!(section.is_allocated());
    assert!(section.is_writable());
    assert!(!section.is_executable());
}

#[test]
fn entry_set_and_read_back() {
    let mut entry = Entry::unused();
    assert!(entry.is_unused());
    assert_eq!(entry.pointed_frame(), None);
    entry.set(Frame { number: 0x1234 }, flags(PRESENT | WRITABLE));
    assert_eq!(entry.0, 0x1234_003);
    assert!(!entry.is_unused());
    assert_eq!(entry.pointed_frame(), Some(Frame { number: 0x1234 }));
    assert_eq!(entry.flags().bits(), PRESENT | WRITABLE);
    entry.set(Frame { number: 0xff_ffff_ffff }, flags(PRESENT | NO_EXECUTE));
    assert_eq!(entry.0, 0x800f_ffff_ffff_f001);
    assert_eq!(entry.pointed_frame(), Some(Frame { number: 0xff_ffff_ffff }));
    entry.set_unused();
    assert!(entry.is_unused());
    assert_eq!(entry.0, 0);
}

#[test]
fn entry_without_present_flag_names_no_frame() {
    let mut entry = Entry::unused();
    entry.set(Frame { number: 7 }, flags(WRITABLE));
    assert!(!entry.is_unused());
    assert_eq!(entry.pointed_frame(), None);
}

#[test]
fn table_starts_blank_and_can_be_zeroed() {
    let mut table = Table::new();
    for i in 0..512 {
        assert!(table.entry(i).is_unused());
        assert_eq!(table.leads_to(i), None);
    }
    table.set(5, Frame { number: 9 }, flags(PRESENT | WRITABLE));
    table.set(6, Frame { number: 512 }, flags(PRESENT | HUGE_PAGE));
    table.set(7, Frame { number: 11 }, flags(WRITABLE));
    assert_eq!(table.leads_to(5), Some(Frame { number: 9 }));
    assert_eq!(table.leads_to(6), None);
    assert_eq!(table.leads_to(7), None);
    assert_eq!(table.entry(5).0, 0x9003);
    table.set_unused(5);
    assert!(table.entry(5).is_unused());
    table.put(8, Entry(0x77));
    assert_eq!(table.entry(8).0, 0x77);
    table.zero();
    for i in 0..512 {
        assert!(table.entry(i).is_unused());
    }
}

#[test]
fn boot_tables_map_the_first_gigabyte_to_itself() {
    let page_table = boot_table();
    assert_eq!(Some(0), page_table.deref().translate(0));
    assert_eq!(Some(4096), page_table.deref().translate(4096));
    assert_eq!(Some(512 * 4096), page_table.deref().translate(512 * 4096));
    assert_eq!(Some(300 * 512 * 4096), page_table.deref().translate(300 * 512 * 4096));
    assert_eq!(None, page_table.deref().translate(512 * 512 * 4096));
    assert_eq!(Some(512 * 512 * 4096 - 1), page_table.deref().translate(512 * 512 * 4096 - 1));
}

#[test]
fn boot_tables_register_and_top_table() {
    let page_table = boot_table();
    assert_eq!(page_table.deref().table_base(), Frame { number: 1 });
    let p4 = page_table.deref().p4();
    assert_eq!(p4.leads_to(0), Some(Frame { number: 2 }));
    assert_eq!(p4.leads_to(511), Some(Frame { number: 1 }));
    assert_eq!(p4.leads_to(1), None);
}

#[test]
fn huge_second_level_entry_translates_to_base_plus_index() {
    let page_table = boot_table();
    for (huge, index) in [(0u64, 0u64), (1, 0), (1, 5), (7, 511), (511, 256)] {
        let page = Page { number: huge * 512 + index };
        assert_eq!(page_table.deref().translate_page(page), Some(Frame { number: huge * 512 + index }));
    }
}

#[test]
fn recursive_window_shows_the_tables() {
    let page_table = boot_table();
    let top = Page::containing(0xffff_ffff_ffff_f000);
    assert_eq!(page_table.deref().translate_page(top), Some(Frame { number: 1 }));
    let p3 = Page { number: 0xf_ffff_ffff_fe00 };
    assert_eq!(p3.p4_index(), 511);
    assert_eq!(p3.p3_index(), 511);
    assert_eq!(p3.p2_index(), 511);
    assert_eq!(p3.p1_index(), 0);
    assert_eq!(page_table.deref().translate_page(p3), Some(Frame { number: 2 }));
}

#[test]
fn map_then_translate_then_unmap() {
    let mut page_table = boot_table();
    let mut allocator = allocator(0x100, 16);
    let addr = 42 * 512 * 512 * 4096;
    let page = Page::containing(addr);
    let frame = allocator.allocate_frame().expect("no frames available");
    assert_eq!(frame.number, 0x100);
    assert_eq!(None, page_table.deref().translate(addr));
    page_table.deref_mut().map_to(page, frame, EntryFlags::empty(), &mut allocator);
    assert_eq!(Some(0x100 * 4096), page_table.deref().translate(addr));
    assert_eq!(Some(0x100 * 4096 + 0x123), page_table.deref().translate(addr + 0x123));
    assert_eq!(Some(0x100 * 4096 + 4095), page_table.deref().translate(addr + 4095));
    assert_eq!(None, page_table.deref().translate(addr + 4096));
    assert_eq!(allocator.allocate_frame().unwrap().number, 0x103);
    page_table.deref_mut().unmap(Page::containing(addr), &mut allocator);
    assert_eq!(None, page_table.deref().translate(addr));
    assert_eq!(allocator.allocate_frame().unwrap().number, 0x104);
}

#[test]
fn map_to_marks_the_page_present_with_the_flags_given() {
    let mut page_table = boot_table();
    let mut allocator = allocator(0x100, 16);
    let page = Page::containing(0x6000_0000);
    page_table
        .deref_mut()
        .map_to(page, Frame { number: 0x55 }, flags(WRITABLE | NO_EXECUTE), &mut allocator);
    let p4 = page_table.deref().p4();
    assert_eq!(p4.leads_to(0), Some(Frame { number: 2 }));
    assert_eq!(page_table.deref().translate_page(page), Some(Frame { number: 0x55 }));
}

#[test]
fn tables_made_on_demand_are_present_writable_and_user() {
    let mut page_table = boot_table();
    let mut allocator = allocator(0x100, 16);
    let page = Page { number: 5 << 27 };
    page_table.deref_mut().map_to(page, Frame { number: 0x55 }, EntryFlags::empty(), &mut allocator);
    let entry = page_table.deref().p4().entry(5);
    assert_eq!(entry.0, (0x100 << 12) | PRESENT | WRITABLE | USER_ACCESSIBLE);
}

#[test]
fn mapping_leaves_other_pages_alone() {
    let mut page_table = boot_table();
    let mut allocator = allocator(0x100, 32);
    let one = Page::containing(0x6000_0000);
    let two = Page::containing(0x6000_1000);
    let far = Page::containing(0x7f00_0000_0000);
    page_table.deref_mut().map_to(one, Frame { number: 0x55 }, EntryFlags::empty(), &mut allocator);
    page_table.deref_mut().map_to(far, Frame { number: 0x66 }, EntryFlags::empty(), &mut allocator);
    assert_eq!(page_table.deref().translate_page(one), Some(Frame { number: 0x55 }));
    assert_eq!(page_table.deref().translate_page(two), None);
    assert_eq!(page_table.deref().translate_page(far), Some(Frame { number: 0x66 }));
    assert_eq!(page_table.deref().translate(0x1234), Some(0x1234));
    page_table.deref_mut().map_to(two, Frame { number: 0x77 }, EntryFlags::empty(), &mut allocator);
    assert_eq!(page_table.deref().translate_page(one), Some(Frame { number: 0x55 }));
    assert_eq!(page_table.deref().translate_page(two), Some(Frame { number: 0x77 }));
    page_table.deref_mut().unmap(one, &mut allocator);
    assert_eq!(page_table.deref().translate_page(one), None);
    assert_eq!(page_table.deref().translate_page(two), Some(Frame { number: 0x77 }));
    assert_eq!(page_table.deref().translate_page(far), Some(Frame { number: 0x66 }));
}

#[test]
fn a_page_can_be_mapped_again_after_unmap() {
    let mut page_table = boot_table();
    let mut allocator = allocator(0x100, 16);
    let page = Page::containing(0x6000_0000);
    page_table.deref_mut().map_to(page, Frame { number: 0x55 }, EntryFlags::empty(), &mut allocator);
    page_table.deref_mut().unmap(page, &mut allocator);
    let before = allocator.allocate_frame().unwrap().number;
    page_table.deref_mut().map_to(page, Frame { number: 0x56 }, EntryFlags::empty(), &mut allocator);
    assert_eq!(page_table.deref().translate_page(page), Some(Frame { number: 0x56 }));
    assert_eq!(allocator.allocate_frame().unwrap().number, before + 1);
}

#[test]
fn map_picks_the_frame_from_the_allocator() {
    let mut page_table = boot_table();
    let mut allocator = allocator(0x100, 16);
    let page = Page::containing(0x6000_0000);
    page_table.deref_mut().map(page, flags(WRITABLE), &mut allocator);
    assert_eq!(page_table.deref().translate_page(page), Some(Frame { number: 0x100 }));
    let next = Page::containing(0x6000_1000);
    page_table.deref_mut().map(next, flags(WRITABLE), &mut allocator);
    assert_eq!(page_table.deref().translate_page(next), Some(Frame { number: 0x103 }));
}

#[test]
fn identity_map_maps_a_frame_to_its_own_address() {
    let mut page_table = ActivePageTable::new(
        Frame { number: 0x50000 },
        Frame { number: 0x50001 },
        Frame { number: 0x50002 },
    );
    let mut allocator = allocator(0x100, 16);
    let frame = Frame { number: 0x40005 };
    assert_eq!(page_table.deref().translate(0x40005 * 4096), None);
    page_table.deref_mut().identity_map(frame, flags(WRITABLE), &mut allocator);
    for offset in [0u64, 1, 0x800, 4095] {
        let address = 0x40005 * 4096 + offset;
        assert_eq!(page_table.deref().translate(address), Some(address));
        assert_eq!(page_table.deref().translate(address), Some(address));
    }
    assert_eq!(page_table.deref().translate(0x40006 * 4096), None);
}

#[test]
fn map_to_without_frames_fails_and_maps_nothing() {
    let mut page_table = boot_table();
    let mut allocator = allocator(0x100, 2);
    let page = Page::containing(0x7f00_0000_0000);
    assert_eq!(
        page_table.deref_mut().try_map_to(
            page,
            Frame { number: 0x55 },
            EntryFlags::empty(),
            &mut allocator
        ),
        Err(MapError::OutOfFrames)
    );
    assert_eq!(page_table.deref().translate_page(page), None);
    assert_eq!(allocator.allocate_frame(), None);
    assert_eq!(page_table.deref().translate(0x1234), Some(0x1234));
}

#[test]
fn map_to_needs_no_frame_where_the_tables_stand() {
    let mut page_table = boot_table();
    let mut three = allocator(0x100, 3);
    let page = Page::containing(0x7f00_0000_0000);
    page_table.deref_mut().map_to(page, Frame { number: 0x55 }, EntryFlags::empty(), &mut three);
    let mut none = allocator(0x200, 0x0);
    let next = Page::containing(0x7f00_0000_1000);
    assert_eq!(
        page_table.deref_mut().try_map_to(next, Frame { number: 0x56 }, EntryFlags::empty(), &mut none),
        Ok(())
    );
    assert_eq!(page_table.deref().translate_page(next), Some(Frame { number: 0x56 }));
}

#[test]
fn map_without_a_frame_for_the_page_fails() {
    let mut page_table = boot_table();
    let mut allocator = allocator(0x100, 3);
    let page = Page::containing(0x7f00_0000_0000);
    assert_eq!(
        page_table.deref_mut().try_map(page, EntryFlags::empty(), &mut allocator),
        Err(MapError::OutOfFrames)
    );
    assert_eq!(page_table.deref().translate_page(page), None);
}

#[test]
fn pages_in_the_upper_half_can_be_mapped() {
    let mut page_table = boot_table();
    let mut allocator = allocator(0x100, 16);
    let page = Page::containing(0xffff_8000_0000_0000);
    assert_eq!(page.p4_index(), 256);
    page_table.deref_mut().map_to(page, Frame { number: 0x88 }, EntryFlags::empty(), &mut allocator);
    assert_eq!(page_table.deref().translate(0xffff_8000_0000_0042), Some(0x88 * 4096 + 0x42));
}

#[test]
fn next_table_create_makes_a_table_once() {
    let mut page_table = boot_table();
    let mut allocator = allocator(0x100, 4);
    let top = page_table.deref().table_base();
    let made = page_table.deref_mut().next_table_create(&top, 7, &mut allocator);
    assert_eq!(made, Frame { number: 0x100 });
    let again = page_table.deref_mut().try_next_table_create(&top, 7, &mut allocator);
    assert_eq!(again, Some(Frame { number: 0x100 }));
    assert_eq!(allocator.allocate_frame(), Some(Frame { number: 0x101 }));
    let table = page_table.deref().table_at(&Frame { number: 0x100 }).unwrap();
    for i in 0..512 {
        assert!(table.entry(i).is_unused());
    }
    assert_eq!(page_table.deref().p4().entry(7).0, (0x100 << 12) | 7);
    let existing = page_table.deref_mut().next_table_create(&top, 0, &mut allocator);
    assert_eq!(existing, Frame { number: 2 });
}

#[test]
fn next_table_create_without_a_frame_makes_nothing() {
    let mut page_table = boot_table();
    let mut allocator = allocator(0x100, 1);
    allocator.allocate_frame();
    let top = page_table.deref().table_base();
    assert_eq!(page_table.deref_mut().try_next_table_create(&top, 7, &mut allocator), None);
    assert!(page_table.deref().p4().entry(7).is_unused());
    let mut empty = AreaFrameAllocator::new(0x0, 0xffff, 0x10000, 0x10fff, vec![]);
    let existing = page_table.deref_mut().next_table_create(&top, 0, &mut empty);
    assert_eq!(existing, Frame { number: 2 });
}

#[test]
fn inspect_tells_how_the_walk_ends() {
    let mut page_table = boot_table();
    let mut allocator = allocator(0x100, 8);
    assert_eq!(page_table.deref().inspect(Page { number: 5 }), Walk::Huge(Frame { number: 5 }));
    assert_eq!(page_table.deref().inspect(Page { number: 0x6_0000 }), Walk::Vacant { clear: true });
    page_table
        .deref_mut()
        .map_to(Page { number: 0x6_0000 }, Frame { number: 9 }, flags(WRITABLE), &mut allocator);
    assert_eq!(page_table.deref().inspect(Page { number: 0x6_0000 }), Walk::Leaf(Entry(0x9003)));
    assert_eq!(page_table.deref().inspect(Page { number: 0x6_0001 }), Walk::Vacant { clear: true });
    page_table.deref_mut().unmap(Page { number: 0x6_0000 }, &mut allocator);
    assert_eq!(page_table.deref().inspect(Page { number: 0x6_0000 }), Walk::Vacant { clear: true });
}

#[test]
fn next_table_follows_entries_above_the_leaf_level() {
    let mut page_table = boot_table();
    let mut allocator = allocator(0x100, 8);
    let page = Page { number: 0x6_0000 };
    page_table.deref_mut().map_to(page, Frame { number: 9 }, flags(WRITABLE), &mut allocator);
    let mapper = page_table.deref();
    let top = mapper.table_base();
    assert_eq!(mapper.next_table(&top, 511), Some(Frame { number: 1 }));
    assert_eq!(mapper.next_table(&top, 1), None);
    let p3 = mapper.next_table(&top, 0).unwrap();
    assert_eq!(p3, Frame { number: 2 });
    let boot_p2 = mapper.next_table(&p3, 0).unwrap();
    assert_eq!(boot_p2, Frame { number: 3 });
    assert_eq!(mapper.next_table(&boot_p2, 0), None);
    assert_eq!(mapper.next_table(&boot_p2, 17), None);
    let p2 = mapper.next_table(&p3, 1).unwrap();
    assert_eq!(p2, Frame { number: 0x100 });
    let p1 = mapper.next_table(&p2, 0x100).unwrap();
    assert_eq!(p1, Frame { number: 0x101 });
    assert_eq!(mapper.table_at(&p1).unwrap().entry(0).0, 0x9003);
}

#[test]
fn test_paging() {
    let mut page_table = ActivePageTable::new(
        Frame { number: 0x400 },
        Frame { number: 0x401 },
        Frame { number: 0x402 },
    );
    let mut allocator = AreaFrameAllocator::new(
        0x400000,
        0x4fffff,
        0x500000,
        0x500fff,
        vec![MemoryArea { base_addr: 0x0, length: 0x9f000 }],
    );

    assert_eq!(Some(0), page_table.deref().translate(0));
    assert_eq!(Some(4096), page_table.deref().translate(4096));
    assert_eq!(Some(512 * 4096), page_table.deref().translate(512 * 4096));
    assert_eq!(Some(300 * 512 * 4096), page_table.deref().translate(300 * 512 * 4096));
    assert_eq!(None, page_table.deref().translate(512 * 512 * 4096));
    assert_eq!(Some(512 * 512 * 4096 - 1), page_table.deref().translate(512 * 512 * 4096 - 1));

    let addr = 42 * 512 * 512 * 4096;
    let page = Page::containing(addr);
    let frame = allocator.allocate_frame().expect("no frames available");
    assert_eq!(None, page_table.deref().translate(addr));
    page_table.deref_mut().map_to(page, frame, EntryFlags::empty(), &mut allocator);
    assert_eq!(Some(0), page_table.deref().translate(addr));
    assert!(allocator.allocate_frame().unwrap().number > 0);

    page_table.deref_mut().unmap(Page::containing(addr), &mut allocator);
    assert_eq!(None, page_table.deref().translate(addr));
}

#[test]
fn attempts_succeed_where_the_frames_suffice() {
    let mut page_table = boot_table();
    let mut allocator = allocator(0x100, 6);
    let page = Page::containing(0x7f00_0000_0000);
    assert_eq!(page_table.deref_mut().try_map(page, flags(WRITABLE), &mut allocator), Ok(()));
    assert_eq!(page_table.deref().translate_page(page), Some(Frame { number: 0x100 }));
    let frame = Frame { number: 0x40005 };
    assert_eq!(
        page_table.deref_mut().try_identity_map(frame, flags(WRITABLE), &mut allocator),
        Ok(())
    );
    assert_eq!(
        page_table.deref().translate_page(Page { number: 0x40005 }),
        Some(Frame { number: 0x40005 })
    );
    assert_eq!(allocator.allocate_frame(), None);
    let far = Frame { number: 0x80005 };
    assert_eq!(
        page_table.deref_mut().try_identity_map(far, flags(WRITABLE), &mut allocator),
        Err(MapError::OutOfFrames)
    );
    assert_eq!(page_table.deref().translate_page(Page { number: 0x80005 }), None);
}
