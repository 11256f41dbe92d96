use earlyboot::boot::MemoryArea;
use earlyboot::mem::paging::tpage::TinyAllocator;
use earlyboot::mem::{AreaFrameAllocator, Frame, FrameAllocator};

fn area(base_addr: u64, length: u64) -> MemoryArea {
    MemoryArea { base_addr, length }
}

fn drain(allocator: &mut AreaFrameAllocator) -> Vec<u64> {
    let mut numbers = Vec::new();
    while let Some(frame) = allocator.allocate_frame() {
        numbers.push(frame.number);
        assert!(numbers.len() < 100_000);
    }
    numbers
}

#[test]
fn memory_area_usable() {
    assert!(area(0, 1).is_usable());
    assert!(!area(0, 0).is_usable());
    assert!(area(0x10_0000_0000_0000 - 1, 1).is_usable());
    assert!(!area(0x10_0000_0000_0000, 1).is_usable());
    assert!(!area(u64::MAX, 2).is_usable());
}

#[test]
fn one_area_is_handed_out_in_rising_order() {
    let mut allocator =
        AreaFrameAllocator::new(0x100000, 0x1fffff, 0x200000, 0x200fff, vec![area(0x4000, 0x3000)]);
    assert_eq!(drain(&mut allocator), vec![4, 5, 6]);
    assert_eq!(allocator.allocate_frame(), None);
}

#[test]
fn partial_frames_at_both_ends_count() {
    let mut allocator =
        AreaFrameAllocator::new(0x100000, 0x1fffff, 0x200000, 0x200fff, vec![area(0x4800, 0x1000)]);
    assert_eq!(drain(&mut allocator), vec![4, 5]);
}

#[test]
fn areas_are_taken_by_rising_base_address() {
    let areas = vec![area(0x20000, 0x2000), area(0x8000, 0x2000), area(0x10000, 0x1000)];
    let mut allocator = AreaFrameAllocator::new(0x100000, 0x1fffff, 0x200000, 0x200fff, areas);
    assert_eq!(drain(&mut allocator), vec![8, 9, 0x10, 0x20, 0x21]);
}

#[test]
fn frames_rise_across_area_transitions() {
    let areas = vec![area(0x0, 0x3000), area(0x2000, 0x4000), area(0x1000, 0x1000)];
    let mut allocator = AreaFrameAllocator::new(0x100000, 0x1fffff, 0x200000, 0x200fff, areas);
    let numbers = drain(&mut allocator);
    assert_eq!(numbers, vec![0, 1, 2, 3, 4, 5]);
    for pair in numbers.windows(2) {
        assert!(pair[0] < pair[1]);
    }
}

#[test]
fn area_that_touches_the_kernel_is_left_out() {
    let areas = vec![area(0x0, 0x10000), area(0x100000, 0x300000), area(0x800000, 0x2000)];
    let mut allocator = AreaFrameAllocator::new(0x200000, 0x2fffff, 0x900000, 0x900fff, areas);
    let numbers = drain(&mut allocator);
    assert_eq!(numbers.len(), 16 + 2);
    assert_eq!(numbers[0], 0);
    assert_eq!(numbers[15], 15);
    assert_eq!(numbers[16], 0x800);
    assert_eq!(numbers[17], 0x801);
}

#[test]
fn area_that_touches_the_boot_report_is_left_out() {
    let areas = vec![area(0x0, 0x2000), area(0x10000, 0x3000)];
    let mut allocator = AreaFrameAllocator::new(0x200000, 0x2fffff, 0x12000, 0x12800, areas);
    assert_eq!(drain(&mut allocator), vec![0, 1]);
}

#[test]
fn frame_behind_the_kernel_is_free() {
    let areas = vec![area(0x3000, 0x1000), area(0x4000, 0x1000)];
    let mut allocator = AreaFrameAllocator::new(0x1000, 0x3000, 0x900000, 0x901000, areas);
    assert_eq!(drain(&mut allocator), vec![3, 4]);
}

#[test]
fn one_frame_right_behind_the_kernel_is_handed_out() {
    let mut allocator =
        AreaFrameAllocator::new(0x100000, 0x200000, 0x300000, 0x301000, vec![area(0x200000, 0x1000)]);
    assert_eq!(allocator.allocate_frame(), Some(Frame { number: 0x200 }));
    assert_eq!(allocator.allocate_frame(), None);
    assert_eq!(allocator.allocate_frame(), None);
}

#[test]
fn frame_with_the_last_byte_of_the_kernel_is_reserved() {
    let areas = vec![area(0x2000, 0x1000), area(0x3000, 0x1000), area(0x4000, 0x1000)];
    let mut allocator = AreaFrameAllocator::new(0x1000, 0x3001, 0x900000, 0x901000, areas);
    assert_eq!(drain(&mut allocator), vec![4]);
    let areas = vec![area(0x2000, 0x1000), area(0x3000, 0x1000), area(0x4000, 0x1000)];
    let mut allocator = AreaFrameAllocator::new(0x1000, 0x2fff, 0x900000, 0x901000, areas);
    assert_eq!(drain(&mut allocator), vec![3, 4]);
}

#[test]
fn frame_behind_the_boot_report_is_free() {
    let areas = vec![area(0x12000, 0x1000), area(0x13000, 0x1000)];
    let mut allocator = AreaFrameAllocator::new(0x200000, 0x300000, 0x12000, 0x13000, areas);
    assert_eq!(drain(&mut allocator), vec![0x13]);
}

#[test]
fn empty_reserved_ranges_reserve_nothing() {
    let areas = vec![area(0x0, 0x3000)];
    let mut allocator = AreaFrameAllocator::new(0x1000, 0x1000, 0x2000, 0x1000, areas);
    assert_eq!(drain(&mut allocator), vec![0, 1, 2]);
}

#[test]
fn of_two_regions_that_hold_the_cursor_the_lower_base_is_taken() {
    let areas = vec![area(0x0, 0x2000), area(0x3000, 0x5000), area(0x1000, 0x4000)];
    let mut allocator = AreaFrameAllocator::new(0x100000, 0x200000, 0x300000, 0x301000, areas);
    assert_eq!(drain(&mut allocator), vec![0, 1, 2, 3, 4, 5, 6, 7]);
    let areas = vec![area(0x0, 0x1000), area(0x6000, 0x1000), area(0x3000, 0x1000)];
    let mut allocator = AreaFrameAllocator::new(0x100000, 0x200000, 0x300000, 0x301000, areas);
    assert_eq!(drain(&mut allocator), vec![0, 3, 6]);
}

#[test]
fn no_frame_handed_out_is_reserved() {
    let areas = vec![
        area(0x0, 0x9f000),
        area(0x100000, 0x700000),
        area(0x1000000, 0x100000),
        area(0x2000000, 0x8000),
    ];
    let mut allocator = AreaFrameAllocator::new(0x100000, 0x3fffff, 0x1080000, 0x1080fff, areas);
    let numbers = drain(&mut allocator);
    for n in &numbers {
        assert!(!(0x100 <= *n && *n <= 0x3ff));
        assert!(!(0x1080 <= *n && *n <= 0x1080));
    }
    assert_eq!(numbers.len(), 0x9f + 8);
}

#[test]
fn count_equals_free_frames() {
    let areas = vec![area(0x0, 0x5000), area(0x3000, 0x5000), area(0x20000, 0x1000)];
    let mut allocator = AreaFrameAllocator::new(0x100000, 0x1fffff, 0x200000, 0x200fff, areas);
    let numbers = drain(&mut allocator);
    let mut free = std::collections::BTreeSet::new();
    for n in 0..5u64 {
        free.insert(n);
    }
    for n in 3..8u64 {
        free.insert(n);
    }
    free.insert(0x20);
    assert_eq!(numbers.len(), free.len());
    assert_eq!(numbers, free.into_iter().collect::<Vec<u64>>());
}

#[test]
fn no_area_gives_no_frame() {
    let mut allocator = AreaFrameAllocator::new(0, 0, 0, 0, Vec::new());
    assert_eq!(allocator.allocate_frame(), None);
    assert_eq!(allocator.allocate_frame(), None);
}

#[test]
fn all_areas_reserved_gives_no_frame() {
    let mut allocator = AreaFrameAllocator::new(0x0, 0xffff, 0x0, 0x0, vec![area(0x1000, 0x1000)]);
    assert_eq!(allocator.allocate_frame(), None);
}

#[test]
fn of_two_areas_with_one_base_the_first_is_taken() {
    let areas = vec![area(0x5000, 0x1000), area(0x5000, 0x3000)];
    let mut allocator = AreaFrameAllocator::new(0x100000, 0x1fffff, 0x200000, 0x200fff, areas);
    assert_eq!(drain(&mut allocator), vec![5, 6, 7]);
}

#[test]
fn free_reclaims_nothing() {
    let mut allocator =
        AreaFrameAllocator::new(0x100000, 0x1fffff, 0x200000, 0x200fff, vec![area(0x4000, 0x2000)]);
    let first = allocator.allocate_frame().unwrap();
    assert_eq!(first.number, 4);
    allocator.free(first);
    assert_eq!(allocator.allocate_frame(), Some(Frame { number: 5 }));
    assert_eq!(allocator.allocate_frame(), None);
}

#[test]
fn same_inputs_give_the_same_frames() {
    let build = || {
        AreaFrameAllocator::new(
            0x100000,
            0x1fffff,
            0x200000,
            0x200fff,
            vec![area(0x9000, 0x2000), area(0x4000, 0x2000)],
        )
    };
    let mut one = build();
    let mut two = build();
    assert_eq!(drain(&mut one), drain(&mut two));
}

#[test]
fn tiny_allocator_takes_three_frames() {
    let mut allocator =
        AreaFrameAllocator::new(0x100000, 0x1fffff, 0x200000, 0x200fff, vec![area(0x4000, 0x5000)]);
    let mut tiny = TinyAllocator::new(&mut allocator);
    assert_eq!(allocator.allocate_frame(), Some(Frame { number: 7 }));
    assert_eq!(tiny.allocate_frame(), Some(Frame { number: 4 }));
    assert_eq!(tiny.allocate_frame(), Some(Frame { number: 5 }));
    assert_eq!(tiny.allocate_frame(), Some(Frame { number: 6 }));
    assert_eq!(tiny.allocate_frame(), None);
}

#[test]
fn tiny_allocator_over_a_short_pool() {
    let mut allocator =
        AreaFrameAllocator::new(0x100000, 0x1fffff, 0x200000, 0x200fff, vec![area(0x4000, 0x2000)]);
    let mut tiny = TinyAllocator::new(&mut allocator);
    assert_eq!(allocator.allocate_frame(), None);
    assert_eq!(tiny.allocate_frame(), Some(Frame { number: 4 }));
    assert_eq!(tiny.allocate_frame(), Some(Frame { number: 5 }));
    assert_eq!(tiny.allocate_frame(), None);
}

#[test]
fn tiny_allocator_free_fills_the_first_empty_slot() {
    let mut tiny = TinyAllocator([Some(Frame { number: 1 }), None, Some(Frame { number: 3 })]);
    tiny.free(Frame { number: 9 });
    assert_eq!(tiny.0[1], Some(Frame { number: 9 }));
    assert_eq!(tiny.allocate_frame(), Some(Frame { number: 1 }));
    assert_eq!(tiny.allocate_frame(), Some(Frame { number: 9 }));
    assert_eq!(tiny.allocate_frame(), Some(Frame { number: 3 }));
    assert_eq!(tiny.allocate_frame(), None);
    tiny.free(Frame { number: 3 });
    assert_eq!(tiny.0[0], Some(Frame { number: 3 }));
}

#[test]
fn tiny_allocator_slots_follow_the_order_of_allocation() {
    let mut allocator =
        AreaFrameAllocator::new(0x100000, 0x1fffff, 0x200000, 0x200fff, vec![area(0x4000, 0x5000)]);
    let tiny = TinyAllocator::new(&mut allocator);
    assert_eq!(
        tiny.0,
        [Some(Frame { number: 4 }), Some(Frame { number: 5 }), Some(Frame { number: 6 })]
    );
    let mut short =
        AreaFrameAllocator::new(0x100000, 0x1fffff, 0x200000, 0x200fff, vec![area(0x4000, 0x2000)]);
    let tiny = TinyAllocator::new(&mut short);
    assert_eq!(tiny.0, [Some(Frame { number: 4 }), Some(Frame { number: 5 }), None]);
}

#[test]
fn allocations_are_no_more_than_the_frames_of_the_regions() {
    let mut allocator = AreaFrameAllocator::new(
        0x100000,
        0x1fffff,
        0x200000,
        0x200fff,
        vec![area(0x4000, 0x3000), area(0x5000, 0x3000), area(0x20000, 0x1800)],
    );
    let mut handed_out: u64 = 0;
    while allocator.allocate_frame().is_some() {
        handed_out += 1;
        assert!(handed_out <= 3 + 3 + 2);
    }
    assert_eq!(handed_out, 6);
    assert_eq!(allocator.allocate_frame(), None);
    assert_eq!(allocator.allocate_frame(), None);
}
