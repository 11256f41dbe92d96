use earlyboot::mem::paging::{is_canonical, Page};
use earlyboot::mem::{Frame, PAGE_SIZE};

#[test]
fn frame_containing_rounds_down() {
    assert_eq!(Frame::containing(4097).number, 1);
    assert_eq!(Frame::containing(4095).number, 0);
    assert_eq!(Frame::containing(0xb8000).number, 0xb8);
    assert_eq!(Frame::containing(u64::MAX).number, 0xf_ffff_ffff_ffff);
}

#[test]
fn frame_start_is_number_times_page_size() {
    assert_eq!(PAGE_SIZE, 4096);
    assert_eq!(Frame { number: 0 }.start(), 0);
    assert_eq!(Frame { number: 3 }.start(), 12288);
    assert_eq!(Frame { number: 0xf_ffff_ffff_ffff }.start(), 0xffff_ffff_ffff_f000);
}

#[test]
fn frame_clone_is_the_same_frame() {
    let frame = Frame { number: 77 };
    assert_eq!(frame.clone(), frame);
}

#[test]
fn frames_are_ordered_by_number() {
    assert!(Frame { number: 1 } < Frame { number: 2 });
    assert!(Frame { number: 2 } >= Frame { number: 2 });
    assert_ne!(Frame { number: 1 }, Frame { number: 2 });
}

#[test]
fn frame_range_walks_in_rising_order() {
    let mut iter = Frame::range_inclusive(Frame { number: 5 }, Frame { number: 7 });
    assert_eq!(iter.next(), Some(Frame { number: 5 }));
    assert_eq!(iter.next(), Some(Frame { number: 6 }));
    assert_eq!(iter.next(), Some(Frame { number: 7 }));
    assert_eq!(iter.next(), None);
    assert_eq!(iter.next(), None);
}

#[test]
fn frame_range_with_end_before_start_is_empty() {
    let mut iter = Frame::range_inclusive(Frame { number: 9 }, Frame { number: 8 });
    assert_eq!(iter.next(), None);
}

#[test]
fn frame_range_of_one_frame() {
    let mut iter = Frame::range_inclusive(Frame { number: 0 }, Frame { number: 0 });
    assert_eq!(iter.next(), Some(Frame { number: 0 }));
    assert_eq!(iter.next(), None);
}

#[test]
fn canonical_addresses_are_the_two_halves() {
    assert!(is_canonical(0));
    assert!(is_canonical(0x0000_7fff_ffff_ffff));
    assert!(!is_canonical(0x0000_8000_0000_0000));
    assert!(!is_canonical(0x8000_0000_0000_0000));
    assert!(!is_canonical(0xffff_7fff_ffff_ffff));
    assert!(is_canonical(0xffff_8000_0000_0000));
    assert!(is_canonical(u64::MAX));
}

#[test]
fn page_containing_rounds_down() {
    assert_eq!(Page::containing(0).number, 0);
    assert_eq!(Page::containing(4096 * 7 + 5).number, 7);
    assert_eq!(Page::containing(0xffff_8000_0000_0000).number, 0xf_fff8_0000_0000);
}

#[test]
fn page_start_is_number_times_page_size() {
    assert_eq!(Page::containing(0x1234_5678).start(), 0x1234_5000);
    assert_eq!(Page { number: 0xcafebabe }.start(), 0xcafe_babe_000);
}

#[test]
fn page_indices_are_nine_bits_each() {
    let page = Page::containing(42 * 512 * 512 * 4096);
    assert_eq!(page.p4_index(), 0);
    assert_eq!(page.p3_index(), 42);
    assert_eq!(page.p2_index(), 0);
    assert_eq!(page.p1_index(), 0);
    let page = Page { number: (3 << 27) | (4 << 18) | (5 << 9) | 6 };
    assert_eq!(page.p4_index(), 3);
    assert_eq!(page.p3_index(), 4);
    assert_eq!(page.p2_index(), 5);
    assert_eq!(page.p1_index(), 6);
    let top = Page::containing(u64::MAX);
    assert_eq!(top.p4_index(), 511);
    assert_eq!(top.p3_index(), 511);
    assert_eq!(top.p2_index(), 511);
    assert_eq!(top.p1_index(), 511);
}

#[test]
fn scratch_page_lies_in_slot_25() {
    let page = Page { number: 0xcafebabe };
    assert_eq!(page.p4_index(), 25);
}

#[test]
fn page_range_walks_in_rising_order() {
    let mut iter = Page::range_inclusive(Page { number: 10 }, Page { number: 11 });
    assert_eq!(iter.next(), Some(Page { number: 10 }));
    assert_eq!(iter.next(), Some(Page { number: 11 }));
    assert_eq!(iter.next(), None);
}

#[test]
fn pages_are_ordered_by_number() {
    assert!(Page { number: 1 } < Page { number: 2 });
    assert!(Page { number: 3 } > Page { number: 2 });
}
