use earlyboot::interrupts::idt::{gdt_selector, Entry, EntryOptions, Idt, PrivilegeLevel};
use earlyboot::interrupts::{
    init, PageFaultErrorCode, CAUSED_BY_WRITE, INSTRUCTION_FETCH, MALFORMED_TABLE,
    PROTECTION_VIOLATION, USER_MODE,
};

#[test]
fn minimal_options_have_the_fixed_bits() {
    assert_eq!(EntryOptions::minimal().0, 0b0000_1110_0000_0000);
}

#[test]
fn new_options_are_present_without_interrupts() {
    assert_eq!(EntryOptions::new().0, 0b1000_1110_0000_0000);
}

#[test]
fn present_sets_and_clears_bit_15() {
    let mut options = EntryOptions(0x0e00);
    options.present(true);
    assert_eq!(options.0, 0x8e00);
    options.present(true);
    assert_eq!(options.0, 0x8e00);
    options.present(false);
    assert_eq!(options.0, 0x0e00);
    let mut all = EntryOptions(0xffff);
    all.present(false);
    assert_eq!(all.0, 0x7fff);
}

#[test]
fn interruptible_sets_and_clears_bit_8() {
    let mut options = EntryOptions(0x0e00);
    options.interruptible(true);
    assert_eq!(options.0, 0x0f00);
    options.interruptible(false);
    assert_eq!(options.0, 0x0e00);
    let mut all = EntryOptions(0xffff);
    all.interruptible(false);
    assert_eq!(all.0, 0xfeff);
}

#[test]
fn option_changes_chain() {
    let mut options = EntryOptions::minimal();
    options.present(true).interruptible(true);
    assert_eq!(options.0, 0x8f00);
    options.present(false).interruptible(false).present(true);
    assert_eq!(options.0, 0x8e00);
}

#[test]
fn selectors_are_index_times_eight_plus_level() {
    assert_eq!(gdt_selector(0, PrivilegeLevel::Ring0), 0);
    assert_eq!(gdt_selector(1, PrivilegeLevel::Ring0), 8);
    assert_eq!(gdt_selector(1, PrivilegeLevel::Ring3), 11);
    assert_eq!(gdt_selector(5, PrivilegeLevel::Ring2), 42);
    assert_eq!(gdt_selector(0x1fff, PrivilegeLevel::Ring1), 0xfff9);
}

#[test]
fn missing_entry_is_all_zero_but_the_fixed_bits() {
    let entry = Entry::missing();
    assert_eq!(
        entry,
        Entry { low: 0, gdt_selector: 0, options: EntryOptions(0x0e00), mid: 0, high: 0, reserved: 0 }
    );
}

#[test]
fn new_entry_splits_the_handler_address() {
    let entry = Entry::new(8, 0x1122_3344_5566_7788);
    assert_eq!(entry.low, 0x7788);
    assert_eq!(entry.mid, 0x5566);
    assert_eq!(entry.high, 0x1122_3344);
    assert_eq!(entry.gdt_selector, 8);
    assert_eq!(entry.options.0, 0x8e00);
    assert_eq!(entry.reserved, 0);
    let top = Entry::new(0xffff, u64::MAX);
    assert_eq!((top.low, top.mid, top.high), (0xffff, 0xffff, 0xffff_ffff));
    let none = Entry::new(0, 0);
    assert_eq!((none.low, none.mid, none.high), (0, 0, 0));
}

#[test]
fn new_table_has_no_entry_in_use() {
    let idt = Idt::new();
    for entry in idt.0.iter() {
        assert_eq!(*entry, Entry::missing());
    }
}

#[test]
fn set_handler_fills_one_entry() {
    let mut idt = Idt::new();
    let options = idt.set_handler(14, 0xdead_beef_0000_1234);
    assert_eq!(options.0, 0x8e00);
    options.interruptible(true);
    assert_eq!(idt.0[14].low, 0x1234);
    assert_eq!(idt.0[14].mid, 0x0000);
    assert_eq!(idt.0[14].high, 0xdead_beef);
    assert_eq!(idt.0[14].options.0, 0x8f00);
    assert_eq!(idt.0[14].reserved, 0);
    for (i, entry) in idt.0.iter().enumerate() {
        if i != 14 {
            assert_eq!(*entry, Entry::missing());
        }
    }
}

#[test]
fn set_handler_uses_the_running_code_segment() {
    let mut one = Idt::new();
    let mut two = Idt::new();
    one.set_handler(0, 0x1000);
    two.set_handler(3, 0x2000);
    assert_eq!(one.0[0].gdt_selector, two.0[3].gdt_selector);
    assert_ne!(one.0[0].gdt_selector, 0);
}

#[test]
fn init_sets_the_four_handlers() {
    let idt = init(0x1_0000, 0x2_0004, 0x3_0008, 0xffff_8000_0000_400c);
    assert_eq!((idt.0[0].low, idt.0[0].mid, idt.0[0].high), (0x0000, 0x0001, 0));
    assert_eq!((idt.0[3].low, idt.0[3].mid, idt.0[3].high), (0x0004, 0x0002, 0));
    assert_eq!((idt.0[6].low, idt.0[6].mid, idt.0[6].high), (0x0008, 0x0003, 0));
    assert_eq!((idt.0[14].low, idt.0[14].mid, idt.0[14].high), (0x400c, 0x0000, 0xffff_8000));
    for i in 0..16 {
        if [0, 3, 6, 14].contains(&i) {
            assert_eq!(idt.0[i].options.0, 0x8e00);
        } else {
            assert_eq!(idt.0[i], Entry::missing());
        }
    }
}

#[test]
fn page_fault_codes() {
    let code = PageFaultErrorCode::from_bits(PROTECTION_VIOLATION | CAUSED_BY_WRITE).unwrap();
    assert_eq!(code.bits(), 3);
    assert!(code.contains(PROTECTION_VIOLATION));
    assert!(code.contains(CAUSED_BY_WRITE));
    assert!(!code.contains(USER_MODE));
    assert!(!code.contains(MALFORMED_TABLE | PROTECTION_VIOLATION));
    assert_eq!(PageFaultErrorCode::from_bits(0).unwrap().bits(), 0);
    assert_eq!(PageFaultErrorCode::from_bits(0x1f).unwrap().bits(), 0x1f);
    assert!(PageFaultErrorCode::from_bits(0x20).is_none());
    assert!(PageFaultErrorCode::from_bits(INSTRUCTION_FETCH | 0x8000).is_none());
}
