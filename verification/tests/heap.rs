use earlyboot::bumpalloc::{align_down, align_up, BumpAllocator, HEAP_SIZE, HEAP_START};
use earlyboot::cpu::{enable_nxe_bit, enable_write_protect_bit};

#[test]
fn heap_constants() {
    assert_eq!(HEAP_START, 0o_000_001_000_000_0000);
    assert_eq!(HEAP_SIZE, 102_400);
}

#[test]
fn align_down_clears_the_low_bits() {
    assert_eq!(align_down(0x1234, 0x1000), 0x1000);
    assert_eq!(align_down(0x1000, 0x1000), 0x1000);
    assert_eq!(align_down(0xfff, 0x1000), 0);
    assert_eq!(align_down(17, 1), 17);
    assert_eq!(align_down(17, 2), 16);
    assert_eq!(align_down(17, 16), 16);
    assert_eq!(align_down(usize::MAX, 8), usize::MAX - 7);
}

#[test]
fn align_down_with_zero_returns_the_address() {
    assert_eq!(align_down(0x1234, 0), 0x1234);
}

#[test]
fn align_up_rounds_to_the_next_multiple() {
    assert_eq!(align_up(0x1234, 0x1000), 0x2000);
    assert_eq!(align_up(0x1000, 0x1000), 0x1000);
    assert_eq!(align_up(1, 0x1000), 0x1000);
    assert_eq!(align_up(0, 8), 0);
    assert_eq!(align_up(17, 1), 17);
    assert_eq!(align_up(17, 0), 16);
}

#[test]
fn bump_allocator_hands_out_rising_addresses() {
    let mut heap = BumpAllocator::new(HEAP_START, HEAP_SIZE);
    assert_eq!(heap.allocate(10, 1), Some(HEAP_START));
    assert_eq!(heap.allocate(1, 8), Some(HEAP_START + 16));
    assert_eq!(heap.allocate(100, 4096), Some(HEAP_START + 4096));
    assert_eq!(heap.next, HEAP_START + 4196);
    assert_eq!(heap.heap, HEAP_START);
    assert_eq!(heap.size, HEAP_SIZE);
}

#[test]
fn bump_allocator_refuses_more_than_the_heap_holds() {
    let mut heap = BumpAllocator::new(0x1000, 64);
    assert_eq!(heap.allocate(65, 1), None);
    assert_eq!(heap.next, 0x1000);
    assert_eq!(heap.allocate(64, 1), Some(0x1000));
    assert_eq!(heap.next, 0x1040);
    assert_eq!(heap.allocate(usize::MAX, 1), None);
    assert_eq!(heap.allocate(0, 1), Some(0x1040));
}

#[test]
fn control_register_values() {
    assert_eq!(enable_nxe_bit(0), 1 << 11);
    assert_eq!(enable_nxe_bit(0x501), 0xd01);
    assert_eq!(enable_nxe_bit(0x800), 0x800);
    assert_eq!(enable_write_protect_bit(0x8000_0011), 0x8001_0011);
    assert_eq!(enable_write_protect_bit(0x1_0000), 0x1_0000);
}
