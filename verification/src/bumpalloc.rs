//! A heap that only grows: each allocation takes the next free bytes.

use vstd::prelude::*;

verus! {

/// Address of the first byte of the kernel heap.
pub const HEAP_START: usize = 0x4000_0000;

/// Bytes in the kernel heap.
pub const HEAP_SIZE: usize = 100 * 1024;

/// Whether `align` is a power of two: exactly one of its bits is set.
pub open spec fn is_power_of_two(align: usize) -> bool {
    align != 0 && align & ((align - 1) as usize) == 0
}

/// Whether `addr` is a multiple of the power of two `align`: none of the
/// bits below `align` is set.
pub open spec fn is_aligned(addr: usize, align: usize) -> bool {
    addr & ((align - 1) as usize) == 0
}

/// Whether `aligned` is `addr` rounded down to a multiple of `align`:
/// the multiple of `align` in the `align` addresses that end with `addr`.
/// With `align` 0 nothing is rounded.
pub open spec fn rounds_down(addr: usize, align: usize, aligned: usize) -> bool {
    if align == 0 {
        aligned == addr
    } else {
        aligned <= addr && addr - aligned < align && is_aligned(aligned, align)
    }
}

/// Whether `aligned` is `addr` rounded up to a multiple of `align`: the
/// multiple of `align` in the `align` addresses that start with `addr`.
/// With `align` 0 the result is the address before `addr`.
pub open spec fn rounds_up(addr: usize, align: usize, aligned: usize) -> bool {
    if align == 0 {
        aligned == addr - 1
    } else {
        addr <= aligned && aligned - addr < align && is_aligned(aligned, align)
    }
}

/// Clearing the bits below a power of two rounds down to its multiple.
proof fn lemma_mask_rounds_down(addr: usize, align: usize)
    requires
        is_power_of_two(align),
    ensures
        rounds_down(addr, align, addr & !((align - 1) as usize)),
{
    assert({
        &&& addr & !((align - 1) as usize) <= addr
        &&& addr - (addr & !((align - 1) as usize)) < align
        &&& (addr & !((align - 1) as usize)) & ((align - 1) as usize) == 0
    }) by (bit_vector)
        requires
            align != 0 && align & ((align - 1) as usize) == 0,
    ;
}

/// Rounds `addr` down to a multiple of `align`, a power of two. With
/// `align` 0 the address is returned as it is.
pub fn align_down(addr: usize, align: usize) -> (aligned: usize)
    requires
        align == 0 || is_power_of_two(align),
    ensures
        rounds_down(addr, align, aligned),
{
    if align != 0 && align & (align - 1) == 0 {
        proof {
            lemma_mask_rounds_down(addr, align);
        }
        addr & !(align - 1)
    } else {
        addr
    }
}

/// Rounds `addr` up to a multiple of `align`, a power of two.
pub fn align_up(addr: usize, align: usize) -> (aligned: usize)
    requires
        align == 0 || is_power_of_two(align),
        1 <= addr + align <= usize::MAX,
    ensures
        rounds_up(addr, align, aligned),
{
    align_down(addr + align - 1, align)
}

/// A heap that hands out its bytes once, in rising order of addresses.
#[derive(Debug)]
pub struct BumpAllocator {
    pub heap: usize,
    pub size: usize,
    pub next: usize,
}

impl BumpAllocator {
    /// A heap of `size` bytes from the address `start`, none of them in
    /// use.
    pub fn new(start: usize, size: usize) -> (heap: BumpAllocator)
        ensures
            heap.heap == start,
            heap.size == size,
            heap.next == start,
    {
        BumpAllocator { heap: start, size: size, next: start }
    }

    /// Takes `size` bytes at the next address that is a multiple of
    /// `align`, and returns that address. The bytes are granted where
    /// they are no more than the heap has in all.
    pub fn allocate(&mut self, size: usize, align: usize) -> (address: Option<usize>)
        requires
            align == 0 || is_power_of_two(align),
            1 <= old(self).next + align,
            old(self).next + align + old(self).size <= usize::MAX,
        ensures
            final(self).heap == old(self).heap,
            final(self).size == old(self).size,
            address is Some <==> size <= old(self).size,
            match address {
                Some(start) => rounds_up(old(self).next, align, start) && final(self).next == start
                    + size,
                None => final(self).next == old(self).next,
            },
    {
        let start = align_up(self.next, align);
        let end = start.saturating_add(size);
        if end <= start + self.size {
            self.next = end;
            Some(start)
        } else {
            None
        }
    }
}

} // verus!
