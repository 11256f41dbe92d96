//! The interrupt descriptor table: sixteen descriptor entries.

use vstd::prelude::*;
use bit_field::BitField;
use x86::segmentation::SegmentSelector;
use x86::Ring;

verus! {

/// The four privilege levels of the processor.
#[derive(Debug, Clone, Copy, PartialEq, Eq, Structural)]
pub enum PrivilegeLevel {
    Ring0,
    Ring1,
    Ring2,
    Ring3,
}

impl PrivilegeLevel {
    /// The level's number, 0 for the kernel to 3 for user code.
    pub open spec fn code(self) -> u16 {
        match self {
            PrivilegeLevel::Ring0 => 0,
            PrivilegeLevel::Ring1 => 1,
            PrivilegeLevel::Ring2 => 2,
            PrivilegeLevel::Ring3 => 3,
        }
    }
}

/// `BitField::set_bit` of the crate `bit_field`, on a `u16`: bit `bit`
/// becomes 1 where `value` is true and 0 where it is false, and no other
/// bit changes. The outside function panics for a bit beyond the last.
#[verifier::external_body]
fn set_bit(bits: u16, bit: usize, value: bool) -> (result: u16)
    requires
        bit < 16,
    ensures
        result == if value {
            bits | (1u16 << bit)
        } else {
            bits & !(1u16 << bit)
        },
{
    let mut bits = bits;
    bits.set_bit(bit, value);
    bits
}

/// `BitField::set_bits` of the crate `bit_field`, on a `u16`, for the
/// range from `start` up to but without `end`: these bits become the low
/// bits of `value`, and no other bit changes. The outside function panics
/// for a range beyond the last bit and for a value that does not fit the
/// range.
#[verifier::external_body]
fn set_bits(bits: u16, start: usize, end: usize, value: u16) -> (result: u16)
    requires
        start < end < 16,
        value < (1u16 << (end - start)),
    ensures
        result == (bits & !((((1u16 << (end - start)) - 1) as u16) << start)) | (value << start),
{
    let mut bits = bits;
    bits.set_bits(start..end, value);
    bits
}

/// `SegmentSelector::new` of the crate `x86`, read as bits: the index from
/// bit 3 upwards, the table indicator 0, and the privilege level in the
/// two lowest bits.
#[verifier::external_body]
fn selector_bits(index: u16, level: PrivilegeLevel) -> (bits: u16)
    ensures
        bits == (index << 3) | level.code(),
{
    let ring = match level {
        PrivilegeLevel::Ring0 => Ring::Ring0,
        PrivilegeLevel::Ring1 => Ring::Ring1,
        PrivilegeLevel::Ring2 => Ring::Ring2,
        PrivilegeLevel::Ring3 => Ring::Ring3,
    };
    SegmentSelector::new(index, ring).bits()
}

/// The selector for entry `index` of the global descriptor table at the
/// privilege level `level`: the index times 8, plus the level's number.
pub fn gdt_selector(index: u16, level: PrivilegeLevel) -> (bits: u16)
    requires
        index < 0x2000,
    ensures
        bits == index * 8 + level.code(),
{
    let ghost code = level.code();
    assert((index << 3) | code == index * 8 + code) by (bit_vector)
        requires
            index < 0x2000,
            code < 4,
    ;
    selector_bits(index, level)
}

/// `segmentation::cs` of the crate `x86`, read as bits: the selector in
/// the code segment register. Nothing is known of it beforehand.
#[verifier::external_body]
fn code_segment() -> (bits: u16) {
    x86::segmentation::cs().bits()
}

/// The option bits of a descriptor: bit 15 marks it present, bit 8 leaves
/// interrupts enabled while the handler runs, and bits 9 to 11 are always
/// set.
#[derive(Debug, Clone, Copy, PartialEq, Eq, Structural)]
pub struct EntryOptions(pub u16);

impl EntryOptions {
    /// The options with nothing but the bits that are always set.
    pub fn minimal() -> (options: EntryOptions)
        ensures
            options.0 == 0x0e00,
    {
        assert(7u16 < (1u16 << 3usize) && ((0u16 & !((((1u16 << 3usize) - 1) as u16) << 9usize))
            | (7u16 << 9usize)) == 0x0e00) by (bit_vector);
        assert(12usize - 9usize == 3usize);
        EntryOptions(set_bits(0, 9, 12, 0b111))
    }

    /// The options of a descriptor in use: present, and with interrupts
    /// disabled while the handler runs.
    pub fn new() -> (options: EntryOptions)
        ensures
            options.0 == 0x8e00,
    {
        let mut options = EntryOptions::minimal();
        options.present(true).interruptible(false);
        assert((0x0e00u16 | 0x8000u16) & 0xfeffu16 == 0x8e00u16) by (bit_vector);
        options
    }

    /// The options with the present bit as `present` says.
    pub open spec fn with_present(self, present: bool) -> EntryOptions {
        EntryOptions(
            if present {
                self.0 | 0x8000
            } else {
                self.0 & 0x7fff
            },
        )
    }

    /// The options with the interrupt bit as `interrupts` says.
    pub open spec fn with_interrupts(self, interrupts: bool) -> EntryOptions {
        EntryOptions(
            if interrupts {
                self.0 | 0x0100
            } else {
                self.0 & 0xfeff
            },
        )
    }

    /// Marks the descriptor present or absent.
    pub fn present(&mut self, present: bool) -> (options: &mut EntryOptions)
        ensures
            *options == old(self).with_present(present),
            *final(self) == *final(options),
    {
        assert(1u16 << 15usize == 0x8000 && !(1u16 << 15usize) == 0x7fff) by (bit_vector);
        self.0 = set_bit(self.0, 15, present);
        self
    }

    /// Leaves interrupts enabled while the handler runs, or disables
    /// them.
    pub fn interruptible(&mut self, interrupts: bool) -> (options: &mut EntryOptions)
        ensures
            *options == old(self).with_interrupts(interrupts),
            *final(self) == *final(options),
    {
        assert(1u16 << 8usize == 0x0100 && !(1u16 << 8usize) == 0xfeff) by (bit_vector);
        self.0 = set_bit(self.0, 8, interrupts);
        self
    }
}

/// One descriptor of the table: the handler's address in three parts, the code
/// segment that the handler runs in, and the options.
#[derive(Debug, Clone, Copy, PartialEq, Eq, Structural)]
pub struct Entry {
    pub low: u16,
    pub gdt_selector: u16,
    pub options: EntryOptions,
    pub mid: u16,
    pub high: u32,
    pub reserved: u32,
}

impl Entry {
    /// The address of the descriptor's handler, put together from its parts.
    pub open spec fn handler(self) -> int {
        self.low + self.mid * 0x1_0000 + self.high * 0x1_0000_0000
    }

    /// A descriptor in use for the handler at the address `handler`, which runs
    /// in the code segment `gdt_selector`.
    pub fn new(gdt_selector: u16, handler: u64) -> (entry: Entry)
        ensures
            entry.handler() == handler,
            entry.gdt_selector == gdt_selector,
            entry.options.0 == 0x8e00,
            entry.reserved == 0,
    {
        let pointer = handler;
        assert(pointer & 0xffff <= 0xffff && (pointer >> 16) & 0xffff <= 0xffff && pointer >> 32
            <= 0xffff_ffff && (pointer & 0xffff) + ((pointer >> 16) & 0xffff) * 0x1_0000 + (pointer
            >> 32) * 0x1_0000_0000 == pointer) by (bit_vector);
        Entry {
            gdt_selector: gdt_selector,
            low: (pointer & 0xffff) as u16,
            mid: ((pointer >> 16) & 0xffff) as u16,
            high: (pointer >> 32) as u32,
            options: EntryOptions::new(),
            reserved: 0,
        }
    }

    /// The descriptor that is not in use.
    pub open spec fn missing_entry() -> Entry {
        Entry { low: 0, gdt_selector: 0, options: EntryOptions(0x0e00), mid: 0, high: 0, reserved: 0 }
    }

    /// A descriptor that is not in use: no handler, the first segment at the
    /// kernel's privilege level, and the options with nothing but the
    /// bits that are always set.
    pub fn missing() -> (entry: Entry)
        ensures
            entry == Self::missing_entry(),
    {
        Entry {
            gdt_selector: gdt_selector(0, PrivilegeLevel::Ring0),
            low: 0,
            mid: 0,
            high: 0,
            options: EntryOptions::minimal(),
            reserved: 0,
        }
    }
}

/// The interrupt descriptor table.
pub struct Idt(pub [Entry; 16]);

impl Idt {
    /// A table in which no descriptor is in use.
    pub fn new() -> (idt: Idt)
        ensures
            forall|i: int| 0 <= i < 16 ==> idt.0[i] == Entry::missing_entry(),
    {
        Idt([Entry::missing(); 16])
    }

    /// Puts the descriptor `entry` in use for the handler at the address
    /// `handler`, in the code segment that the processor is running in,
    /// and returns the descriptor's options for further changes.
    pub fn set_handler(&mut self, entry: u8, handler: u64) -> (options: &mut EntryOptions)
        requires
            entry < 16,
        ensures
            options.0 == 0x8e00,
            forall|i: int| 0 <= i < 16 && i != entry ==> final(self).0[i] == old(self).0[i],
            final(self).0[entry as int].handler() == handler,
            final(self).0[entry as int].reserved == 0,
            final(self).0[entry as int].options == *final(options),
    {
        self.0[entry as usize] = Entry::new(code_segment(), handler);
        &mut self.0[entry as usize].options
    }
}

} // verus!
