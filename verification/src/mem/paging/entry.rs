//! One 64-bit entry of a page table: a frame's address and flag bits.

use vstd::prelude::*;
use crate::boot::ElfSection;
use crate::mem::Frame;

verus! {

/// The entry is in use: it names a frame.
pub const PRESENT: u64 = 0x1;

/// The memory behind the entry may be written.
pub const WRITABLE: u64 = 0x2;

/// The memory behind the entry is open to user mode.
pub const USER_ACCESSIBLE: u64 = 0x4;

/// Writes go straight to memory.
pub const WRITE_THROUGH: u64 = 0x8;

/// The memory behind the entry is not cached.
pub const NO_CACHE: u64 = 0x10;

/// The processor has used the entry.
pub const ACCESSED: u64 = 0x20;

/// The processor has written through the entry.
pub const DIRTY: u64 = 0x40;

/// The entry maps a huge page and leads to no table.
pub const HUGE_PAGE: u64 = 0x80;

/// The translation stays in the cache when the address space changes.
pub const GLOBAL: u64 = 0x100;

/// The memory behind the entry must not be executed.
pub const NO_EXECUTE: u64 = 0x8000_0000_0000_0000;

/// Every bit that is a flag.
pub const ALL_FLAGS: u64 = 0x8000_0000_0000_01ff;

/// The bits of an entry that hold the frame's address.
pub const ADDRESS_MASK: u64 = 0x000f_ffff_ffff_f000;

/// Frame numbers below this bound have an address that fits an entry.
pub const FRAME_LIMIT: u64 = 0x100_0000_0000;

/// A set of entry flags. It never holds a bit that is not a flag.
#[derive(Debug, Clone, Copy)]
pub struct EntryFlags {
    bits: u64,
}

impl View for EntryFlags {
    type V = u64;

    /// The flag bits that are set.
    closed spec fn view(&self) -> u64 {
        self.bits
    }
}

impl EntryFlags {
    #[verifier::type_invariant]
    pub open spec fn flags_only(self) -> bool {
        self@ & !ALL_FLAGS == 0
    }

    /// Whether every flag of `bits` is set.
    pub open spec fn has(self, bits: u64) -> bool {
        self@ & bits == bits
    }

    /// The empty set.
    pub fn empty() -> (flags: EntryFlags)
        ensures
            flags@ == 0,
    {
        assert(0u64 & !ALL_FLAGS == 0) by (bit_vector);
        EntryFlags { bits: 0 }
    }

    /// The flags among `bits`; bits that are no flag are dropped.
    pub fn from_bits_truncate(bits: u64) -> (flags: EntryFlags)
        ensures
            flags@ == bits & ALL_FLAGS,
    {
        assert((bits & ALL_FLAGS) & !ALL_FLAGS == 0) by (bit_vector);
        EntryFlags { bits: bits & ALL_FLAGS }
    }

    /// The set with exactly the bits of `bits`, if each of them is a flag.
    pub fn from_bits(bits: u64) -> (flags: Option<EntryFlags>)
        ensures
            match flags {
                Some(f) => f@ == bits && bits & !ALL_FLAGS == 0,
                None => bits & !ALL_FLAGS != 0,
            },
    {
        if bits & !ALL_FLAGS == 0 {
            Some(EntryFlags { bits: bits })
        } else {
            None
        }
    }

    /// The flag bits that are set.
    pub fn bits(&self) -> (bits: u64)
        ensures
            bits == self@,
            bits & !ALL_FLAGS == 0,
    {
        proof {
            use_type_invariant(self);
        }
        self.bits
    }

    /// Whether no flag is set.
    pub fn is_empty(&self) -> (yes: bool)
        ensures
            yes == (self@ == 0),
    {
        self.bits == 0
    }

    /// Whether every flag of `other` is set in `self`.
    pub fn contains(&self, other: EntryFlags) -> (yes: bool)
        ensures
            yes == self.has(other@),
    {
        self.bits & other.bits == other.bits
    }

    /// The flags that are set in `self` or in `other`.
    pub fn union(self, other: EntryFlags) -> (flags: EntryFlags)
        ensures
            flags@ == self@ | other@,
    {
        proof {
            use_type_invariant(self);
            use_type_invariant(other);
        }
        let a: u64 = self.bits;
        let b: u64 = other.bits;
        assert((a | b) & !ALL_FLAGS == 0) by (bit_vector)
            requires
                a & !ALL_FLAGS == 0,
                b & !ALL_FLAGS == 0,
        ;
        EntryFlags { bits: a | b }
    }

    /// The flags with which a kernel section is mapped: present where the
    /// section is allocated, writable where it is writable, and barred
    /// from execution unless it holds code.
    pub open spec fn for_section(section: ElfSection) -> u64 {
        (if section.allocated() { PRESENT } else { 0 })
        | (if section.writable() { WRITABLE } else { 0 })
        | (if section.executable() { 0 } else { NO_EXECUTE })
    }

    /// The flags with which a kernel section is mapped.
    pub fn from_elf_section_flags(section: &ElfSection) -> (flags: EntryFlags)
        ensures
            flags@ == Self::for_section(*section),
    {
        let mut flags = EntryFlags::empty();
        if section.is_allocated() {
            flags = flags.union(EntryFlags::from_bits_truncate(PRESENT));
        }
        if section.is_writable() {
            flags = flags.union(EntryFlags::from_bits_truncate(WRITABLE));
        }
        if !section.is_executable() {
            flags = flags.union(EntryFlags::from_bits_truncate(NO_EXECUTE));
        }
        proof {
            lemma_flag_constants();
            lemma_section_flag_bits();
        }
        flags
    }
}

/// Each named flag, and each combination that the mapping code writes, is
/// made of flag bits only.
pub proof fn lemma_flag_constants()
    by (bit_vector)
    ensures
        PRESENT & ALL_FLAGS == PRESENT,
        WRITABLE & ALL_FLAGS == WRITABLE,
        USER_ACCESSIBLE & ALL_FLAGS == USER_ACCESSIBLE,
        HUGE_PAGE & ALL_FLAGS == HUGE_PAGE,
        NO_EXECUTE & ALL_FLAGS == NO_EXECUTE,
        (PRESENT | WRITABLE) & ALL_FLAGS == PRESENT | WRITABLE,
        (PRESENT | WRITABLE | USER_ACCESSIBLE) & ALL_FLAGS == PRESENT | WRITABLE | USER_ACCESSIBLE,
        (PRESENT | WRITABLE) & PRESENT != 0,
        (PRESENT | WRITABLE) & HUGE_PAGE == 0,
        (PRESENT | WRITABLE | USER_ACCESSIBLE) & PRESENT != 0,
        (PRESENT | WRITABLE | USER_ACCESSIBLE) & HUGE_PAGE == 0,
        (PRESENT | WRITABLE) & !ALL_FLAGS == 0,
        (PRESENT | WRITABLE | USER_ACCESSIBLE) & !ALL_FLAGS == 0,
        0u64 & PRESENT == 0,
        0u64 & HUGE_PAGE == 0,
        0u64 & !ALL_FLAGS == 0,
        PRESENT & !ALL_FLAGS == 0,
        WRITABLE & !ALL_FLAGS == 0,
        WRITABLE | PRESENT == PRESENT | WRITABLE,
        (WRITABLE | PRESENT) & !ALL_FLAGS == 0,
        PRESENT | PRESENT == PRESENT,
        (PRESENT | WRITABLE | HUGE_PAGE) & ALL_FLAGS == PRESENT | WRITABLE | HUGE_PAGE,
        (PRESENT | WRITABLE | HUGE_PAGE) & !ALL_FLAGS == 0,
        (PRESENT | WRITABLE | HUGE_PAGE) & PRESENT != 0,
        (PRESENT | WRITABLE | HUGE_PAGE) & HUGE_PAGE != 0,
{
}

/// Joining flags with no flag changes nothing.
proof fn lemma_section_flag_bits()
    by (bit_vector)
    ensures
        forall|a: u64| #[trigger] (0u64 | a) == a,
        forall|a: u64| #[trigger] (a | 0u64) == a,
{
}

/// One entry of a page table.
#[derive(Debug, Clone, Copy, PartialEq, Eq, Structural)]
pub struct Entry(pub u64);

impl Entry {
    /// Whether the entry is marked present.
    pub open spec fn present(self) -> bool {
        self.0 & PRESENT != 0
    }

    /// Whether the entry is marked as a huge page.
    pub open spec fn huge(self) -> bool {
        self.0 & HUGE_PAGE != 0
    }

    /// Whether the entry names a table of the next level: it is present
    /// and no huge page.
    pub open spec fn leads_on(self) -> bool {
        self.present() && !self.huge()
    }

    /// Number of the frame that the entry's address bits name.
    pub open spec fn frame_number(self) -> u64 {
        (self.0 & ADDRESS_MASK) / 4096
    }

    /// The frame that a present entry names.
    pub open spec fn spec_pointed_frame(self) -> Option<Frame> {
        if self.present() {
            Some(Frame { number: self.frame_number() })
        } else {
            None
        }
    }

    /// The entry that names `frame` with exactly the flags `flags`.
    pub open spec fn of(frame: u64, flags: u64) -> Entry {
        Entry((frame * 4096) as u64 | flags)
    }

    /// An unused entry.
    pub fn unused() -> (entry: Entry)
        ensures
            entry.0 == 0,
    {
        Entry(0)
    }

    /// Whether the entry is unused: no frame and no flag.
    pub fn is_unused(&self) -> (yes: bool)
        ensures
            yes == (self.0 == 0),
    {
        self.0 == 0
    }

    /// Makes the entry unused.
    pub fn set_unused(&mut self)
        ensures
            final(self).0 == 0,
    {
        self.0 = 0;
    }

    /// The entry's flags.
    pub fn flags(&self) -> (flags: EntryFlags)
        ensures
            flags@ == self.0 & ALL_FLAGS,
            flags.has(PRESENT) == self.present(),
            flags.has(HUGE_PAGE) == self.huge(),
    {
        proof {
            lemma_flag_tests(self.0);
        }
        EntryFlags::from_bits_truncate(self.0)
    }

    /// The frame that a present entry names.
    pub fn pointed_frame(&self) -> (frame: Option<Frame>)
        ensures
            frame == self.spec_pointed_frame(),
    {
        proof {
            lemma_flag_tests(self.0);
        }
        if self.0 & PRESENT != 0 {
            Some(Frame::containing(self.0 & ADDRESS_MASK))
        } else {
            None
        }
    }

    /// Makes the entry name `frame` with the flags `flags`.
    pub fn set(&mut self, frame: Frame, flags: EntryFlags)
        requires
            frame.number < FRAME_LIMIT,
        ensures
            *final(self) == Entry::of(frame.number, flags@),
    {
        self.0 = frame.start() | flags.bits();
    }
}

/// The flag tests on an entry's bits agree with those on its flag set.
pub proof fn lemma_flag_tests(bits: u64)
    by (bit_vector)
    ensures
        ((bits & ALL_FLAGS) & PRESENT == PRESENT) == (bits & PRESENT != 0),
        ((bits & ALL_FLAGS) & HUGE_PAGE == HUGE_PAGE) == (bits & HUGE_PAGE != 0),
{
}

/// What an entry holds after `set`: the frame, and the flags unchanged.
pub proof fn lemma_entry_of(frame: u64, flags: u64)
    requires
        frame < FRAME_LIMIT,
        flags & !ALL_FLAGS == 0,
    ensures
        Entry::of(frame, flags).frame_number() == frame,
        Entry::of(frame, flags).0 & ALL_FLAGS == flags,
        Entry::of(frame, flags).present() == (flags & PRESENT != 0),
        Entry::of(frame, flags).huge() == (flags & HUGE_PAGE != 0),
        Entry::of(frame, flags).0 == 0 <==> frame == 0 && flags == 0,
{
    let e: u64 = (frame * 4096) as u64 | flags;
    assert(frame * 4096 <= u64::MAX);
    let a: u64 = (frame * 4096) as u64;
    assert(a == frame << 12) by (bit_vector)
        requires
            frame < 0x100_0000_0000u64,
            a == frame * 4096,
    ;
    assert({
        &&& ((frame << 12 | flags) & ADDRESS_MASK) / 4096 == frame
        &&& (frame << 12 | flags) & ALL_FLAGS == flags
        &&& ((frame << 12 | flags) & PRESENT != 0) == (flags & PRESENT != 0)
        &&& ((frame << 12 | flags) & HUGE_PAGE != 0) == (flags & HUGE_PAGE != 0)
        &&& ((frame << 12 | flags) == 0) == (frame == 0 && flags == 0)
    }) by (bit_vector)
        requires
            frame < 0x100_0000_0000u64,
            flags & !ALL_FLAGS == 0,
    ;
}

} // verus!
