//! What the boot loader reports at start-of-day, as plain values: the usable
//! memory regions, the sections of the loaded kernel image and the extent of
//! the report itself.

use vstd::prelude::*;

verus! {

/// Section flag: the section is writable at run time.
pub const ELF_SECTION_WRITABLE: u64 = 0x1;

/// Section flag: the section occupies memory at run time.
pub const ELF_SECTION_ALLOCATED: u64 = 0x2;

/// Section flag: the section holds machine code.
pub const ELF_SECTION_EXECUTABLE: u64 = 0x4;

/// One region of usable physical memory.
#[derive(Debug, Clone, Copy, PartialEq, Eq, Structural)]
pub struct MemoryArea {
    pub base_addr: u64,
    pub length: u64,
}

impl MemoryArea {
    /// A region that is not empty and ends within the 52 bits of a
    /// physical address.
    pub open spec fn wf(self) -> bool {
        self.length > 0 && self.base_addr + self.length <= 0x10_0000_0000_0000
    }

    /// Number of the frame that holds the region's first byte.
    pub open spec fn first_frame(self) -> int {
        self.base_addr as int / 4096
    }

    /// Number of the frame that holds the region's last byte.
    pub open spec fn last_frame(self) -> int {
        (self.base_addr + self.length - 1) / 4096
    }

    /// How many frames hold a byte of the region.
    pub open spec fn span(self) -> nat {
        (self.last_frame() - self.first_frame() + 1) as nat
    }

    /// Whether `area` can be handed to an allocator.
    pub fn is_usable(&self) -> (ok: bool)
        ensures
            ok == self.wf(),
    {
        self.length > 0 && self.base_addr <= 0x10_0000_0000_0000 && self.length
            <= 0x10_0000_0000_0000 - self.base_addr
    }
}

/// One section of the loaded kernel image.
#[derive(Debug, Clone, Copy, PartialEq, Eq, Structural)]
pub struct ElfSection {
    pub addr: u64,
    pub size: u64,
    pub flags: u64,
}

impl ElfSection {
    /// A section whose end address fits in 64 bits.
    pub open spec fn wf(self) -> bool {
        self.addr + self.size <= u64::MAX
    }

    /// Whether the section occupies memory at run time.
    pub open spec fn allocated(self) -> bool {
        self.flags & ELF_SECTION_ALLOCATED != 0
    }

    /// Whether the section is writable at run time.
    pub open spec fn writable(self) -> bool {
        self.flags & ELF_SECTION_WRITABLE != 0
    }

    /// Whether the section holds machine code.
    pub open spec fn executable(self) -> bool {
        self.flags & ELF_SECTION_EXECUTABLE != 0
    }

    /// Address of the section's first byte.
    pub fn start_address(&self) -> (address: u64)
        ensures
            address == self.addr,
    {
        self.addr
    }

    /// Address of the first byte behind the section.
    pub fn end_address(&self) -> (address: u64)
        requires
            self.wf(),
        ensures
            address == self.addr + self.size,
    {
        self.addr + self.size
    }

    /// The section's flag bits.
    pub fn flags(&self) -> (bits: u64)
        ensures
            bits == self.flags,
    {
        self.flags
    }

    /// Whether the section occupies memory at run time.
    pub fn is_allocated(&self) -> (yes: bool)
        ensures
            yes == self.allocated(),
    {
        self.flags & ELF_SECTION_ALLOCATED != 0
    }

    /// Whether the section is writable at run time.
    pub fn is_writable(&self) -> (yes: bool)
        ensures
            yes == self.writable(),
    {
        self.flags & ELF_SECTION_WRITABLE != 0
    }

    /// Whether the section holds machine code.
    pub fn is_executable(&self) -> (yes: bool)
        ensures
            yes == self.executable(),
    {
        self.flags & ELF_SECTION_EXECUTABLE != 0
    }
}

/// What the boot loader handed over. A part that the loader left out is
/// `None`.
pub struct BootInformation {
    pub start: u64,
    pub end: u64,
    pub memory_map: Option<Vec<MemoryArea>>,
    pub elf_sections: Option<Vec<ElfSection>>,
}

impl BootInformation {
    /// Address of the first byte of the boot loader's report.
    pub fn start_address(&self) -> (address: u64)
        ensures
            address == self.start,
    {
        self.start
    }

    /// Address of the first byte behind the boot loader's report.
    pub fn end_address(&self) -> (address: u64)
        ensures
            address == self.end,
    {
        self.end
    }

    /// The usable memory regions, if the loader reported them.
    pub fn memory_map_tag(&self) -> (areas: Option<&Vec<MemoryArea>>)
        ensures
            match areas {
                Some(areas) => self.memory_map == Some(*areas),
                None => self.memory_map is None,
            },
    {
        match &self.memory_map {
            Some(areas) => Some(areas),
            None => None,
        }
    }

    /// The sections of the kernel image, if the loader reported them.
    pub fn elf_sections_tag(&self) -> (sections: Option<&Vec<ElfSection>>)
        ensures
            match sections {
                Some(sections) => self.elf_sections == Some(*sections),
                None => self.elf_sections is None,
            },
    {
        match &self.elf_sections {
            Some(sections) => Some(sections),
            None => None,
        }
    }
}

} // verus!
