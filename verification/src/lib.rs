//! The memory core of an early-boot x86_64 kernel, as a verified model:
//! physical frame allocation, the four-level page-table hierarchy with its
//! self-referential top slot, and the construction of a fresh address space.
//! Beside it stand the small collaborators of early boot: the text console,
//! the interrupt table and the bump heap.

pub mod boot;
pub mod bumpalloc;
pub mod cpu;
pub mod interrupts;
pub mod mem;
pub mod vga;
