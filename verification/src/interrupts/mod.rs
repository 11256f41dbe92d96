//! Interrupts: the table of handlers and the decoding of what the
//! processor reports with a page fault.

use vstd::prelude::*;
use crate::interrupts::idt::{Entry, Idt};

pub mod idt;

verus! {

/// Number of the descriptor for a division by zero.
pub const DIVIDE_BY_ZERO: u8 = 0;

/// Number of the descriptor for a breakpoint.
pub const BREAKPOINT: u8 = 3;

/// Number of the descriptor for an invalid opcode.
pub const INVALID_OPCODE: u8 = 6;

/// Number of the descriptor for a page fault.
pub const PAGE_FAULT: u8 = 14;

/// Whether `descriptor` is one of the four descriptors that the kernel handles.
pub open spec fn handled(descriptor: int) -> bool {
    descriptor == DIVIDE_BY_ZERO || descriptor == BREAKPOINT || descriptor == INVALID_OPCODE
        || descriptor == PAGE_FAULT
}

/// The table of the kernel's handlers: the descriptors for division by zero,
/// breakpoint, invalid opcode and page fault lead to the handlers at the
/// addresses given, each present and with interrupts disabled; no other
/// descriptor is in use.
pub fn init(divide_by_zero: u64, breakpoint: u64, invalid_opcode: u64, page_fault: u64) -> (idt: Idt)
    ensures
        idt.0[DIVIDE_BY_ZERO as int].handler() == divide_by_zero,
        idt.0[BREAKPOINT as int].handler() == breakpoint,
        idt.0[INVALID_OPCODE as int].handler() == invalid_opcode,
        idt.0[PAGE_FAULT as int].handler() == page_fault,
        forall|descriptor: int|
            0 <= descriptor < 16 ==> if handled(descriptor) {
                (#[trigger] idt.0[descriptor]).options.0 == 0x8e00 && idt.0[descriptor].reserved
                    == 0
            } else {
                idt.0[descriptor] == Entry::missing_entry()
            },
{
    let mut idt = Idt::new();
    idt.set_handler(DIVIDE_BY_ZERO, divide_by_zero);
    idt.set_handler(BREAKPOINT, breakpoint);
    idt.set_handler(INVALID_OPCODE, invalid_opcode);
    idt.set_handler(PAGE_FAULT, page_fault);
    idt
}

/// The fault was a protection violation; else the page was not present.
pub const PROTECTION_VIOLATION: u64 = 0x1;

/// The access was a write; else it was a read.
pub const CAUSED_BY_WRITE: u64 = 0x2;

/// The access came from user mode.
pub const USER_MODE: u64 = 0x4;

/// A reserved bit was set in a table entry.
pub const MALFORMED_TABLE: u64 = 0x8;

/// The access was an instruction fetch.
pub const INSTRUCTION_FETCH: u64 = 0x10;

/// Every bit that a page fault's error code can hold.
pub const ALL_CAUSES: u64 = 0x1f;

/// The error code that the processor reports with a page fault. It never
/// holds a bit without a meaning.
#[derive(Debug, Clone, Copy)]
pub struct PageFaultErrorCode {
    bits: u64,
}

impl View for PageFaultErrorCode {
    type V = u64;

    /// The bits that are set.
    closed spec fn view(&self) -> u64 {
        self.bits
    }
}

impl PageFaultErrorCode {
    #[verifier::type_invariant]
    pub open spec fn known_only(self) -> bool {
        self@ & !ALL_CAUSES == 0
    }

    /// The error code with exactly the bits of `bits`, if each of them has
    /// a meaning.
    pub fn from_bits(bits: u64) -> (code: Option<PageFaultErrorCode>)
        ensures
            match code {
                Some(code) => code@ == bits && bits & !ALL_CAUSES == 0,
                None => bits & !ALL_CAUSES != 0,
            },
    {
        if bits & !ALL_CAUSES == 0 {
            Some(PageFaultErrorCode { bits: bits })
        } else {
            None
        }
    }

    /// The bits that are set.
    pub fn bits(&self) -> (bits: u64)
        ensures
            bits == self@,
            bits & !ALL_CAUSES == 0,
    {
        proof {
            use_type_invariant(self);
        }
        self.bits
    }

    /// Whether every bit of `cause` is set.
    pub fn contains(&self, cause: u64) -> (yes: bool)
        ensures
            yes == (self@ & cause == cause),
    {
        self.bits & cause == cause
    }
}

} // verus!
