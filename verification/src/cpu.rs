//! The values that the kernel writes to two control registers of the
//! processor before it sets up memory.

use vstd::prelude::*;

verus! {

/// The bit of the extended feature register that lets a page be barred
/// from execution.
pub const NXE_BIT: u64 = 0x800;

/// The bit of control register 0 that makes the kernel, too, obey a
/// page's write protection.
pub const WRITE_PROTECT_BIT: u64 = 0x1_0000;

/// The value of the extended feature register `efer` with the no-execute
/// feature switched on; no other bit changes.
pub fn enable_nxe_bit(efer: u64) -> (value: u64)
    ensures
        value == efer | NXE_BIT,
{
    efer | NXE_BIT
}

/// The value of control register 0 `cr0` with write protection switched
/// on; no other bit changes.
pub fn enable_write_protect_bit(cr0: u64) -> (value: u64)
    ensures
        value == cr0 | WRITE_PROTECT_BIT,
{
    cr0 | WRITE_PROTECT_BIT
}

} // verus!
