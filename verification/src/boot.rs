//! The boot hand-off. On hardware the jump is a short interrupt-free
//! register sequence: relocate the vector-table base, load the first two
//! words of the table, set the stack pointer to the first and branch to the
//! second, never returning. This module computes that terminal CPU state
//! from the flashed image; carrying it out is the surrounding firmware's
//! last act.

use crate::device::{DeviceError, SimFlash};
use crate::flash::FLASH_BASE;
use crate::uf2::le_word;
use vstd::prelude::*;

verus! {

/// Byte offset from the flash base address at which a valid program's
/// vector table must begin.
pub const BOOT_VECTOR_OFFSET: u32 = 0x100;

/// The fixed absolute address handed to the boot trampoline.
pub const BOOT_TARGET: u32 = FLASH_BASE + BOOT_VECTOR_OFFSET;

/// The terminal CPU state the one-way jump establishes. There is no return
/// path: after the hand-off the old program no longer exists.
#[derive(Clone, Copy, Debug, PartialEq, Eq, Structural)]
pub struct BootHandoff {
    /// Where the vector-table-base register points: the new table itself.
    pub vector_table: u32,
    /// The machine stack pointer, loaded from the table's first word.
    pub stack_pointer: u32,
    /// The program counter, loaded from the table's second word.
    pub entry: u32,
}

/// Computes the hand-off of jumping through the vector table at `dest`:
/// the stack pointer comes from the table's first word and the entry
/// address from its second. The caller must already have disabled
/// interrupts and stopped every other use of the processor and the flash.
pub fn boot(flash: &SimFlash, dest: u32) -> (r: Result<BootHandoff, DeviceError>)
    requires
        flash.wf(),
    ensures
        match r {
            Ok(h) => {
                &&& dest >= flash.spec_base()
                &&& dest - flash.spec_base() + 8 <= flash.mem().len()
                &&& h.vector_table == dest
                &&& h.stack_pointer == le_word(flash.mem(), dest - flash.spec_base())
                &&& h.entry == le_word(flash.mem(), dest - flash.spec_base() + 4)
            },
            Err(e) => e == DeviceError::OutOfRange && (dest < flash.spec_base() || dest
                - flash.spec_base() + 8 > flash.mem().len()),
        },
{
    let stack_pointer = match flash.read_word(dest) {
        Ok(w) => w,
        Err(e) => {
            return Err(e);
        },
    };
    if dest > u32::MAX - 4 {
        // The second word would sit past the end of the address space, and
        // the device fits inside it.
        return Err(DeviceError::OutOfRange);
    }
    let entry = match flash.read_word(dest + 4) {
        Ok(w) => w,
        Err(e) => {
            return Err(e);
        },
    };
    Ok(BootHandoff { vector_table: dest, stack_pointer, entry })
}

} // verus!
