//! Precise exceptions raised by a core.  A trap halts the issuing core and is
//! reported to the host; it does not stop the simulation.

use vstd::prelude::*;

use crate::isa::Instruction;

verus! {

/// A precise exception.  `address` is the program counter of the faulting
/// instruction.
#[derive(Clone, Copy, Debug)]
pub enum Trap {
    /// The decoder dispatch met an unknown minor opcode.
    IllegalInstruction { address: u32, instruction: Instruction },
    /// A load reached an address outside the backing store.
    IllegalRead { address: u32, instruction: Instruction, memory_address: u32 },
    /// A store reached an address outside the backing store (or the reserved
    /// word 0).
    IllegalWrite {
        address: u32,
        instruction: Instruction,
        memory_address: u32,
        memory_value: u32,
    },
}

}
