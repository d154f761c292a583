//! Major opcode constants of the 32-bit base integer instruction set.

use vstd::prelude::*;

verus! {

pub const LUI: u32 = 0x37;

pub const AUIPC: u32 = 0x17;

pub const BRANCH: u32 = 0x63;

pub const JALR: u32 = 0x67;

pub const JAL: u32 = 0x6F;

pub const INTEGER_IMMEDIATE: u32 = 0x13;

pub const INTEGER_REGISTER: u32 = 0x33;

pub const LOAD: u32 = 0x3;

pub const STORE: u32 = 0x23;

pub const SYSTEM: u32 = 0x73;

}
