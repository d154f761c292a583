//! `funct3` minor opcode constants, grouped by the major opcode they refine.

use vstd::prelude::*;

verus! {

pub const ADDI: u32 = 0x0;

pub const SLLI: u32 = 0x1;

pub const SLTI: u32 = 0x2;

pub const SLTIU: u32 = 0x3;

pub const XORI: u32 = 0x4;

pub const SRLI_SRAI: u32 = 0x5;

pub const ORI: u32 = 0x6;

pub const ANDI: u32 = 0x7;

pub const ADD_SUB: u32 = 0x0;

pub const SLL: u32 = 0x1;

pub const SLT: u32 = 0x2;

pub const SLTU: u32 = 0x3;

pub const XOR: u32 = 0x4;

pub const SRL_SRA: u32 = 0x5;

pub const OR: u32 = 0x6;

pub const AND: u32 = 0x7;

pub const BEQ: u32 = 0x0;

pub const BNE: u32 = 0x1;

pub const BLT: u32 = 0x4;

pub const BGE: u32 = 0x5;

pub const BLTU: u32 = 0x6;

pub const BGEU: u32 = 0x7;

pub const LB: u32 = 0x0;

pub const LH: u32 = 0x1;

pub const LW: u32 = 0x2;

pub const LBU: u32 = 0x4;

pub const LHU: u32 = 0x5;

pub const SB: u32 = 0x0;

pub const SH: u32 = 0x1;

pub const SW: u32 = 0x2;

}
