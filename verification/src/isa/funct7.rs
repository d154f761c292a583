//! `funct7` minor opcode constants disambiguating shift and add/sub forms.

use vstd::prelude::*;

verus! {

pub const SRLI: u32 = 0x00;

pub const SRAI: u32 = 0x20;

pub const ADD_SRL: u32 = 0x00;

pub const SUB_SRA: u32 = 0x20;

}
