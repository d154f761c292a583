//! Instruction-set primitives: register identifiers and the decoded view
//! over a 32-bit instruction encoding.  Decoding is pure: every accessor is a
//! function of the encoding alone.

use vstd::prelude::*;

pub mod funct3;
pub mod funct7;
pub mod opcodes;

verus! {

/// One of the 32 integer registers.  Register `X0` is hardwired to zero.
#[derive(Clone, Copy, Debug, PartialEq, Eq, Structural)]
pub enum Register {
    X0,
    X1,
    X2,
    X3,
    X4,
    X5,
    X6,
    X7,
    X8,
    X9,
    X10,
    X11,
    X12,
    X13,
    X14,
    X15,
    X16,
    X17,
    X18,
    X19,
    X20,
    X21,
    X22,
    X23,
    X24,
    X25,
    X26,
    X27,
    X28,
    X29,
    X30,
    X31,
}

/// The index of a register, in `[0, 32)`.
pub open spec fn reg_num(r: Register) -> int {
    match r {
        Register::X0 => 0,
        Register::X1 => 1,
        Register::X2 => 2,
        Register::X3 => 3,
        Register::X4 => 4,
        Register::X5 => 5,
        Register::X6 => 6,
        Register::X7 => 7,
        Register::X8 => 8,
        Register::X9 => 9,
        Register::X10 => 10,
        Register::X11 => 11,
        Register::X12 => 12,
        Register::X13 => 13,
        Register::X14 => 14,
        Register::X15 => 15,
        Register::X16 => 16,
        Register::X17 => 17,
        Register::X18 => 18,
        Register::X19 => 19,
        Register::X20 => 20,
        Register::X21 => 21,
        Register::X22 => 22,
        Register::X23 => 23,
        Register::X24 => 24,
        Register::X25 => 25,
        Register::X26 => 26,
        Register::X27 => 27,
        Register::X28 => 28,
        Register::X29 => 29,
        Register::X30 => 30,
        Register::X31 => 31,
    }
}

impl Register {
    /// The index of this register, in `[0, 32)`.
    pub fn as_num(self) -> (r: usize)
        ensures
            r == reg_num(self),
    {
        match self {
            Register::X0 => 0,
            Register::X1 => 1,
            Register::X2 => 2,
            Register::X3 => 3,
            Register::X4 => 4,
            Register::X5 => 5,
            Register::X6 => 6,
            Register::X7 => 7,
            Register::X8 => 8,
            Register::X9 => 9,
            Register::X10 => 10,
            Register::X11 => 11,
            Register::X12 => 12,
            Register::X13 => 13,
            Register::X14 => 14,
            Register::X15 => 15,
            Register::X16 => 16,
            Register::X17 => 17,
            Register::X18 => 18,
            Register::X19 => 19,
            Register::X20 => 20,
            Register::X21 => 21,
            Register::X22 => 22,
            Register::X23 => 23,
            Register::X24 => 24,
            Register::X25 => 25,
            Register::X26 => 26,
            Register::X27 => 27,
            Register::X28 => 28,
            Register::X29 => 29,
            Register::X30 => 30,
            Register::X31 => 31,
        }
    }

    /// The register with index `num`.
    pub fn from_num(num: u32) -> (r: Register)
        requires
            num < 32,
        ensures
            reg_num(r) == num,
    {
        match num {
            0 => Register::X0,
            1 => Register::X1,
            2 => Register::X2,
            3 => Register::X3,
            4 => Register::X4,
            5 => Register::X5,
            6 => Register::X6,
            7 => Register::X7,
            8 => Register::X8,
            9 => Register::X9,
            10 => Register::X10,
            11 => Register::X11,
            12 => Register::X12,
            13 => Register::X13,
            14 => Register::X14,
            15 => Register::X15,
            16 => Register::X16,
            17 => Register::X17,
            18 => Register::X18,
            19 => Register::X19,
            20 => Register::X20,
            21 => Register::X21,
            22 => Register::X22,
            23 => Register::X23,
            24 => Register::X24,
            25 => Register::X25,
            26 => Register::X26,
            27 => Register::X27,
            28 => Register::X28,
            29 => Register::X29,
            30 => Register::X30,
            _ => Register::X31,
        }
    }
}

/// Sign extension: the value of the `v` interpreted as a two's-complement
/// number of `full = 2 * half` states, as a mathematical integer in
/// `[-half, half)`.
pub open spec fn spec_sext(v: u32, half: int, full: int) -> int {
    if v < half {
        v as int
    } else {
        v - full
    }
}

/// The major opcode: bits `[6:0]` of the encoding.
pub open spec fn spec_opcode(w: u32) -> u32 {
    w & 0x7F
}

/// The destination register index: bits `[11:7]`.
pub open spec fn spec_rd(w: u32) -> u32 {
    (w >> 7) & 0x1F
}

/// The minor opcode: bits `[14:12]`.
pub open spec fn spec_funct3(w: u32) -> u32 {
    (w >> 12) & 0x7
}

/// The funct7 field: bits `[31:25]`.
pub open spec fn spec_funct7(w: u32) -> u32 {
    (w >> 25) & 0x7F
}

/// The immediate shift amount: bits `[24:20]`.
pub open spec fn spec_shamt(w: u32) -> u32 {
    (w >> 20) & 0x1F
}

/// The first source register index: bits `[19:15]`.
pub open spec fn spec_rs1(w: u32) -> u32 {
    (w >> 15) & 0x1F
}

/// The second source register index: bits `[24:20]`.
pub open spec fn spec_rs2(w: u32) -> u32 {
    (w >> 20) & 0x1F
}

/// The I-type immediate: bits `[31:20]`, sign-extended from 12 bits.
pub open spec fn spec_i_imm(w: u32) -> int {
    spec_sext(w >> 20, 0x800, 0x1000)
}

/// The S-type immediate: bits `[31:25]` over bits `[11:7]`, sign-extended
/// from 12 bits.
pub open spec fn spec_s_imm(w: u32) -> int {
    spec_sext(((w >> 25) << 5) | ((w >> 7) & 0x1F), 0x800, 0x1000)
}

/// The U-type immediate: bits `[31:12]` shifted left by 12, read as a signed
/// 32-bit value.
pub open spec fn spec_u_imm(w: u32) -> int {
    spec_sext(w & 0xFFFFF000, 0x8000_0000, 0x1_0000_0000)
}

/// The UJ-type immediate: `{bit 31, bits [19:12], bit 20, bits [30:21], 0}`,
/// sign-extended from 21 bits.  Bit 0 is always zero.
pub open spec fn spec_uj_imm(w: u32) -> int {
    spec_sext(
        ((w >> 31) << 20) | (((w >> 12) & 0xFF) << 12) | (((w >> 20) & 0x1) << 11) | (((w >> 21)
            & 0x3FF) << 1),
        0x100000,
        0x200000,
    )
}

/// The SB-type immediate: `{bit 31, bit 7, bits [30:25], bits [11:8], 0}`,
/// sign-extended from 13 bits.  Bit 0 is always zero.
pub open spec fn spec_sb_imm(w: u32) -> int {
    spec_sext(
        ((w >> 31) << 12) | (((w >> 7) & 0x1) << 11) | (((w >> 25) & 0x3F) << 5) | (((w >> 8) & 0xF)
            << 1),
        0x1000,
        0x2000,
    )
}

/// Sign-extend `v`, a two's-complement value with `full = 2 * half` states,
/// into a signed 32-bit integer.
fn sext(v: u32, half: u32, full: u64) -> (r: i32)
    requires
        0 < half <= 0x8000_0000,
        full == 2 * half,
        v < full,
    ensures
        r as int == spec_sext(v, half as int, full as int),
{
    if v < half {
        v as i32
    } else {
        ((v as i64) - (full as i64)) as i32
    }
}

/// A decoded view over one 32-bit instruction encoding.  The view `@` is the
/// encoding itself; every accessor is specified as a pure function of it.
#[derive(Clone, Copy, Debug)]
pub struct Instruction {
    word: u32,
}

impl View for Instruction {
    type V = u32;

    closed spec fn view(&self) -> u32 {
        self.word
    }
}

/// The decoded view of the encoding `w`, as a value: two instructions with
/// the same encoding are the same instruction.
pub closed spec fn spec_instruction(w: u32) -> Instruction {
    Instruction { word: w }
}

impl Instruction {
    /// The decoded view of the encoding `word`.
    pub fn new(word: u32) -> (r: Instruction)
        ensures
            r@ == word,
            r == spec_instruction(word),
    {
        Instruction { word }
    }

    /// The major opcode: bits `[6:0]`.
    pub fn opcode(&self) -> (r: u32)
        ensures
            r == spec_opcode(self@),
    {
        self.word & 0x7F
    }

    /// The destination register: bits `[11:7]`.
    pub fn rd(&self) -> (r: Register)
        ensures
            reg_num(r) == spec_rd(self@),
    {
        let w = self.word;
        let n = (w >> 7) & 0x1F;
        proof {
            assert((w >> 7) & 0x1F < 32) by (bit_vector);
        }
        Register::from_num(n)
    }

    /// The minor opcode: bits `[14:12]`.
    pub fn funct3(&self) -> (r: u32)
        ensures
            r == spec_funct3(self@),
    {
        (self.word >> 12) & 0x7
    }

    /// The funct7 field: bits `[31:25]`.
    pub fn funct7(&self) -> (r: u32)
        ensures
            r == spec_funct7(self@),
    {
        (self.word >> 25) & 0x7F
    }

    /// The immediate shift amount: bits `[24:20]`.
    pub fn shamt(&self) -> (r: u32)
        ensures
            r == spec_shamt(self@),
    {
        (self.word >> 20) & 0x1F
    }

    /// The first source register: bits `[19:15]`.
    pub fn rs1(&self) -> (r: Register)
        ensures
            reg_num(r) == spec_rs1(self@),
    {
        let w = self.word;
        let n = (w >> 15) & 0x1F;
        proof {
            assert((w >> 15) & 0x1F < 32) by (bit_vector);
        }
        Register::from_num(n)
    }

    /// The second source register: bits `[24:20]`.
    pub fn rs2(&self) -> (r: Register)
        ensures
            reg_num(r) == spec_rs2(self@),
    {
        let w = self.word;
        let n = (w >> 20) & 0x1F;
        proof {
            assert((w >> 20) & 0x1F < 32) by (bit_vector);
        }
        Register::from_num(n)
    }

    /// The I-type immediate, sign-extended.
    pub fn i_imm(&self) -> (r: i32)
        ensures
            r as int == spec_i_imm(self@),
    {
        let w = self.word;
        let v = w >> 20;
        proof {
            assert(w >> 20 < 0x1000) by (bit_vector);
        }
        sext(v, 0x800, 0x1000)
    }

    /// The S-type immediate, sign-extended.
    pub fn s_imm(&self) -> (r: i32)
        ensures
            r as int == spec_s_imm(self@),
    {
        let w = self.word;
        let v = ((w >> 25) << 5) | ((w >> 7) & 0x1F);
        proof {
            assert(((w >> 25) << 5) | ((w >> 7) & 0x1F) < 0x1000) by (bit_vector);
        }
        sext(v, 0x800, 0x1000)
    }

    /// The U-type immediate: bits `[31:12]` over twelve zero bits, read as a
    /// signed value.
    pub fn u_imm(&self) -> (r: i32)
        ensures
            r as int == spec_u_imm(self@),
    {
        let v = self.word & 0xFFFFF000;
        sext(v, 0x8000_0000, 0x1_0000_0000)
    }

    /// The UJ-type immediate, sign-extended.  Bit 0 is always zero.
    pub fn uj_imm(&self) -> (r: i32)
        ensures
            r as int == spec_uj_imm(self@),
    {
        let w = self.word;
        let v = ((w >> 31) << 20) | (((w >> 12) & 0xFF) << 12) | (((w >> 20) & 0x1) << 11) | (((w
            >> 21) & 0x3FF) << 1);
        proof {
            assert(((w >> 31) << 20) | (((w >> 12) & 0xFF) << 12) | (((w >> 20) & 0x1) << 11) | (((w
                >> 21) & 0x3FF) << 1) < 0x200000) by (bit_vector);
        }
        sext(v, 0x100000, 0x200000)
    }

    /// The SB-type immediate, sign-extended.  Bit 0 is always zero.
    pub fn sb_imm(&self) -> (r: i32)
        ensures
            r as int == spec_sb_imm(self@),
    {
        let w = self.word;
        let v = ((w >> 31) << 12) | (((w >> 7) & 0x1) << 11) | (((w >> 25) & 0x3F) << 5) | (((w
            >> 8) & 0xF) << 1);
        proof {
            assert(((w >> 31) << 12) | (((w >> 7) & 0x1) << 11) | (((w >> 25) & 0x3F) << 5) | (((w
                >> 8) & 0xF) << 1) < 0x2000) by (bit_vector);
        }
        sext(v, 0x1000, 0x2000)
    }
}

/// The value of `x` read as a two's-complement signed 32-bit number.
pub open spec fn s32(x: u32) -> int {
    if x >= 0x8000_0000 {
        x - 0x1_0000_0000
    } else {
        x as int
    }
}

/// Arithmetic shift right: the sign bit is replicated into the vacated
/// positions.
pub open spec fn sra32(x: u32, sh: u32) -> u32 {
    if x < 0x8000_0000 {
        x >> sh
    } else {
        !((!x) >> sh)
    }
}

/// Signed comparison of two words: `s32(a) < s32(b)`.
pub fn signed_lt(a: u32, b: u32) -> (r: bool)
    ensures
        r == (s32(a) < s32(b)),
{
    if (a >= 0x8000_0000) == (b >= 0x8000_0000) {
        a < b
    } else {
        a >= 0x8000_0000
    }
}

/// Arithmetic shift right of `x` by `sh` positions.
pub fn sra(x: u32, sh: u32) -> (r: u32)
    requires
        sh < 32,
    ensures
        r == sra32(x, sh),
{
    if x < 0x8000_0000 {
        x >> sh
    } else {
        !((!x) >> sh)
    }
}

/// Reading a wrapped value back as signed recovers it, for values inside the
/// signed 32-bit range.
pub proof fn lemma_s32_wrap32(v: int)
    requires
        -0x8000_0000 <= v < 0x8000_0000,
    ensures
        s32(crate::memory::wrap32(v) as u32) == v,
{
    crate::memory::lemma_wrap32_cases(v);
}

/// Decoder determinism: every accessor of the decoded view is a pure function
/// of the 32-bit encoding, so equal encodings decode to equal accessor
/// tuples.
pub proof fn lemma_decoder_deterministic(a: u32, b: u32)
    requires
        a == b,
    ensures
        spec_opcode(a) == spec_opcode(b),
        spec_rd(a) == spec_rd(b),
        spec_funct3(a) == spec_funct3(b),
        spec_funct7(a) == spec_funct7(b),
        spec_shamt(a) == spec_shamt(b),
        spec_rs1(a) == spec_rs1(b),
        spec_rs2(a) == spec_rs2(b),
        spec_i_imm(a) == spec_i_imm(b),
        spec_s_imm(a) == spec_s_imm(b),
        spec_u_imm(a) == spec_u_imm(b),
        spec_uj_imm(a) == spec_uj_imm(b),
        spec_sb_imm(a) == spec_sb_imm(b),
{
}

}
