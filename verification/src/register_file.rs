//! The per-core register file: 32 words with register 0 hardwired to zero.

use vstd::prelude::*;

use crate::isa::reg_num;
use crate::isa::Register;

verus! {

/// Every register file has exactly 32 slots.
pub proof fn lemma_register_file_len(rf: &RegisterFile)
    ensures
        rf@.len() == 32,
{
}

/// 32 word-sized register slots.  Writes to `X0` are silently dropped, so
/// slot 0 always holds zero.
pub struct RegisterFile {
    registers: [u32; 32],
}

impl View for RegisterFile {
    type V = Seq<u32>;

    closed spec fn view(&self) -> Seq<u32> {
        self.registers@
    }
}

impl RegisterFile {
    /// Register 0 is hardwired to zero; every register file ever observable
    /// satisfies this.
    #[verifier::type_invariant]
    closed spec fn wf(self) -> bool {
        self.registers@[0] == 0u32
    }

    /// A register file with every register zeroed.
    pub fn new() -> (r: RegisterFile)
        ensures
            r@.len() == 32,
            forall|i: int| 0 <= i < 32 ==> r@[i] == 0u32,
    {
        RegisterFile { registers: [0u32; 32] }
    }

    /// Write `value` to `reg`.  A write to `X0` (register 0) is dropped.
    pub fn write_word(&mut self, reg: Register, value: u32)
        ensures
            final(self)@ == if reg_num(reg) == 0 {
                old(self)@
            } else {
                old(self)@.update(reg_num(reg), value)
            },
    {
        if let Register::X0 = reg {
            return ;
        }
        proof {
            use_type_invariant(&*self);
        }
        let n = reg.as_num();
        self.registers[n] = value;
    }

    /// Read `reg`.
    ///
    /// The second clause is the register-zero law: whatever sequence of
    /// writes produced this register file, reading `X0` returns zero.  It
    /// holds because slot 0 is zero at construction and `write_word` drops
    /// writes to `X0`.
    pub fn read_word(&self, reg: Register) -> (r: u32)
        ensures
            r == self@[reg_num(reg)],
            reg == Register::X0 ==> r == 0u32,
    {
        proof {
            use_type_invariant(self);
        }
        let n = reg.as_num();
        self.registers[n]
    }
}

}
