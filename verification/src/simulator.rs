//! The instruction cores and the driver that advances them.  A core executes
//! one instruction per non-stalled cycle; the driver steps every core and
//! then every cache once per tick.

use vstd::prelude::*;

use crate::cache::spec_cache_read_post;
use crate::cache::spec_cache_read_result;
use crate::cache::spec_cache_word;
use crate::cache::spec_cache_write_mem_post;
use crate::cache::spec_cache_write_post;
use crate::cache::spec_cache_write_result;
use crate::cache::CacheEventHandler;
use crate::cache::CacheModel;
use crate::cache::DirectMappedCache;
use crate::isa;
use crate::isa::funct3;
use crate::isa::funct7;
use crate::isa::opcodes;
use crate::isa::reg_num;
use crate::isa::s32;
use crate::isa::sra32;
use crate::isa::spec_funct3;
use crate::isa::spec_funct7;
use crate::isa::spec_i_imm;
use crate::isa::spec_opcode;
use crate::isa::spec_rd;
use crate::isa::spec_rs1;
use crate::isa::spec_rs2;
use crate::isa::spec_s_imm;
use crate::isa::spec_sb_imm;
use crate::isa::spec_shamt;
use crate::isa::spec_u_imm;
use crate::isa::spec_uj_imm;
use crate::isa::Instruction;
use crate::memory::byte_of;
use crate::memory::half_of;
use crate::memory::with_byte;
use crate::memory::with_half;
use crate::memory::wrap32;
use crate::memory::Memory;
use crate::memory::MemoryError;
use crate::memory::Mmu;
use crate::register_file::RegisterFile;
use crate::trap::Trap;

verus! {

/// The handler that services environment calls.  It may rewrite the
/// caller's registers, consult the caller's address translator, and may ask
/// the whole simulation to halt.
pub trait SyscallHandler {
    fn syscall<M: Mmu>(
        &mut self,
        core_id: usize,
        registers: &mut RegisterFile,
        mmu: &M,
    ) -> Option<Trap>;

    fn should_halt(&self) -> bool;
}

/// The handler that services no calls: every call is a no-op and the
/// simulation is never asked to halt.
pub struct EmptySyscallHandler {}

impl SyscallHandler for EmptySyscallHandler {
    fn syscall<M: Mmu>(
        &mut self,
        _core_id: usize,
        _registers: &mut RegisterFile,
        _mmu: &M,
    ) -> Option<Trap> {
        None
    }

    fn should_halt(&self) -> bool {
        false
    }
}

/// Why the simulator has halted execution.
#[derive(Clone, Copy, Debug, PartialEq, Eq, Structural)]
pub enum HaltReason {
    /// All cores have halted execution.
    CoresHalted,
    /// The simulator has hit the cycle limit.
    OutOfCycles,
    /// The syscall handler has requested a halt.
    SystemHalt,
}

/// The observable state of one core.
#[verifier::ext_equal]
pub ghost struct CoreModel {
    pub id: int,
    pub pc: u32,
    pub regs: Seq<u32>,
    pub stall: u32,
    pub running: bool,
    pub cache_index: int,
    pub cycle_count: u32,
    pub stall_count: u32,
}

/// `c` one cycle later, before any instruction effect.
pub open spec fn core_tick(c: CoreModel) -> CoreModel {
    CoreModel { cycle_count: wrap32(c.cycle_count + 1) as u32, ..c }
}

/// The register file after writing `v` to register `n`: a write to register
/// 0 is dropped.
pub open spec fn reg_write(regs: Seq<u32>, n: int, v: u32) -> Seq<u32> {
    if n == 0 {
        regs
    } else {
        regs.update(n, v)
    }
}

/// A byte value zero-extended to 32 bits, then sign-extended from bit 7.
pub open spec fn sext8(b: u32) -> u32 {
    if b >= 0x80 {
        (b + 0xFFFF_FF00) as u32
    } else {
        b
    }
}

/// A halfword value zero-extended to 32 bits, then sign-extended from bit
/// 15.
pub open spec fn sext16(h: u32) -> u32 {
    if h >= 0x8000 {
        (h + 0xFFFF_0000) as u32
    } else {
        h
    }
}

/// Whether a branch with minor opcode `f3` comparing `a` against `b` is
/// taken; `None` for an unknown condition code.
pub open spec fn spec_branch_taken(f3: u32, a: u32, b: u32) -> Option<bool> {
    if f3 == funct3::BEQ {
        Some(a == b)
    } else if f3 == funct3::BNE {
        Some(a != b)
    } else if f3 == funct3::BLT {
        Some(s32(a) < s32(b))
    } else if f3 == funct3::BGE {
        Some(s32(a) >= s32(b))
    } else if f3 == funct3::BLTU {
        Some(a < b)
    } else if f3 == funct3::BGEU {
        Some(a >= b)
    } else {
        None
    }
}

/// The result an immediate-operand ALU instruction writes to `rd`, given the
/// first source register value `src`; `None` when the shift form carries an
/// unknown funct7.
pub open spec fn spec_op_imm(w: u32, src: u32) -> Option<u32> {
    let f3 = spec_funct3(w);
    let imm = spec_i_imm(w);
    let immu = wrap32(imm) as u32;
    let sh = spec_shamt(w);
    if f3 == funct3::ADDI {
        Some(wrap32(src + imm) as u32)
    } else if f3 == funct3::SLLI {
        Some(src << sh)
    } else if f3 == funct3::SLTI {
        Some(
            if s32(src) < imm {
                1u32
            } else {
                0u32
            },
        )
    } else if f3 == funct3::SLTIU {
        Some(
            if src < immu {
                1u32
            } else {
                0u32
            },
        )
    } else if f3 == funct3::XORI {
        Some(src ^ immu)
    } else if f3 == funct3::SRLI_SRAI {
        if spec_funct7(w) == funct7::SRLI {
            Some(src >> sh)
        } else if spec_funct7(w) == funct7::SRAI {
            Some(sra32(src, sh))
        } else {
            None
        }
    } else if f3 == funct3::ORI {
        Some(src | immu)
    } else {
        Some(src & immu)
    }
}

/// The result a register-operand ALU instruction writes to `rd`, given the
/// two source register values; `None` when the add/sub or shift form carries
/// an unknown funct7.
pub open spec fn spec_op(w: u32, a: u32, b: u32) -> Option<u32> {
    let f3 = spec_funct3(w);
    let f7 = spec_funct7(w);
    let sh = b & 0x1F;
    if f3 == funct3::ADD_SUB {
        if f7 == funct7::ADD_SRL {
            Some(wrap32(a + b) as u32)
        } else if f7 == funct7::SUB_SRA {
            Some(wrap32(a - b) as u32)
        } else {
            None
        }
    } else if f3 == funct3::SLL {
        Some(a << sh)
    } else if f3 == funct3::SLT {
        Some(
            if s32(a) < s32(b) {
                1u32
            } else {
                0u32
            },
        )
    } else if f3 == funct3::SLTU {
        Some(
            if a < b {
                1u32
            } else {
                0u32
            },
        )
    } else if f3 == funct3::XOR {
        Some(a ^ b)
    } else if f3 == funct3::SRL_SRA {
        if f7 == funct7::ADD_SRL {
            Some(a >> sh)
        } else if f7 == funct7::SUB_SRA {
            Some(sra32(a, sh))
        } else {
            None
        }
    } else if f3 == funct3::OR {
        Some(a | b)
    } else {
        Some(a & b)
    }
}

/// Whether `f3` names a load width.
pub open spec fn load_legal(f3: u32) -> bool {
    f3 == funct3::LB || f3 == funct3::LH || f3 == funct3::LW || f3 == funct3::LBU || f3
        == funct3::LHU
}

/// Whether `f3` names a store width.
pub open spec fn store_legal(f3: u32) -> bool {
    f3 == funct3::SB || f3 == funct3::SH || f3 == funct3::SW
}

/// The value a load writes to `rd`, given the word `wv` the cache resolved
/// for the translated address `addr`.
pub open spec fn spec_load_value(f3: u32, wv: u32, addr: u32) -> u32 {
    if f3 == funct3::LB {
        sext8(byte_of(wv, addr))
    } else if f3 == funct3::LBU {
        byte_of(wv, addr)
    } else if f3 == funct3::LH {
        sext16(half_of(wv, addr))
    } else if f3 == funct3::LHU {
        half_of(wv, addr)
    } else {
        wv
    }
}

/// The word a store pushes through the cache: the stored lane is replaced
/// inside the word `cached` that the cache holds for the translated address.
pub open spec fn spec_store_value(f3: u32, cached: u32, addr: u32, val: u32) -> u32 {
    if f3 == funct3::SB {
        with_byte(cached, addr, val & 0xFF)
    } else if f3 == funct3::SH {
        with_half(cached, addr, val & 0xFFFF)
    } else {
        val
    }
}

/// One non-stalled execution step: how the core, its cache and the backing
/// memory move, and which trap (if any) is reported, as a function of the
/// decoded instruction.  `tr` is the core's address translation.
pub open spec fn spec_exec_rel<M: Mmu>(
    c0: CoreModel,
    inst: Instruction,
    mmu: M,
    m0: CacheModel,
    mem0: Seq<u32>,
    c1: CoreModel,
    m1: CacheModel,
    mem1: Seq<u32>,
    t: Option<Trap>,
) -> bool {
    let w = inst@;
    let op = spec_opcode(w);
    let c = core_tick(c0);
    let pc4 = wrap32(c0.pc + 4) as u32;
    let rd = spec_rd(w) as int;
    let rs1v = c0.regs[spec_rs1(w) as int];
    let rs2v = c0.regs[spec_rs2(w) as int];
    if op == opcodes::LUI {
        &&& c1 == (CoreModel { pc: pc4, regs: reg_write(c0.regs, rd, wrap32(spec_u_imm(w)) as u32), ..c })
        &&& m1 == m0
        &&& mem1 == mem0
        &&& t is None
    } else if op == opcodes::AUIPC {
        &&& c1 == (CoreModel {
            pc: pc4,
            regs: reg_write(c0.regs, rd, wrap32(c0.pc + spec_u_imm(w)) as u32),
            ..c
        })
        &&& m1 == m0
        &&& mem1 == mem0
        &&& t is None
    } else if op == opcodes::JALR {
        let target = wrap32(rs1v + spec_i_imm(w)) as u32;
        &&& if target == 0 {
            c1 == (CoreModel { pc: pc4, running: false, ..c })
        } else {
            c1 == (CoreModel { pc: target, regs: reg_write(c0.regs, rd, pc4), ..c })
        }
        &&& m1 == m0
        &&& mem1 == mem0
        &&& t is None
    } else if op == opcodes::JAL {
        &&& c1 == (CoreModel {
            pc: wrap32(c0.pc + spec_uj_imm(w)) as u32,
            regs: reg_write(c0.regs, rd, pc4),
            ..c
        })
        &&& m1 == m0
        &&& mem1 == mem0
        &&& t is None
    } else if op == opcodes::BRANCH {
        &&& (match spec_branch_taken(spec_funct3(w), rs1v, rs2v) {
            Some(true) => {
                &&& c1 == (CoreModel { pc: wrap32(c0.pc + spec_sb_imm(w)) as u32, ..c })
                &&& t is None
            },
            Some(false) => {
                &&& c1 == (CoreModel { pc: pc4, ..c })
                &&& t is None
            },
            None => {
                &&& c1 == (CoreModel { pc: pc4, running: false, ..c })
                &&& t == Some(Trap::IllegalInstruction { address: c0.pc, instruction: inst })
            },
        })
        &&& m1 == m0
        &&& mem1 == mem0
    } else if op == opcodes::INTEGER_IMMEDIATE {
        &&& (match spec_op_imm(w, rs1v) {
            Some(v) => {
                &&& c1 == (CoreModel { pc: pc4, regs: reg_write(c0.regs, rd, v), ..c })
                &&& t is None
            },
            None => {
                &&& c1 == (CoreModel { pc: pc4, running: false, ..c })
                &&& t == Some(Trap::IllegalInstruction { address: c0.pc, instruction: inst })
            },
        })
        &&& m1 == m0
        &&& mem1 == mem0
    } else if op == opcodes::INTEGER_REGISTER {
        &&& (match spec_op(w, rs1v, rs2v) {
            Some(v) => {
                &&& c1 == (CoreModel { pc: pc4, regs: reg_write(c0.regs, rd, v), ..c })
                &&& t is None
            },
            None => {
                &&& c1 == (CoreModel { pc: pc4, running: false, ..c })
                &&& t == Some(Trap::IllegalInstruction { address: c0.pc, instruction: inst })
            },
        })
        &&& m1 == m0
        &&& mem1 == mem0
    } else if op == opcodes::LOAD {
        let f3 = spec_funct3(w);
        let addr = mmu.spec_translate(wrap32(rs1v + spec_i_imm(w)) as u32);
        if !load_legal(f3) {
            &&& c1 == (CoreModel { pc: pc4, running: false, ..c })
            &&& t == Some(Trap::IllegalInstruction { address: c0.pc, instruction: inst })
            &&& m1 == m0
            &&& mem1 == mem0
        } else {
            &&& m1 == spec_cache_read_post(m0, addr)
            &&& mem1 == mem0
            &&& (match spec_cache_read_result(m0, addr) {
                Ok(wv) => {
                    &&& c1 == (CoreModel {
                        pc: pc4,
                        regs: reg_write(c0.regs, rd, spec_load_value(f3, wv, addr)),
                        ..c
                    })
                    &&& t is None
                },
                Err(MemoryError::CacheMiss { stall_cycles, retry }) => {
                    &&& c1 == (CoreModel {
                        pc: if retry {
                            c0.pc
                        } else {
                            pc4
                        },
                        stall: (stall_cycles - 1) as u32,
                        ..c
                    })
                    &&& t is None
                },
                Err(MemoryError::InvalidAddress) => {
                    &&& c1 == (CoreModel { pc: pc4, running: false, ..c })
                    &&& t == Some(
                        Trap::IllegalRead {
                            address: c0.pc,
                            instruction: inst,
                            memory_address: addr,
                        },
                    )
                },
            })
        }
    } else if op == opcodes::STORE {
        let f3 = spec_funct3(w);
        let addr = mmu.spec_translate(wrap32(rs1v + spec_s_imm(w)) as u32);
        if !store_legal(f3) {
            &&& c1 == (CoreModel { pc: pc4, running: false, ..c })
            &&& t == Some(Trap::IllegalInstruction { address: c0.pc, instruction: inst })
            &&& m1 == m0
            &&& mem1 == mem0
        } else {
            let nv = spec_store_value(f3, spec_cache_word(m0, addr), addr, rs2v);
            &&& m1 == spec_cache_write_post(m0, mem0, addr, nv)
            &&& mem1 == spec_cache_write_mem_post(mem0, m0, addr, nv)
            &&& (match spec_cache_write_result(m0, mem0, addr) {
                Ok(()) => {
                    &&& c1 == (CoreModel { pc: pc4, ..c })
                    &&& t is None
                },
                Err(MemoryError::CacheMiss { stall_cycles, retry }) => {
                    &&& c1 == (CoreModel {
                        pc: if retry {
                            c0.pc
                        } else {
                            pc4
                        },
                        stall: (stall_cycles - 1) as u32,
                        ..c
                    })
                    &&& t is None
                },
                Err(MemoryError::InvalidAddress) => {
                    &&& c1 == (CoreModel { pc: pc4, running: false, ..c })
                    &&& t == Some(
                        Trap::IllegalWrite {
                            address: c0.pc,
                            instruction: inst,
                            memory_address: addr,
                            memory_value: rs2v,
                        },
                    )
                },
            })
        }
    } else if op == opcodes::SYSTEM {
        if spec_i_imm(w) == 0 {
            &&& m1 == m0
            &&& mem1 == mem0
            &&& c1.id == c0.id
            &&& c1.pc == pc4
            &&& c1.stall == c0.stall
            &&& c1.cache_index == c0.cache_index
            &&& c1.cycle_count == c.cycle_count
            &&& c1.stall_count == c0.stall_count
            &&& c1.regs.len() == 32
            &&& (t is Some ==> c1.running == false)
            &&& (t is None ==> c1.running == c0.running)
        } else {
            &&& c1 == (CoreModel { pc: pc4, ..c })
            &&& m1 == m0
            &&& mem1 == mem0
            &&& t is None
        }
    } else {
        // unknown major opcode
        &&& c1 == (CoreModel { pc: pc4, running: false, ..c })
        &&& t == Some(Trap::IllegalInstruction { address: c0.pc, instruction: inst })
        &&& m1 == m0
        &&& mem1 == mem0
    }
}

/// One core: program counter, registers, stall state and counters, the
/// index of its cache in the driver, and its address translator.
pub struct Core<M: Mmu> {
    id: usize,
    pc: u32,
    registers: RegisterFile,
    stall: u32,
    running: bool,
    cache_index: usize,
    mmu: M,
    cycle_count: u32,
    stall_count: u32,
}

impl<M: Mmu> View for Core<M> {
    type V = CoreModel;

    closed spec fn view(&self) -> CoreModel {
        CoreModel {
            id: self.id as int,
            pc: self.pc,
            regs: self.registers@,
            stall: self.stall,
            running: self.running,
            cache_index: self.cache_index as int,
            cycle_count: self.cycle_count,
            stall_count: self.stall_count,
        }
    }
}

impl<M: Mmu> Core<M> {
    /// The core's translator, for use in contracts.
    pub closed spec fn spec_mmu(&self) -> M {
        self.mmu
    }

    /// A fresh core: program counter at `entry`, stack pointer register
    /// (`X2`) set to `sp`, every other register zero, running and not
    /// stalled.
    pub fn new(id: usize, entry: u32, sp: u32, cache_index: usize, mmu: M) -> (r: Core<M>)
        ensures
            r@.id == id,
            r@.pc == entry,
            r@.regs.len() == 32,
            r@.regs == Seq::new(32, |i: int| 0u32).update(2, sp),
            r@.stall == 0u32,
            r@.running == true,
            r@.cache_index == cache_index,
            r@.cycle_count == 0u32,
            r@.stall_count == 0u32,
            r.spec_mmu() == mmu,
    {
        let mut registers = RegisterFile::new();
        registers.write_word(isa::Register::X2, sp);
        proof {
            assert(registers@ =~= Seq::new(32, |i: int| 0u32).update(2, sp));
        }
        Core { id, pc: entry, registers, stall: 0, running: true, cache_index, mmu, cycle_count: 0, stall_count: 0 }
    }

    /// The core's registers, for inspection.
    pub fn registers(&self) -> (r: &RegisterFile)
        ensures
            r@ == self@.regs,
    {
        &self.registers
    }

    /// The current program counter.
    pub fn pc(&self) -> (r: u32)
        ensures
            r == self@.pc,
    {
        self.pc
    }

    /// Whether the core is still running.
    pub fn running(&self) -> (r: bool)
        ensures
            r == self@.running,
    {
        self.running
    }

    /// How many cycles of stall remain before the core reissues its memory
    /// operation.
    pub fn stall(&self) -> (r: u32)
        ensures
            r == self@.stall,
    {
        self.stall
    }

    /// Execute one driver tick: count a stall down, or fetch nothing and
    /// execute the given instruction, routing loads and stores through this
    /// core's cache in front of `mem`.  Returns the trap raised, if any; a
    /// trap has also stopped the core.
    #[verifier::rlimit(100)]
    #[verifier::spinoff_prover]
    pub fn step<E: CacheEventHandler, S: SyscallHandler>(
        &mut self,
        inst: Instruction,
        cache: &mut DirectMappedCache<E>,
        mem: &mut Memory,
        system: &mut S,
    ) -> (t: Option<Trap>)
        requires
            old(cache).inv(),
        ensures
            final(cache).inv(),
            final(self).spec_mmu() == old(self).spec_mmu(),
            spec_step_rel(
                old(self)@,
                inst,
                old(self).spec_mmu(),
                old(cache)@,
                old(mem)@,
                final(self)@,
                final(cache)@,
                final(mem)@,
                t,
            ),
    {
        let ghost c0 = self@;
        let ghost m0 = cache@;
        let ghost mem0 = mem@;
        let pc = self.pc;
        proof {
            crate::memory::lemma_wrapping_is_wrap32(self.cycle_count, 1);
            crate::memory::lemma_wrapping_is_wrap32(pc, 4);
        }
        self.cycle_count = self.cycle_count.wrapping_add(1);

        if self.stall > 0 {
            proof {
                crate::memory::lemma_wrapping_is_wrap32(self.stall_count, 1);
            }
            self.stall = self.stall - 1;
            self.stall_count = self.stall_count.wrapping_add(1);
            return None;
        }
        let mut trap: Option<Trap> = None;
        let opcode = inst.opcode();

        if opcode == opcodes::LUI {
            let imm = inst.u_imm();
            proof {
                crate::memory::lemma_wrapping_add_signed_is_wrap32(0, imm);
            }
            let v = 0u32.wrapping_add_signed(imm);
            self.registers.write_word(inst.rd(), v);
        } else if opcode == opcodes::AUIPC {
            let imm = inst.u_imm();
            proof {
                crate::memory::lemma_wrapping_add_signed_is_wrap32(pc, imm);
            }
            let v = pc.wrapping_add_signed(imm);
            self.registers.write_word(inst.rd(), v);
        } else if opcode == opcodes::JALR {
            let base = self.registers.read_word(inst.rs1());
            let imm = inst.i_imm();
            proof {
                crate::memory::lemma_wrapping_add_signed_is_wrap32(base, imm);
            }
            let target = base.wrapping_add_signed(imm);
            let retval = pc.wrapping_add(4);
            if target == 0 {
                // returning to the null address halts this core
                self.running = false;
            } else {
                self.registers.write_word(inst.rd(), retval);
                self.pc = target;
                return None;
            }
        } else if opcode == opcodes::JAL {
            let imm = inst.uj_imm();
            proof {
                crate::memory::lemma_wrapping_add_signed_is_wrap32(pc, imm);
            }
            let target = pc.wrapping_add_signed(imm);
            self.registers.write_word(inst.rd(), pc.wrapping_add(4));
            self.pc = target;
            return None;
        } else if opcode == opcodes::BRANCH {
            let imm = inst.sb_imm();
            proof {
                crate::memory::lemma_wrapping_add_signed_is_wrap32(pc, imm);
            }
            let target = pc.wrapping_add_signed(imm);
            let rs1 = self.registers.read_word(inst.rs1());
            let rs2 = self.registers.read_word(inst.rs2());
            let f3 = inst.funct3();
            let taken: bool;
            if f3 == funct3::BEQ {
                taken = rs1 == rs2;
            } else if f3 == funct3::BNE {
                taken = rs1 != rs2;
            } else if f3 == funct3::BLT {
                taken = isa::signed_lt(rs1, rs2);
            } else if f3 == funct3::BGE {
                taken = !isa::signed_lt(rs1, rs2);
            } else if f3 == funct3::BLTU {
                taken = rs1 < rs2;
            } else if f3 == funct3::BGEU {
                taken = rs1 >= rs2;
            } else {
                trap = Some(Trap::IllegalInstruction { address: pc, instruction: inst });
                taken = false;
            }
            if taken {
                self.pc = target;
                return None;
            }
        } else if opcode == opcodes::INTEGER_IMMEDIATE {
            let imm = inst.i_imm();
            proof {
                crate::memory::lemma_wrapping_add_signed_is_wrap32(0, imm);
                isa::lemma_s32_wrap32(imm as int);
            }
            let immu = 0u32.wrapping_add_signed(imm);
            let src = self.registers.read_word(inst.rs1());
            let f3 = inst.funct3();
            let mut value: Option<u32> = None;
            if f3 == funct3::ADDI {
                proof {
                    crate::memory::lemma_wrapping_add_signed_is_wrap32(src, imm);
                }
                value = Some(src.wrapping_add_signed(imm));
            } else if f3 == funct3::SLLI {
                let sh = inst.shamt();
                proof {
                    let w = inst@;
                    assert((w >> 20) & 0x1F < 32) by (bit_vector);
                }
                value = Some(src << sh);
            } else if f3 == funct3::SLTI {
                value = Some(
                    if isa::signed_lt(src, immu) {
                        1
                    } else {
                        0
                    },
                );
            } else if f3 == funct3::SLTIU {
                value = Some(
                    if src < immu {
                        1
                    } else {
                        0
                    },
                );
            } else if f3 == funct3::XORI {
                value = Some(src ^ immu);
            } else if f3 == funct3::SRLI_SRAI {
                let sh = inst.shamt();
                proof {
                    let w = inst@;
                    assert((w >> 20) & 0x1F < 32) by (bit_vector);
                }
                let f7 = inst.funct7();
                if f7 == funct7::SRLI {
                    value = Some(src >> sh);
                } else if f7 == funct7::SRAI {
                    value = Some(isa::sra(src, sh));
                } else {
                    trap = Some(Trap::IllegalInstruction { address: pc, instruction: inst });
                }
            } else if f3 == funct3::ORI {
                value = Some(src | immu);
            } else {
                proof {
                    let w = inst@;
                    assert((w >> 12) & 0x7 < 8) by (bit_vector);
                }
                value = Some(src & immu);
            }
            if let Some(v) = value {
                self.registers.write_word(inst.rd(), v);
            }
        } else if opcode == opcodes::INTEGER_REGISTER {
            let src1 = self.registers.read_word(inst.rs1());
            let src2 = self.registers.read_word(inst.rs2());
            let sh = src2 & 0x1F;
            proof {
                let s = src2;
                assert(s & 0x1F < 32) by (bit_vector);
            }
            let f3 = inst.funct3();
            let mut value: Option<u32> = None;
            if f3 == funct3::ADD_SUB {
                let f7 = inst.funct7();
                if f7 == funct7::ADD_SRL {
                    proof {
                        crate::memory::lemma_wrapping_is_wrap32(src1, src2);
                    }
                    value = Some(src1.wrapping_add(src2));
                } else if f7 == funct7::SUB_SRA {
                    proof {
                        crate::memory::lemma_wrapping_is_wrap32(src1, src2);
                    }
                    value = Some(src1.wrapping_sub(src2));
                } else {
                    trap = Some(Trap::IllegalInstruction { address: pc, instruction: inst });
                }
            } else if f3 == funct3::SLL {
                value = Some(src1 << sh);
            } else if f3 == funct3::SLT {
                value = Some(
                    if isa::signed_lt(src1, src2) {
                        1
                    } else {
                        0
                    },
                );
            } else if f3 == funct3::SLTU {
                value = Some(
                    if src1 < src2 {
                        1
                    } else {
                        0
                    },
                );
            } else if f3 == funct3::XOR {
                value = Some(src1 ^ src2);
            } else if f3 == funct3::SRL_SRA {
                let f7 = inst.funct7();
                if f7 == funct7::ADD_SRL {
                    value = Some(src1 >> sh);
                } else if f7 == funct7::SUB_SRA {
                    value = Some(isa::sra(src1, sh));
                } else {
                    trap = Some(Trap::IllegalInstruction { address: pc, instruction: inst });
                }
            } else if f3 == funct3::OR {
                value = Some(src1 | src2);
            } else {
                proof {
                    let w = inst@;
                    assert((w >> 12) & 0x7 < 8) by (bit_vector);
                }
                value = Some(src1 & src2);
            }
            if let Some(v) = value {
                self.registers.write_word(inst.rd(), v);
            }
        } else if opcode == opcodes::LOAD {
            let imm = inst.i_imm();
            let base = self.registers.read_word(inst.rs1());
            proof {
                crate::memory::lemma_wrapping_add_signed_is_wrap32(base, imm);
            }
            let address = base.wrapping_add_signed(imm);
            let address = self.mmu.translate(address);
            let f3 = inst.funct3();
            if f3 == funct3::LB || f3 == funct3::LH || f3 == funct3::LW || f3 == funct3::LBU || f3
                == funct3::LHU {
                proof {
                    match spec_cache_read_result(m0, address) {
                        Ok(wv) => {
                            crate::memory::lemma_byte_of_bound(wv, address);
                            crate::memory::lemma_half_of_bound(wv, address);
                        },
                        Err(_) => {
                        },
                    }
                }
                let result: Result<u32, MemoryError> = if f3 == funct3::LB {
                    match cache.read_byte(address, mem) {
                        Ok(b) => {
                            let bv = b as u32;
                            Ok(
                                if bv >= 0x80 {
                                    bv + 0xFFFF_FF00
                                } else {
                                    bv
                                },
                            )
                        },
                        Err(e) => Err(e),
                    }
                } else if f3 == funct3::LH {
                    match cache.read_halfword(address, mem) {
                        Ok(h) => {
                            let hv = h as u32;
                            Ok(
                                if hv >= 0x8000 {
                                    hv + 0xFFFF_0000
                                } else {
                                    hv
                                },
                            )
                        },
                        Err(e) => Err(e),
                    }
                } else if f3 == funct3::LBU {
                    match cache.read_byte(address, mem) {
                        Ok(b) => Ok(b as u32),
                        Err(e) => Err(e),
                    }
                } else if f3 == funct3::LHU {
                    match cache.read_halfword(address, mem) {
                        Ok(h) => Ok(h as u32),
                        Err(e) => Err(e),
                    }
                } else {
                    cache.read_word(address, mem)
                };
                match result {
                    Ok(value) => {
                        self.registers.write_word(inst.rd(), value);
                    },
                    Err(MemoryError::CacheMiss { stall_cycles, retry }) => {
                        proof {
                            old(cache).lemma_model_wf();
                            lemma_miss_stall_positive(m0, address);
                        }
                        self.stall = stall_cycles - 1;
                        if retry {
                            self.pc = pc;
                            return None;
                        }
                    },
                    Err(MemoryError::InvalidAddress) => {
                        trap = Some(
                            Trap::IllegalRead {
                                address: pc,
                                instruction: inst,
                                memory_address: address,
                            },
                        );
                    },
                }
            } else {
                // unknown load width
                trap = Some(Trap::IllegalInstruction { address: pc, instruction: inst });
            }
        } else if opcode == opcodes::STORE {
            let imm = inst.s_imm();
            let base = self.registers.read_word(inst.rs1());
            let val = self.registers.read_word(inst.rs2());
            proof {
                crate::memory::lemma_wrapping_add_signed_is_wrap32(base, imm);
            }
            let address = base.wrapping_add_signed(imm);
            let address = self.mmu.translate(address);
            let f3 = inst.funct3();
            if f3 == funct3::SB || f3 == funct3::SH || f3 == funct3::SW {
                let result: Result<(), MemoryError> = if f3 == funct3::SB {
                    let b = val & 0xFF;
                    proof {
                        let v = val;
                        assert(v & 0xFF < 0x100) by (bit_vector);
                    }
                    cache.write_byte(address, b as u8, mem)
                } else if f3 == funct3::SH {
                    let h = val & 0xFFFF;
                    proof {
                        let v = val;
                        assert(v & 0xFFFF < 0x10000) by (bit_vector);
                    }
                    cache.write_halfword(address, h as u16, mem)
                } else {
                    cache.write_word(address, val, mem)
                };
                match result {
                    Ok(()) => {
                    },
                    Err(MemoryError::CacheMiss { stall_cycles, retry }) => {
                        proof {
                            old(cache).lemma_model_wf();
                            lemma_miss_stall_positive(m0, address);
                        }
                        self.stall = stall_cycles - 1;
                        if retry {
                            self.pc = pc;
                            return None;
                        }
                    },
                    Err(MemoryError::InvalidAddress) => {
                        trap = Some(
                            Trap::IllegalWrite {
                                address: pc,
                                instruction: inst,
                                memory_address: address,
                                memory_value: val,
                            },
                        );
                    },
                }
            } else {
                // unknown store width
                trap = Some(Trap::IllegalInstruction { address: pc, instruction: inst });
            }
        } else if opcode == opcodes::SYSTEM {
            if inst.i_imm() == 0 {
                let result = system.syscall(self.id, &mut self.registers, &self.mmu);
                proof {
                    crate::register_file::lemma_register_file_len(&self.registers);
                }
                if let Some(tp) = result {
                    trap = Some(tp);
                }
            }
        } else {
            // unknown major opcode
            trap = Some(Trap::IllegalInstruction { address: pc, instruction: inst });
        }
        if trap.is_some() {
            self.running = false;
        }
        self.pc = pc.wrapping_add(4);
        trap
    }
}

/// One tick of a stalled core, as a relation between its state before and
/// after: only the stall and the counters move.
pub open spec fn spec_stall_tick(c0: CoreModel, c1: CoreModel) -> bool {
    c1 == (CoreModel {
        stall: (c0.stall - 1) as u32,
        stall_count: wrap32(c0.stall_count + 1) as u32,
        ..core_tick(c0)
    })
}

/// Stall exactness over a whole run: a core that enters tick 0 with
/// `stall == k` and is ticked `k` times while stalled ends with `stall == 0`
/// and has not moved: its program counter, registers and running flag are
/// exactly what they were, so the memory operation that missed is reissued
/// on the next tick.
pub proof fn lemma_stalled_for_exactly_k_ticks(states: Seq<CoreModel>)
    requires
        states.len() >= 1,
        states[0].stall as int == states.len() - 1,
        forall|i: int|
            0 <= i < states.len() - 1 ==> spec_stall_tick(#[trigger] states[i], states[i + 1]),
    ensures
        states.last().stall == 0,
        forall|i: int|
            0 <= i < states.len() ==> #[trigger] states[i].pc == states[0].pc && states[i].regs
                == states[0].regs && states[i].running == states[0].running,
        forall|i: int| 0 <= i < states.len() ==> #[trigger] states[i].stall as int == states.len()
            - 1 - i,
    decreases states.len(),
{
    if states.len() > 1 {
        let rest = states.subrange(1, states.len() as int);
        assert(spec_stall_tick(states[0], states[1]));
        assert(rest[0].stall as int == rest.len() - 1);
        assert forall|i: int| 0 <= i < rest.len() - 1 implies spec_stall_tick(
            #[trigger] rest[i],
            rest[i + 1],
        ) by {
            assert(rest[i] == states[i + 1]);
            assert(rest[i + 1] == states[i + 2]);
        }
        lemma_stalled_for_exactly_k_ticks(rest);
        assert forall|i: int|
            0 <= i < states.len() implies #[trigger] states[i].pc == states[0].pc && states[i].regs
            == states[0].regs && states[i].running == states[0].running by {
            if i >= 1 {
                assert(states[i] == rest[i - 1]);
            }
        }
        assert forall|i: int| 0 <= i < states.len() implies #[trigger] states[i].stall as int
            == states.len() - 1 - i by {
            if i >= 1 {
                assert(states[i] == rest[i - 1]);
            }
        }
    }
}

/// Stall decrement: while a core is stalled, each tick only counts the stall
/// down by one and the cycle up by one; the program counter, registers,
/// running flag, cache and memory are untouched, so after exactly `k` such
/// ticks a core that missed with `stall_cycles == k + 1` reissues its memory
/// operation.
pub proof fn lemma_stall_decrement<M: Mmu>(
    c0: CoreModel,
    inst: Instruction,
    mmu: M,
    m0: CacheModel,
    mem0: Seq<u32>,
    c1: CoreModel,
    m1: CacheModel,
    mem1: Seq<u32>,
    t: Option<Trap>,
)
    requires
        c0.stall > 0,
        spec_step_rel(c0, inst, mmu, m0, mem0, c1, m1, mem1, t),
    ensures
        c1.stall == c0.stall - 1,
        c1.pc == c0.pc,
        c1.regs == c0.regs,
        c1.running == c0.running,
        c1.stall_count == wrap32(c0.stall_count + 1),
        m1 == m0,
        mem1 == mem0,
        t is None,
        spec_stall_tick(c0, c1),
{
}

/// A missed memory operation is reissued, not skipped: a retryable miss
/// leaves the program counter exactly where it was, with the stall set to
/// one less than the returned stall cycles.
pub proof fn lemma_miss_holds_pc<M: Mmu>(
    c0: CoreModel,
    inst: Instruction,
    mmu: M,
    m0: CacheModel,
    mem0: Seq<u32>,
    c1: CoreModel,
    m1: CacheModel,
    mem1: Seq<u32>,
    t: Option<Trap>,
)
    requires
        c0.stall == 0,
        crate::cache::model_wf(m0),
        spec_opcode(inst@) == opcodes::LOAD,
        load_legal(spec_funct3(inst@)),
        spec_step_rel(c0, inst, mmu, m0, mem0, c1, m1, mem1, t),
        spec_cache_read_result(
            m0,
            mmu.spec_translate(wrap32(c0.regs[spec_rs1(inst@) as int] + spec_i_imm(inst@)) as u32),
        ) matches Err(MemoryError::CacheMiss { retry: true, .. }),
    ensures
        c1.pc == c0.pc,
        c1.stall + 1 == (match spec_cache_read_result(
            m0,
            mmu.spec_translate(wrap32(c0.regs[spec_rs1(inst@) as int] + spec_i_imm(inst@)) as u32),
        ) {
            Err(MemoryError::CacheMiss { stall_cycles, .. }) => stall_cycles as int,
            _ => 0,
        }),
        c1.regs == c0.regs,
        t is None,
{
    lemma_miss_stall_positive(
        m0,
        mmu.spec_translate(wrap32(c0.regs[spec_rs1(inst@) as int] + spec_i_imm(inst@)) as u32),
    );
}

/// The observable state of the whole simulator.
#[verifier::ext_equal]
pub ghost struct SimModel {
    pub cores: Seq<CoreModel>,
    pub memory: Seq<u32>,
    pub caches: Seq<CacheModel>,
}

/// One core's phase of a driver tick, relating the simulator state before
/// and after it: a halted core leaves everything as it is; a core whose
/// instruction fetch fails is skipped; otherwise the fetched word executes
/// as `spec_step_rel` says, through the core's own cache, and every other
/// core and cache is untouched.
pub open spec fn spec_core_phase<M: Mmu>(mmu: M, sa: SimModel, sb: SimModel, k: int) -> bool {
    &&& sb.cores.len() == sa.cores.len()
    &&& (forall|k2: int| 0 <= k2 < sa.cores.len() && k2 != k ==> sb.cores[k2] == sa.cores[k2])
    &&& ({
        let c0 = sa.cores[k];
        if !c0.running {
            sb == sa
        } else {
            match crate::memory::spec_read_word(sa.memory, mmu.spec_translate(c0.pc)) {
                Err(_) => sb == sa,
                Ok(w) => {
                    &&& 0 <= c0.cache_index < sa.caches.len()
                    &&& sb.caches.len() == sa.caches.len()
                    &&& (forall|j: int|
                        0 <= j < sa.caches.len() && j != c0.cache_index ==> sb.caches[j]
                            == sa.caches[j])
                    &&& exists|t: Option<Trap>|
                        spec_step_rel(
                            c0,
                            isa::spec_instruction(w),
                            mmu,
                            sa.caches[c0.cache_index],
                            sa.memory,
                            sb.cores[k],
                            sb.caches[c0.cache_index],
                            sb.memory,
                            t,
                        )
                },
            }
        }
    })
}

/// A whole driver tick, witnessed by a trace: state `i` of the trace is the
/// simulator after the first `i` cores have taken their phase, in order;
/// after the last core every cache advances its fill machine against the
/// then-current memory.  Cores therefore observe cache state from the start
/// of the tick, and see fills of tick `t` at tick `t + 1` earliest.
pub open spec fn spec_tick_trace<M: Mmu>(
    mmus: Seq<M>,
    s0: SimModel,
    s1: SimModel,
    trace: Seq<SimModel>,
) -> bool {
    let n = s0.cores.len() as int;
    &&& trace.len() == n + 1
    &&& trace[0] == s0
    &&& (forall|k: int| 0 <= k < n ==> #[trigger] spec_core_phase(mmus[k], trace[k], trace[k + 1], k))
    &&& s1.cores == trace[n].cores
    &&& s1.memory == trace[n].memory
    &&& s1.caches.len() == trace[n].caches.len()
    &&& (forall|j: int|
        0 <= j < s1.caches.len() ==> #[trigger] s1.caches[j] == crate::cache::spec_cache_step(
            trace[n].caches[j],
            trace[n].memory,
        ))
}

/// One whole driver tick, abstracted over its witness trace.
pub open spec fn spec_tick_rel<M: Mmu>(mmus: Seq<M>, s0: SimModel, s1: SimModel) -> bool {
    exists|trace: Seq<SimModel>| spec_tick_trace(mmus, s0, s1, trace)
}

/// A run of whole driver ticks from `s0` to `s1`, witnessed by the states
/// after each tick.
pub open spec fn spec_run_trace<M: Mmu>(
    mmus: Seq<M>,
    s0: SimModel,
    s1: SimModel,
    states: Seq<SimModel>,
) -> bool {
    &&& states.len() >= 1
    &&& states[0] == s0
    &&& states.last() == s1
    &&& (forall|i: int|
        0 <= i < states.len() - 1 ==> #[trigger] spec_tick_rel(mmus, states[i], states[i + 1]))
}

/// Whether some core of `s` is still running.
pub open spec fn some_core_running(s: SimModel) -> bool {
    exists|c: int| 0 <= c < s.cores.len() && (#[trigger] s.cores[c].running)
}

/// Whether every tick of the trace (every state but the last) was entered
/// with some core still running.
pub open spec fn all_ticks_entered_running(states: Seq<SimModel>) -> bool {
    forall|i: int| 0 <= i < states.len() - 1 ==> #[trigger] some_core_running(states[i])
}

/// What a capped run did: a run trace of one state per tick taken, never
/// more than `cycles` ticks, all `cycles` of them when (and only in that
/// case) the cap was the reason for stopping — each entered with some core
/// still running — and at least one tick for any other verdict.
pub open spec fn spec_run_max_trace<M: Mmu>(
    mmus: Seq<M>,
    s0: SimModel,
    s1: SimModel,
    states: Seq<SimModel>,
    cycles: usize,
    r: HaltReason,
) -> bool {
    &&& spec_run_trace(mmus, s0, s1, states)
    &&& states.len() <= cycles + 1
    &&& (r == HaltReason::OutOfCycles ==> states.len() == cycles + 1)
    &&& (r != HaltReason::OutOfCycles ==> states.len() >= 2)
    &&& (r == HaltReason::OutOfCycles ==> all_ticks_entered_running(states))
}

/// Assemble one core phase from its pieces: the step relation of the core
/// against its own cache, and frame conditions for everything else.
proof fn lemma_core_phase_holds<M: Mmu>(
    mmu: M,
    sa: SimModel,
    sb: SimModel,
    k: int,
    w: u32,
    t: Option<Trap>,
)
    requires
        0 <= k < sa.cores.len(),
        sb.cores.len() == sa.cores.len(),
        forall|k2: int| 0 <= k2 < sa.cores.len() && k2 != k ==> sb.cores[k2] == sa.cores[k2],
        sa.cores[k].running,
        crate::memory::spec_read_word(sa.memory, mmu.spec_translate(sa.cores[k].pc)) == Ok::<
            u32,
            MemoryError,
        >(w),
        0 <= sa.cores[k].cache_index < sa.caches.len(),
        sb.caches.len() == sa.caches.len(),
        forall|j: int|
            0 <= j < sa.caches.len() && j != sa.cores[k].cache_index ==> sb.caches[j]
                == sa.caches[j],
        spec_step_rel(
            sa.cores[k],
            isa::spec_instruction(w),
            mmu,
            sa.caches[sa.cores[k].cache_index],
            sa.memory,
            sb.cores[k],
            sb.caches[sa.cores[k].cache_index],
            sb.memory,
            t,
        ),
    ensures
        spec_core_phase(mmu, sa, sb, k),
{
    let c0 = sa.cores[k];
    match crate::memory::spec_read_word(sa.memory, mmu.spec_translate(c0.pc)) {
        Ok(w2) => {
            assert(w2 == w);
            assert(spec_step_rel(
                c0,
                isa::spec_instruction(w2),
                mmu,
                sa.caches[c0.cache_index],
                sa.memory,
                sb.cores[k],
                sb.caches[c0.cache_index],
                sb.memory,
                t,
            ));
            assert(exists|t2: Option<Trap>|
                spec_step_rel(
                    c0,
                    isa::spec_instruction(w2),
                    mmu,
                    sa.caches[c0.cache_index],
                    sa.memory,
                    sb.cores[k],
                    sb.caches[c0.cache_index],
                    sb.memory,
                    t2,
                ));
        },
        Err(_) => {
            assert(false);
        },
    }
}

/// The driver: it owns the backing memory, the caches and the cores, and
/// advances all cores and then all caches once per tick.
pub struct Simulator<M: Mmu, E: CacheEventHandler, S: SyscallHandler> {
    cores: Vec<Core<M>>,
    memory: Memory,
    caches: Vec<DirectMappedCache<E>>,
    syscall: S,
}

impl<M: Mmu, E: CacheEventHandler, S: SyscallHandler> View for Simulator<M, E, S> {
    type V = SimModel;

    closed spec fn view(&self) -> SimModel {
        SimModel {
            cores: Seq::new(self.cores@.len(), |i: int| self.cores@[i]@),
            memory: self.memory@,
            caches: Seq::new(self.caches@.len(), |i: int| self.caches@[i]@),
        }
    }
}

impl<M: Mmu, E: CacheEventHandler, S: SyscallHandler> Simulator<M, E, S> {
    /// Well-formedness: every core points at a cache the driver owns, and
    /// every cache is well formed.
    pub closed spec fn inv(&self) -> bool {
        &&& forall|k: int|
            0 <= k < self.cores@.len() ==> (#[trigger] self.cores@[k])@.cache_index
                < self.caches@.len()
        &&& forall|j: int| 0 <= j < self.caches@.len() ==> (#[trigger] self.caches@[j]).inv()
    }

    /// The cores' translators, in core order, for use in contracts.
    pub closed spec fn mmus(&self) -> Seq<M> {
        Seq::new(self.cores@.len(), |k: int| self.cores@[k].spec_mmu())
    }

    /// A driver over the given cores, backing memory, caches and syscall
    /// handler.
    pub fn new(
        cores: Vec<Core<M>>,
        memory: Memory,
        caches: Vec<DirectMappedCache<E>>,
        syscall: S,
    ) -> (r: Simulator<M, E, S>)
        requires
            forall|k: int|
                0 <= k < cores@.len() ==> (#[trigger] cores@[k])@.cache_index < caches@.len(),
            forall|j: int| 0 <= j < caches@.len() ==> (#[trigger] caches@[j]).inv(),
        ensures
            r.inv(),
            r@.cores == Seq::new(cores@.len(), |i: int| cores@[i]@),
            r@.memory == memory@,
            r@.caches == Seq::new(caches@.len(), |i: int| caches@[i]@),
    {
        Simulator { cores, memory, caches, syscall }
    }

    /// One tick: every core that is still running fetches its next
    /// instruction straight from the backing memory (a deliberate
    /// simplification: instruction traffic incurs no stalls) and steps;
    /// then every cache advances its fill state machine.  Returns whether
    /// any core was still running at the start of the tick.
    #[verifier::rlimit(100)]
    #[verifier::spinoff_prover]
    pub fn step(&mut self) -> (ran: bool)
        requires
            old(self).inv(),
        ensures
            final(self).inv(),
            final(self)@.cores.len() == old(self)@.cores.len(),
            final(self)@.caches.len() == old(self)@.caches.len(),
            forall|k: int|
                0 <= k < old(self)@.cores.len() ==> #[trigger] final(self)@.cores[k].id == old(
                    self,
                )@.cores[k].id && final(self)@.cores[k].cache_index == old(
                    self,
                )@.cores[k].cache_index,
            forall|k: int|
                0 <= k < old(self)@.cores.len() && !old(self)@.cores[k].running
                    ==> final(self)@.cores[k] == old(self)@.cores[k],
            ran == (exists|k: int| 0 <= k < old(self)@.cores.len() && old(self)@.cores[k].running),
            final(self).mmus() == old(self).mmus(),
            spec_tick_rel(old(self).mmus(), old(self)@, final(self)@),
    {
        let ghost s0 = self@;
        let ghost mmus0 = self.mmus();
        let ghost mut trace: Seq<SimModel> = seq![self@];
        let mut ran = false;
        let n = self.cores.len();
        let mut i: usize = 0;
        while i < n
            invariant
                self.inv(),
                n == self.cores@.len(),
                n == s0.cores.len(),
                self.caches@.len() == s0.caches.len(),
                i <= n,
                mmus0.len() == n,
                trace.len() == i + 1,
                trace[0] == s0,
                trace[i as int] == self@,
                forall|k: int|
                    0 <= k < i ==> #[trigger] spec_core_phase(mmus0[k], trace[k], trace[k + 1], k),
                forall|k: int| 0 <= k < n ==> #[trigger] self.cores@[k].spec_mmu() == mmus0[k],
                forall|k: int| i <= k < n ==> self.cores@[k]@ == s0.cores[k],
                forall|k: int|
                    0 <= k < n && !s0.cores[k].running ==> #[trigger] self.cores@[k]@
                        == s0.cores[k],
                forall|k: int|
                    0 <= k < n ==> #[trigger] self.cores@[k]@.id == s0.cores[k].id
                        && self.cores@[k]@.cache_index == s0.cores[k].cache_index,
                ran == (exists|k: int| 0 <= k < i && s0.cores[k].running),
            decreases n - i,
        {
            let ghost pre = self@;
            let ghost cores_pre = self.cores@;
            let ghost caches_pre = self.caches@;
            let running = self.cores[i].running;
            if running {
                let pc = self.cores[i].pc;
                let tr_pc = self.cores[i].mmu.translate(pc);
                let inst_opt = self.memory.read_instruction(tr_pc);
                if let Some(inst) = inst_opt {
                    let ci = self.cores[i].cache_index;
                    let core = &mut self.cores[i];
                    let t = core.step(inst, &mut self.caches[ci], &mut self.memory,
                        &mut self.syscall);
                    proof {
                        assert(self@.cores[i as int] == self.cores@[i as int]@);
                        assert(self@.caches[ci as int] == self.caches@[ci as int]@);
                        assert forall|k2: int| 0 <= k2 < n && k2 != i implies self@.cores[k2]
                            == pre.cores[k2] by {
                            assert(self.cores@[k2] == cores_pre[k2]);
                        }
                        assert forall|j2: int|
                            0 <= j2 < pre.caches.len() && j2 != ci implies self@.caches[j2]
                            == pre.caches[j2] by {
                            assert(self.caches@[j2] == caches_pre[j2]);
                        }
                        assert(spec_step_rel(
                            pre.cores[i as int],
                            inst,
                            mmus0[i as int],
                            pre.caches[ci as int],
                            pre.memory,
                            self@.cores[i as int],
                            self@.caches[ci as int],
                            self@.memory,
                            t,
                        ));
                        assert(pre.cores[i as int].running);
                        assert(ci as int == pre.cores[i as int].cache_index);
                        assert(0 <= pre.cores[i as int].cache_index < pre.caches.len());
                        assert(inst == isa::spec_instruction(inst@));
                        assert(crate::memory::spec_read_word(
                            pre.memory,
                            mmus0[i as int].spec_translate(pre.cores[i as int].pc),
                        ) == Ok::<u32, MemoryError>(inst@));
                        assert(self@.cores.len() == pre.cores.len());
                        assert(self@.caches.len() == pre.caches.len());
                        lemma_core_phase_holds(mmus0[i as int], pre, self@, i as int, inst@, t);
                        assert(spec_core_phase(mmus0[i as int], pre, self@, i as int));
                    }
                } else {
                    proof {
                        assert(pre.cores[i as int].running);
                        assert(mmus0[i as int] == self.cores@[i as int].spec_mmu());
                        assert(pc == pre.cores[i as int].pc);
                        assert(tr_pc == mmus0[i as int].spec_translate(pre.cores[i as int].pc));
                        assert(crate::memory::spec_read_word(pre.memory, tr_pc) is Err);
                        assert(self@ == pre);
                        assert(spec_core_phase(mmus0[i as int], pre, self@, i as int));
                    }
                }
                ran = true;
            } else {
                proof {
                    assert(spec_core_phase(mmus0[i as int], pre, self@, i as int));
                }
            }
            proof {
                trace = trace.push(self@);
            }
            i = i + 1;
        }
        let ghost mid = self@;
        let cn = self.caches.len();
        let mut j: usize = 0;
        while j < cn
            invariant
                self.inv(),
                cn == self.caches@.len(),
                cn == mid.caches.len(),
                self.cores@.len() == n,
                n == s0.cores.len(),
                mmus0.len() == n,
                j <= cn,
                self@.cores == mid.cores,
                self@.memory == mid.memory,
                forall|jj: int|
                    0 <= jj < j ==> #[trigger] self@.caches[jj] == crate::cache::spec_cache_step(
                        mid.caches[jj],
                        mid.memory,
                    ),
                forall|jj: int| j <= jj < cn ==> self@.caches[jj] == mid.caches[jj],
                forall|k: int| 0 <= k < n ==> #[trigger] self.cores@[k].spec_mmu() == mmus0[k],
                forall|k: int|
                    0 <= k < n && !s0.cores[k].running ==> #[trigger] self.cores@[k]@
                        == s0.cores[k],
                forall|k: int|
                    0 <= k < n ==> #[trigger] self.cores@[k]@.id == s0.cores[k].id
                        && self.cores@[k]@.cache_index == s0.cores[k].cache_index,
            decreases cn - j,
        {
            let ghost cpre = self@;
            let ghost caches_pre = self.caches@;
            let cache = &mut self.caches[j];
            cache.step(&self.memory);
            proof {
                assert(self@.caches[j as int] == self.caches@[j as int]@);
                assert forall|jj: int| 0 <= jj < cn && jj != j implies self@.caches[jj]
                    == cpre.caches[jj] by {
                    assert(self.caches@[jj] == caches_pre[jj]);
                }
                assert(self@.caches[j as int] == crate::cache::spec_cache_step(
                    mid.caches[j as int],
                    mid.memory,
                ));
                assert forall|jj: int| 0 <= jj <= j implies #[trigger] self@.caches[jj]
                    == crate::cache::spec_cache_step(mid.caches[jj], mid.memory) by {
                    if jj < j {
                        assert(self@.caches[jj] == cpre.caches[jj]);
                    }
                }
                assert(self@.cores =~= cpre.cores);
            }
            j = j + 1;
        }
        proof {
            assert(trace[n as int] == mid);
            assert(spec_tick_trace(mmus0, s0, self@, trace));
            assert(exists|tr2: Seq<SimModel>| spec_tick_trace(mmus0, s0, self@, tr2));
            assert(self.mmus() =~= mmus0);
        }
        ran
    }

    /// The per-core statistics: for each core, in order, its id, how many
    /// cycles it spent stalled, and how many cycles it saw in total.
    pub fn report(&self) -> (r: Vec<(usize, u32, u32)>)
        ensures
            r@.len() == self@.cores.len(),
            forall|k: int|
                0 <= k < self@.cores.len() ==> #[trigger] r@[k].0 == self@.cores[k].id
                    && r@[k].1 == self@.cores[k].stall_count && r@[k].2
                    == self@.cores[k].cycle_count,
    {
        let mut out: Vec<(usize, u32, u32)> = Vec::new();
        let n = self.cores.len();
        let mut i: usize = 0;
        while i < n
            invariant
                n == self.cores@.len(),
                i <= n,
                out@.len() == i,
                forall|k: int|
                    0 <= k < i ==> #[trigger] out@[k].0 == self@.cores[k].id && out@[k].1
                        == self@.cores[k].stall_count && out@[k].2 == self@.cores[k].cycle_count,
            decreases n - i,
        {
            let core = &self.cores[i];
            out.push((core.id, core.stall_count, core.cycle_count));
            i = i + 1;
        }
        out
    }

    /// Run until no core advances or the syscall handler requests a halt,
    /// but at most `cycles` ticks.  The final state is reached from the
    /// initial one by one whole driver tick per state of the witness trace:
    /// exactly `cycles` of them when the cap is the verdict (and only
    /// then), and at least one otherwise.  `CoresHalted` comes from a tick
    /// that found every core halted, and those cores are all still halted
    /// at the end.
    pub fn run_max(&mut self, cycles: usize) -> (r: HaltReason)
        requires
            old(self).inv(),
        ensures
            final(self).inv(),
            final(self).mmus() == old(self).mmus(),
            exists|states: Seq<SimModel>|
                spec_run_max_trace(
                    old(self).mmus(),
                    old(self)@,
                    final(self)@,
                    states,
                    cycles,
                    r,
                ),
            r == HaltReason::CoresHalted ==> (forall|k: int|
                0 <= k < final(self)@.cores.len() ==> !(#[trigger] final(self)@.cores[k].running)),
    {
        let ghost mmus0 = self.mmus();
        let ghost mut states: Seq<SimModel> = seq![self@];
        let ghost mut witness: Seq<int> = Seq::empty();
        let mut k: usize = 0;
        while k < cycles
            invariant
                self.inv(),
                self.mmus() == mmus0,
                mmus0 == old(self).mmus(),
                k <= cycles,
                states.len() == k + 1,
                states[0] == old(self)@,
                states.last() == self@,
                forall|i: int|
                    0 <= i < states.len() - 1 ==> #[trigger] spec_tick_rel(
                        mmus0,
                        states[i],
                        states[i + 1],
                    ),
                witness.len() == k,
                forall|i: int|
                    #![trigger witness[i]]
                    0 <= i < k ==> 0 <= witness[i] < states[i].cores.len()
                        && states[i].cores[witness[i]].running,
            decreases cycles - k,
        {
            let ghost before = self@;
            let ghost states_pre = states;
            let ran = self.step();
            proof {
                states = states.push(self@);
                assert(spec_run_trace(mmus0, old(self)@, self@, states));
            }
            if !ran {
                proof {
                    assert(spec_run_max_trace(
                        mmus0,
                        old(self)@,
                        self@,
                        states,
                        cycles,
                        HaltReason::CoresHalted,
                    ));
                    assert(exists|s2: Seq<SimModel>|
                        spec_run_max_trace(
                            mmus0,
                            old(self)@,
                            self@,
                            s2,
                            cycles,
                            HaltReason::CoresHalted,
                        ));
                    assert forall|k2: int|
                        0 <= k2 < self@.cores.len() implies !(#[trigger] self@.cores[k2].running) by {
                        assert(!before.cores[k2].running);
                        assert(self@.cores[k2] == before.cores[k2]);
                    }
                }
                return HaltReason::CoresHalted;
            }
            if self.syscall.should_halt() {
                proof {
                    assert(spec_run_max_trace(
                        mmus0,
                        old(self)@,
                        self@,
                        states,
                        cycles,
                        HaltReason::SystemHalt,
                    ));
                    assert(exists|s2: Seq<SimModel>|
                        spec_run_max_trace(
                            mmus0,
                            old(self)@,
                            self@,
                            s2,
                            cycles,
                            HaltReason::SystemHalt,
                        ));
                }
                return HaltReason::SystemHalt;
            }
            proof {
                let c0 = choose|c: int| 0 <= c < before.cores.len() && before.cores[c].running;
                witness = witness.push(c0);
                assert forall|i: int| #![trigger witness[i]]
                    0 <= i <= k implies 0 <= witness[i] < states[i].cores.len()
                    && states[i].cores[witness[i]].running by {
                    if i < k {
                        assert(states[i] == states_pre[i]);
                    } else {
                        assert(states[i] == before);
                    }
                }
            }
            k = k + 1;
        }
        proof {
            assert forall|i: int|
                0 <= i < states.len() - 1 implies #[trigger] some_core_running(states[i]) by {
                assert(0 <= witness[i] < states[i].cores.len()
                    && states[i].cores[witness[i]].running);
            }
            assert(all_ticks_entered_running(states));
            assert(spec_run_max_trace(
                mmus0,
                old(self)@,
                self@,
                states,
                cycles,
                HaltReason::OutOfCycles,
            ));
            assert(exists|s2: Seq<SimModel>|
                spec_run_max_trace(mmus0, old(self)@, self@, s2, cycles, HaltReason::OutOfCycles));
        }
        HaltReason::OutOfCycles
    }
}

/// A miss result always carries at least one stall cycle.
proof fn lemma_miss_stall_positive(m: CacheModel, a: u32)
    requires
        crate::cache::model_wf(m),
    ensures
        (spec_cache_read_result(m, a) matches Err(MemoryError::CacheMiss { stall_cycles, .. })
            ==> stall_cycles >= 1),
{
    crate::cache::lemma_index_in_range(m, a);
}

/// One driver tick of a core: a stalled core only counts the cycle down;
/// otherwise the instruction executes as `spec_exec_rel` says.
pub open spec fn spec_step_rel<M: Mmu>(
    c0: CoreModel,
    inst: Instruction,
    mmu: M,
    m0: CacheModel,
    mem0: Seq<u32>,
    c1: CoreModel,
    m1: CacheModel,
    mem1: Seq<u32>,
    t: Option<Trap>,
) -> bool {
    if c0.stall > 0 {
        &&& c1 == (CoreModel {
            stall: (c0.stall - 1) as u32,
            stall_count: wrap32(c0.stall_count + 1) as u32,
            ..core_tick(c0)
        })
        &&& m1 == m0
        &&& mem1 == mem0
        &&& t is None
    } else {
        spec_exec_rel(c0, inst, mmu, m0, mem0, c1, m1, mem1, t)
    }
}

}
