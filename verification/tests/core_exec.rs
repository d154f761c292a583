use rustv::binary::Binary;
use rustv::binary::BinaryError;
use rustv::cache::DirectMappedCache;
use rustv::cache::EmptyCacheEventHandler;
use rustv::isa::Instruction;
use rustv::isa::Register;
use rustv::memory::IdentityMmu;
use rustv::memory::Memory;
use rustv::memory::Mmu;
use rustv::register_file::RegisterFile;
use rustv::simulator::Core;
use rustv::simulator::EmptySyscallHandler;
use rustv::simulator::HaltReason;
use rustv::simulator::Simulator;
use rustv::simulator::SyscallHandler;
use rustv::trap::Trap;

fn encode_i(opcode: u32, rd: u32, funct3: u32, rs1: u32, imm: u32) -> u32 {
    opcode | (rd << 7) | (funct3 << 12) | (rs1 << 15) | ((imm & 0xFFF) << 20)
}

fn encode_r(opcode: u32, rd: u32, funct3: u32, rs1: u32, rs2: u32, funct7: u32) -> u32 {
    opcode | (rd << 7) | (funct3 << 12) | (rs1 << 15) | (rs2 << 20) | (funct7 << 25)
}

#[test]
fn register_zero_reads_zero() {
    let mut rf = RegisterFile::new();
    rf.write_word(Register::X0, 0xDEAD);
    rf.write_word(Register::X5, 0xBEEF);
    assert_eq!(rf.read_word(Register::X0), 0);
    assert_eq!(rf.read_word(Register::X5), 0xBEEF);
    rf.write_word(Register::X0, 1);
    assert_eq!(rf.read_word(Register::X0), 0);
}

#[test]
fn decoder_fields_are_exact() {
    // ADDI x1, x2, -5
    let w = encode_i(0x13, 1, 0, 2, (-5i32) as u32);
    let inst = Instruction::new(w);
    assert_eq!(inst.opcode(), 0x13);
    assert_eq!(inst.rd(), Register::X1);
    assert_eq!(inst.funct3(), 0);
    assert_eq!(inst.rs1(), Register::X2);
    assert_eq!(inst.i_imm(), -5);

    // SW x7, -12(x3): s-imm split across the encoding
    let imm = (-12i32) as u32 & 0xFFF;
    let w = 0x23 | ((imm & 0x1F) << 7) | (2 << 12) | (3 << 15) | (7 << 20) | ((imm >> 5) << 25);
    let inst = Instruction::new(w);
    assert_eq!(inst.opcode(), 0x23);
    assert_eq!(inst.s_imm(), -12);
    assert_eq!(inst.rs2(), Register::X7);

    // LUI x9, 0xFEDCB000
    let w = 0x37 | (9 << 7) | 0xFEDCB000;
    let inst = Instruction::new(w);
    assert_eq!(inst.u_imm() as u32, 0xFEDCB000);

    // JAL with offset +8: bits [30:21] hold imm[10:1]
    let w = 0x6F | (1 << 7) | (4 << 21);
    let inst = Instruction::new(w);
    assert_eq!(inst.uj_imm(), 8);

    // BEQ with offset -4: imm[12] and imm[11] set, imm[10:2] ones
    let imm: u32 = (-4i32) as u32;
    let w = 0x63 | (((imm >> 11) & 1) << 7) | ((imm >> 1) & 0xF) << 8 | (((imm >> 5) & 0x3F) << 25)
        | (((imm >> 12) & 1) << 31);
    let inst = Instruction::new(w);
    assert_eq!(inst.sb_imm(), -4);

    // SRAI x1, x1, 3
    let w = encode_r(0x13, 1, 5, 1, 3, 0x20);
    let inst = Instruction::new(w);
    assert_eq!(inst.shamt(), 3);
    assert_eq!(inst.funct7(), 0x20);
}

#[test]
fn jal_retadds_four_and_jumps() {
    let mut core = Core::new(0, 0x1000, 0, 0, IdentityMmu::new());
    let mut cache = DirectMappedCache::new(4, 1, EmptyCacheEventHandler {});
    let mut memory = Memory::new(0x10);
    let mut system = EmptySyscallHandler {};

    // JAL x1, +8
    let inst = Instruction::new(0x6F | (1 << 7) | (4 << 21));
    let trap = core.step(inst, &mut cache, &mut memory, &mut system);
    assert!(trap.is_none());
    assert_eq!(core.registers().read_word(Register::X1), 0x1004);
    assert_eq!(core.pc(), 0x1008);
}

#[test]
fn alu_ops_compute_exact_words() {
    let mut core = Core::new(0, 0, 0, 0, IdentityMmu::new());
    let mut cache = DirectMappedCache::new(4, 1, EmptyCacheEventHandler {});
    let mut memory = Memory::new(0x10);
    let mut system = EmptySyscallHandler {};

    // ADDI x1, x0, -1  -> x1 = 0xFFFFFFFF
    let t = core.step(
        Instruction::new(encode_i(0x13, 1, 0, 0, 0xFFF)),
        &mut cache,
        &mut memory,
        &mut system,
    );
    assert!(t.is_none());
    assert_eq!(core.registers().read_word(Register::X1), 0xFFFFFFFF);

    // ADDI x2, x0, 1; ADD x3, x1, x2 wraps to 0
    core.step(Instruction::new(encode_i(0x13, 2, 0, 0, 1)), &mut cache, &mut memory, &mut system);
    core.step(
        Instruction::new(encode_r(0x33, 3, 0, 1, 2, 0)),
        &mut cache,
        &mut memory,
        &mut system,
    );
    assert_eq!(core.registers().read_word(Register::X3), 0);

    // SUB x4, x3, x2 -> -1
    core.step(
        Instruction::new(encode_r(0x33, 4, 0, 3, 2, 0x20)),
        &mut cache,
        &mut memory,
        &mut system,
    );
    assert_eq!(core.registers().read_word(Register::X4), 0xFFFFFFFF);

    // SLT x5, x4, x2: -1 < 1 signed -> 1
    core.step(
        Instruction::new(encode_r(0x33, 5, 2, 4, 2, 0)),
        &mut cache,
        &mut memory,
        &mut system,
    );
    assert_eq!(core.registers().read_word(Register::X5), 1);

    // SLTU x6, x4, x2: 0xFFFFFFFF < 1 unsigned -> 0
    core.step(
        Instruction::new(encode_r(0x33, 6, 3, 4, 2, 0)),
        &mut cache,
        &mut memory,
        &mut system,
    );
    assert_eq!(core.registers().read_word(Register::X6), 0);

    // SRAI x7, x4, 4: arithmetic shift of -1 stays -1
    core.step(
        Instruction::new(encode_r(0x13, 7, 5, 4, 4, 0x20)),
        &mut cache,
        &mut memory,
        &mut system,
    );
    assert_eq!(core.registers().read_word(Register::X7), 0xFFFFFFFF);

    // SRLI x8, x4, 4: logical shift brings zeros in
    core.step(
        Instruction::new(encode_r(0x13, 8, 5, 4, 4, 0)),
        &mut cache,
        &mut memory,
        &mut system,
    );
    assert_eq!(core.registers().read_word(Register::X8), 0x0FFFFFFF);

    // XORI x9, x4, 0xF0F (sign-extended): -1 ^ 0xFFFFFF0F = 0xF0
    core.step(
        Instruction::new(encode_i(0x13, 9, 4, 4, 0xF0F)),
        &mut cache,
        &mut memory,
        &mut system,
    );
    assert_eq!(core.registers().read_word(Register::X9), 0xF0);
}

#[test]
fn branches_compare_signed_and_unsigned() {
    let mut core = Core::new(0, 0x100, 0, 0, IdentityMmu::new());
    let mut cache = DirectMappedCache::new(4, 1, EmptyCacheEventHandler {});
    let mut memory = Memory::new(0x10);
    let mut system = EmptySyscallHandler {};

    // x1 = -1, x2 = 1
    core.step(
        Instruction::new(encode_i(0x13, 1, 0, 0, 0xFFF)),
        &mut cache,
        &mut memory,
        &mut system,
    );
    core.step(Instruction::new(encode_i(0x13, 2, 0, 0, 1)), &mut cache, &mut memory, &mut system);
    let pc = core.pc();

    // BLT x1, x2, +8: taken (signed)
    let w = 0x63 | (4 << 12) | (1 << 15) | (2 << 20) | (4 << 8);
    core.step(Instruction::new(w), &mut cache, &mut memory, &mut system);
    assert_eq!(core.pc(), pc + 8);

    // BLTU x1, x2, +8: not taken (unsigned), so the pc falls through
    let pc = core.pc();
    let w = 0x63 | (6 << 12) | (1 << 15) | (2 << 20) | (4 << 8);
    core.step(Instruction::new(w), &mut cache, &mut memory, &mut system);
    assert_eq!(core.pc(), pc + 4);

    // BGE x2, x1, +8: taken
    let pc = core.pc();
    let w = 0x63 | (5 << 12) | (2 << 15) | (1 << 20) | (4 << 8);
    core.step(Instruction::new(w), &mut cache, &mut memory, &mut system);
    assert_eq!(core.pc(), pc + 8);
}

#[test]
fn load_miss_stalls_then_retries() {
    let mut memory = Memory::new(0x40);
    assert_eq!(memory.write_word(0x20, 0xCAFE), Ok(()));
    let mut cache = DirectMappedCache::new(4, 1, EmptyCacheEventHandler {});
    let mut core = Core::new(0, 0, 0, 0, IdentityMmu::new());
    let mut system = EmptySyscallHandler {};

    // x1 = 0x20; LW x2, 0(x1)
    core.step(
        Instruction::new(encode_i(0x13, 1, 0, 0, 0x20)),
        &mut cache,
        &mut memory,
        &mut system,
    );
    let pc = core.pc();
    let lw = Instruction::new(encode_i(0x03, 2, 2, 1, 0));

    // the cold cache misses with the memory latency; the current cycle
    // counts toward the stall
    let t = core.step(lw, &mut cache, &mut memory, &mut system);
    assert!(t.is_none());
    assert_eq!(core.pc(), pc);
    assert_eq!(core.stall(), 99);

    // the core sits out its stall while the fill proceeds
    for _ in 0..99 {
        core.step(lw, &mut cache, &mut memory, &mut system);
        cache.step(&memory);
    }
    assert_eq!(core.stall(), 0);
    assert_eq!(core.pc(), pc);
    cache.step(&memory);

    // the reissued load hits
    let t = core.step(lw, &mut cache, &mut memory, &mut system);
    assert!(t.is_none());
    assert_eq!(core.registers().read_word(Register::X2), 0xCAFE);
    assert_eq!(core.pc(), pc + 4);
}

#[test]
fn load_signed_and_unsigned_widths() {
    let mut memory = Memory::new(0x40);
    assert_eq!(memory.write_word(0x10, 0x8182E384), Ok(()));
    let mut cache = DirectMappedCache::new(4, 4, EmptyCacheEventHandler {});
    let mut core = Core::new(0, 0, 0, 0, IdentityMmu::new());
    let mut system = EmptySyscallHandler {};

    // x1 = 0x10; warm the line
    core.step(
        Instruction::new(encode_i(0x13, 1, 0, 0, 0x10)),
        &mut cache,
        &mut memory,
        &mut system,
    );
    let lw = Instruction::new(encode_i(0x03, 2, 2, 1, 0));
    core.step(lw, &mut cache, &mut memory, &mut system);
    for _ in 0..100 {
        cache.step(&memory);
    }
    // sit out the stall, then reissue
    for _ in 0..99 {
        core.step(lw, &mut cache, &mut memory, &mut system);
    }
    core.step(lw, &mut cache, &mut memory, &mut system);
    assert_eq!(core.registers().read_word(Register::X2), 0x8182E384);

    // LB x3, 0(x1): 0x84 sign-extends
    core.step(
        Instruction::new(encode_i(0x03, 3, 0, 1, 0)),
        &mut cache,
        &mut memory,
        &mut system,
    );
    assert_eq!(core.registers().read_word(Register::X3), 0xFFFFFF84);

    // LBU x4, 1(x1): 0xE3 zero-extends
    core.step(
        Instruction::new(encode_i(0x03, 4, 4, 1, 1)),
        &mut cache,
        &mut memory,
        &mut system,
    );
    assert_eq!(core.registers().read_word(Register::X4), 0xE3);

    // LH x5, 2(x1): 0x8182 sign-extends
    core.step(
        Instruction::new(encode_i(0x03, 5, 1, 1, 2)),
        &mut cache,
        &mut memory,
        &mut system,
    );
    assert_eq!(core.registers().read_word(Register::X5), 0xFFFF8182);

    // LHU x6, 0(x1): 0xE384 zero-extends
    core.step(
        Instruction::new(encode_i(0x03, 6, 5, 1, 0)),
        &mut cache,
        &mut memory,
        &mut system,
    );
    assert_eq!(core.registers().read_word(Register::X6), 0xE384);
}

#[test]
fn illegal_accesses_raise_traps() {
    let mut memory = Memory::new(0x10);
    let mut cache = DirectMappedCache::new(4, 1, EmptyCacheEventHandler {});
    let mut system = EmptySyscallHandler {};

    // an unknown major opcode halts the core with IllegalInstruction
    let mut core = Core::new(0, 0, 0, 0, IdentityMmu::new());
    let t = core.step(Instruction::new(0x7F), &mut cache, &mut memory, &mut system);
    assert!(matches!(t, Some(Trap::IllegalInstruction { .. })));
    assert!(!core.running());

    // an unknown branch condition code traps too
    let mut core = Core::new(0, 0, 0, 0, IdentityMmu::new());
    let w = 0x63 | (2 << 12);
    let t = core.step(Instruction::new(w), &mut cache, &mut memory, &mut system);
    assert!(matches!(t, Some(Trap::IllegalInstruction { .. })));

    // a load far outside memory traps IllegalRead once the miss resolves:
    // the fill records the error and the retry surfaces it
    let mut core = Core::new(0, 0, 0, 0, IdentityMmu::new());
    core.step(
        Instruction::new(encode_i(0x37, 1, 0, 0, 0) | 0x40000000),
        &mut cache,
        &mut memory,
        &mut system,
    );
    // x1 = 0x40000000 (LUI); LW x2, 0(x1)
    let lw = Instruction::new(encode_i(0x03, 2, 2, 1, 0));
    let t = core.step(lw, &mut cache, &mut memory, &mut system);
    assert!(t.is_none());
    for _ in 0..100 {
        cache.step(&memory);
    }
    for _ in 0..99 {
        core.step(lw, &mut cache, &mut memory, &mut system);
    }
    let t = core.step(lw, &mut cache, &mut memory, &mut system);
    assert!(matches!(t, Some(Trap::IllegalRead { memory_address: 0x40000000, .. })));
    assert!(!core.running());

    // a store to the reserved word 0 traps IllegalWrite immediately on a
    // resident line
    let mut core = Core::new(0, 0, 0, 0, IdentityMmu::new());
    let mut cache = DirectMappedCache::new(4, 1, EmptyCacheEventHandler {});
    let sw = Instruction::new(0x23 | (2 << 12) | (0 << 15) | (5 << 20));
    let t = core.step(sw, &mut cache, &mut memory, &mut system);
    assert!(t.is_none());
    for _ in 0..100 {
        cache.step(&memory);
    }
    for _ in 0..99 {
        core.step(sw, &mut cache, &mut memory, &mut system);
    }
    let t = core.step(sw, &mut cache, &mut memory, &mut system);
    assert!(matches!(t, Some(Trap::IllegalWrite { memory_address: 0, .. })));
}

#[test]
fn jalr_to_null_halts_the_core() {
    let mut memory = Memory::new(0x10);
    let mut cache = DirectMappedCache::new(4, 1, EmptyCacheEventHandler {});
    let mut system = EmptySyscallHandler {};
    let mut core = Core::new(0, 0x100, 0, 0, IdentityMmu::new());

    // JALR x0, 0(x0): the target is 0, so the core halts without a trap
    let t = core.step(Instruction::new(0x67), &mut cache, &mut memory, &mut system);
    assert!(t.is_none());
    assert!(!core.running());
}

#[test]
fn simulator_runs_to_cores_halted() {
    let mut memory = Memory::new(0x40);
    // at 0x4: ADDI x1, x0, 42 ; at 0x8: JALR x0, 0(x0) halts the core
    assert_eq!(memory.write_word(0x4, encode_i(0x13, 1, 0, 0, 42)), Ok(()));
    assert_eq!(memory.write_word(0x8, 0x67), Ok(()));
    let caches = vec![DirectMappedCache::new(4, 1, EmptyCacheEventHandler {})];
    let cores = vec![Core::new(0, 0x4, 0, 0, IdentityMmu::new())];
    let mut sim = Simulator::new(cores, memory, caches, EmptySyscallHandler {});

    assert_eq!(sim.run_max(10), HaltReason::CoresHalted);
    assert_eq!(sim.report(), vec![(0, 0, 2)]);
}

#[test]
fn simulator_out_of_cycles() {
    let mut memory = Memory::new(0x40);
    // at 0x4: JAL x0, +0 loops forever
    assert_eq!(memory.write_word(0x4, 0x6F), Ok(()));
    let caches = vec![DirectMappedCache::new(4, 1, EmptyCacheEventHandler {})];
    let cores = vec![Core::new(0, 0x4, 0, 0, IdentityMmu::new())];
    let mut sim = Simulator::new(cores, memory, caches, EmptySyscallHandler {});

    assert_eq!(sim.run_max(5), HaltReason::OutOfCycles);
    assert_eq!(sim.report(), vec![(0, 0, 5)]);
}

struct HaltingHandler {
    halted: bool,
}

impl SyscallHandler for HaltingHandler {
    fn syscall<M: Mmu>(
        &mut self,
        _core_id: usize,
        registers: &mut RegisterFile,
        mmu: &M,
    ) -> Option<Trap> {
        registers.write_word(Register::X10, mmu.translate(7));
        self.halted = true;
        None
    }

    fn should_halt(&self) -> bool {
        self.halted
    }
}

#[test]
fn system_call_reaches_the_handler_and_halts() {
    let mut memory = Memory::new(0x40);
    // at 0x4: ECALL
    assert_eq!(memory.write_word(0x4, 0x73), Ok(()));
    let caches = vec![DirectMappedCache::new(4, 1, EmptyCacheEventHandler {})];
    let cores = vec![Core::new(0, 0x4, 0, 0, IdentityMmu::new())];
    let mut sim = Simulator::new(cores, memory, caches, HaltingHandler { halted: false });

    assert_eq!(sim.run_max(10), HaltReason::SystemHalt);
    assert_eq!(sim.report(), vec![(0, 0, 1)]);
}

#[test]
fn binary_parses_hex_lines() {
    // one line, two words: the later chunk is the less significant word
    let lines = vec![b"DEADBEEF00C0FFEE".to_vec()];
    let b = Binary::from_hex_lines(&lines).unwrap();
    assert_eq!(b.words, vec![0x00C0FFEE, 0xDEADBEEF]);

    // a short line is one word; lines concatenate in order
    let lines = vec![b"123".to_vec(), b"00000042".to_vec()];
    let b = Binary::from_hex_lines(&lines).unwrap();
    assert_eq!(b.words, vec![0x123, 0x42]);

    // lower-case digits parse too
    let lines = vec![b"cafef00d".to_vec()];
    let b = Binary::from_hex_lines(&lines).unwrap();
    assert_eq!(b.words, vec![0xCAFEF00D]);

    let empty: Vec<Vec<u8>> = vec![];
    assert_eq!(Binary::from_hex_lines(&empty).unwrap().words, Vec::<u32>::new());

    // a non-hex byte is rejected
    let lines = vec![b"12G4".to_vec()];
    match Binary::from_hex_lines(&lines) {
        Err(e) => assert_eq!(e, BinaryError::ParseInt),
        Ok(_) => panic!("a non-hex byte must be rejected"),
    }
}
