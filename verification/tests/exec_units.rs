//! Unit tests for individual instruction semantics.
//!
//! Instructions are poked directly into memory in a small table-driven
//! encoding that the test decoder below understands, so the emulator's
//! behaviour is pinned independently of any assembler or real decoder.

use sw_ibm1130_emulator::{CpuState, ExecError, Instruction, Memory, Opcode, step};

/// Marker bits of the first word of a test-encoded instruction; the low
/// 12 bits index the instruction table.
const MARK: u16 = 0xF000;

/// Write `insn` at `addr` in the test encoding and return the address
/// after it. A long instruction's second word holds its address field.
fn write_insn(mem: &mut Memory, table: &mut Vec<Instruction>, addr: u16, insn: Instruction) -> u16 {
    let idx = table.len() as u16;
    table.push(insn);
    mem.write_word(addr, MARK | idx);
    match insn {
        Instruction::Long { address, .. } => {
            mem.write_word(addr + 1, address);
            addr + 2
        }
        Instruction::Short { .. } => addr + 1,
    }
}

/// A decoder for the test encoding: maps the four bytes at an address to
/// the tabled instruction and its length in bytes.
fn decoder(table: &[Instruction]) -> impl Fn([u8; 4]) -> Result<(Instruction, usize), String> + '_ {
    move |b: [u8; 4]| {
        let w = u16::from_be_bytes([b[0], b[1]]);
        if w & MARK != MARK {
            return Err(format!("unknown word {w:#06x}"));
        }
        match table.get((w & !MARK) as usize) {
            Some(insn) => {
                let bytes = if matches!(insn, Instruction::Long { .. }) { 4 } else { 2 };
                Ok((*insn, bytes))
            }
            None => Err(format!("no instruction {w:#06x}")),
        }
    }
}

fn long(op: Opcode, address: u16) -> Instruction {
    Instruction::Long { op, tag: 0, indirect: false, mask: 0, address }
}

#[test]
fn load_long_form_reads_from_memory() {
    let mut mem = Memory::new(64);
    mem.write_word(20, 0xCAFE);
    let mut table = Vec::new();
    write_insn(&mut mem, &mut table, 0, long(Opcode::Load, 20));
    let mut state = CpuState::new();
    step(&mut state, &mut mem, &decoder(&table)).unwrap();
    assert_eq!(state.acc, 0xCAFE);
}

#[test]
fn add_long_form_accumulates() {
    let mut mem = Memory::new(64);
    mem.write_word(20, 7);
    let mut table = Vec::new();
    write_insn(&mut mem, &mut table, 0, long(Opcode::Add, 20));
    let mut state = CpuState::new();
    state.acc = 5;
    step(&mut state, &mut mem, &decoder(&table)).unwrap();
    assert_eq!(state.acc, 12);
}

#[test]
fn store_long_form_writes_acc() {
    let mut mem = Memory::new(64);
    let mut table = Vec::new();
    write_insn(&mut mem, &mut table, 0, long(Opcode::Store, 30));
    let mut state = CpuState::new();
    state.acc = 0x1234;
    step(&mut state, &mut mem, &decoder(&table)).unwrap();
    assert_eq!(mem.read_word(30), 0x1234);
}

#[test]
fn multiply_writes_pair_to_acc_ext() {
    let mut mem = Memory::new(64);
    mem.write_word(20, 4);
    let mut table = Vec::new();
    write_insn(&mut mem, &mut table, 0, long(Opcode::Multiply, 20));
    let mut state = CpuState::new();
    state.acc = 8;
    step(&mut state, &mut mem, &decoder(&table)).unwrap();
    // 8 * 4 = 32 -> ACC (high) = 0, EXT (low) = 32.
    assert_eq!(state.acc, 0);
    assert_eq!(state.ext, 32);
}

#[test]
fn divide_yields_quotient_and_remainder() {
    let mut mem = Memory::new(64);
    mem.write_word(20, 3);
    let mut table = Vec::new();
    write_insn(&mut mem, &mut table, 0, long(Opcode::Divide, 20));
    let mut state = CpuState::new();
    // Dividend pair = 17 (high=0, low=17). 17 / 3 = 5 rem 2.
    state.acc = 0;
    state.ext = 17;
    step(&mut state, &mut mem, &decoder(&table)).unwrap();
    assert_eq!(state.acc, 5);
    assert_eq!(state.ext, 2);
}

#[test]
fn divide_by_zero_errors() {
    let mut mem = Memory::new(64);
    mem.write_word(20, 0);
    let mut table = Vec::new();
    write_insn(&mut mem, &mut table, 0, long(Opcode::Divide, 20));
    let mut state = CpuState::new();
    state.ext = 10;
    let err = step(&mut state, &mut mem, &decoder(&table)).unwrap_err();
    assert_eq!(err, ExecError::DivideByZero);
}

#[test]
fn wait_halts() {
    let mut mem = Memory::new(8);
    let mut table = Vec::new();
    write_insn(&mut mem, &mut table, 0, Instruction::Short { op: Opcode::Wait, tag: 0, disp: 0 });
    let mut state = CpuState::new();
    let decode = decoder(&table);
    step(&mut state, &mut mem, &decode).unwrap();
    assert!(state.halted);
    assert!(step(&mut state, &mut mem, &decode).is_err());
}

#[test]
fn bsi_writes_iar_and_jumps_to_target_plus_one() {
    let mut mem = Memory::new(64);
    let mut table = Vec::new();
    write_insn(&mut mem, &mut table, 0, long(Opcode::BranchStore, 30));
    let mut state = CpuState::new();
    step(&mut state, &mut mem, &decoder(&table)).unwrap();
    // BSI long is 2 words, so IAR was 2 after fetch; target=30 gets the
    // return address; IAR should now be 31.
    assert_eq!(mem.read_word(30), 2);
    assert_eq!(state.iar, 31);
}

#[test]
fn bsc_long_unconditional_branches_when_mask_zero() {
    let mut mem = Memory::new(64);
    let mut table = Vec::new();
    write_insn(&mut mem, &mut table, 0, long(Opcode::BranchSkipCondition, 50));
    let mut state = CpuState::new();
    state.acc = 0; // doesn't matter; mask is 0
    step(&mut state, &mut mem, &decoder(&table)).unwrap();
    assert_eq!(state.iar, 50);
}

#[test]
fn bsc_short_skips_when_z_matches_acc_zero() {
    // Conditional branch idiom on this emulator:
    //   BSC mask           ; skip next if condition matches
    //   BSC L target, 0    ; unconditional jump
    let mut mem = Memory::new(64);
    let mut table = Vec::new();
    write_insn(
        &mut mem,
        &mut table,
        0,
        Instruction::Short { op: Opcode::BranchSkipCondition, tag: 0, disp: 0x20 }, // Z mask
    );
    write_insn(&mut mem, &mut table, 1, long(Opcode::BranchSkipCondition, 50));
    let mut state = CpuState::new();
    state.acc = 0; // Z matches -> skip the next (long) instruction.
    step(&mut state, &mut mem, &decoder(&table)).unwrap();
    // After the short BSC, IAR should be past the long BSC: 1 (size of
    // short) + 2 (size of skipped long) = 3.
    assert_eq!(state.iar, 3);
}

#[test]
fn bsc_short_falls_through_when_condition_does_not_match() {
    let mut mem = Memory::new(64);
    let mut table = Vec::new();
    write_insn(
        &mut mem,
        &mut table,
        0,
        Instruction::Short { op: Opcode::BranchSkipCondition, tag: 0, disp: 0x20 }, // Z mask
    );
    write_insn(&mut mem, &mut table, 1, long(Opcode::BranchSkipCondition, 50));
    let mut state = CpuState::new();
    state.acc = 5; // Z does not match -> don't skip.
    let decode = decoder(&table);
    step(&mut state, &mut mem, &decode).unwrap();
    assert_eq!(state.iar, 1);
    step(&mut state, &mut mem, &decode).unwrap();
    assert_eq!(state.iar, 50);
}

#[test]
fn shift_left_by_3() {
    let mut mem = Memory::new(8);
    let mut table = Vec::new();
    write_insn(&mut mem, &mut table, 0, Instruction::Short { op: Opcode::ShiftLeft, tag: 0, disp: 3 });
    let mut state = CpuState::new();
    state.acc = 0x0007;
    step(&mut state, &mut mem, &decoder(&table)).unwrap();
    assert_eq!(state.acc, 0x0038);
}

#[test]
fn shift_right_arithmetic_preserves_sign() {
    let mut mem = Memory::new(8);
    let mut table = Vec::new();
    write_insn(&mut mem, &mut table, 0, Instruction::Short { op: Opcode::ShiftRight, tag: 0, disp: 4 });
    let mut state = CpuState::new();
    state.acc = 0x8000_u16; // i16::MIN
    step(&mut state, &mut mem, &decoder(&table)).unwrap();
    // -32768 >> 4 = -2048 = 0xF800
    assert_eq!(state.acc, 0xF800);
}

#[test]
fn and_or_xor() {
    for (op, lhs, rhs, expected) in [
        (Opcode::And, 0xF0F0u16, 0x0FFFu16, 0x00F0u16),
        (Opcode::Or, 0x00F0, 0x0F00, 0x0FF0),
        (Opcode::ExclusiveOr, 0xFFFF, 0x00FF, 0xFF00),
    ] {
        let mut mem = Memory::new(64);
        mem.write_word(20, rhs);
        let mut table = Vec::new();
        write_insn(&mut mem, &mut table, 0, long(op, 20));
        let mut state = CpuState::new();
        state.acc = lhs;
        step(&mut state, &mut mem, &decoder(&table)).unwrap();
        assert_eq!(state.acc, expected, "op {:?}", op);
    }
}
