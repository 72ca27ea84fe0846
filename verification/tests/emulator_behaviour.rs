//! Behaviour of memory, registers, single instructions and whole runs,
//! using the same table-driven test encoding as the unit tests.

use sw_ibm1130_emulator::exec::divide_would_overflow;
use sw_ibm1130_emulator::{
    CpuState, ExecError, Instruction, Memory, Opcode, execute, run, run_until_halt, step,
};

const MARK: u16 = 0xF000;

fn write_insn(mem: &mut Memory, table: &mut Vec<Instruction>, addr: u16, insn: Instruction) -> u16 {
    let idx = table.len() as u16;
    table.push(insn);
    mem.write_word(addr, MARK | idx);
    match insn {
        Instruction::Long { address, .. } => {
            mem.write_word(addr + 1, address);
            addr + 2
        }
        Instruction::Short { .. } => addr + 1,
    }
}

fn decoder(table: &[Instruction]) -> impl Fn([u8; 4]) -> Result<(Instruction, usize), String> + '_ {
    move |b: [u8; 4]| {
        let w = u16::from_be_bytes([b[0], b[1]]);
        if w & MARK != MARK {
            return Err(format!("unknown word {w:#06x}"));
        }
        match table.get((w & !MARK) as usize) {
            Some(insn) => {
                let bytes = if matches!(insn, Instruction::Long { .. }) { 4 } else { 2 };
                Ok((*insn, bytes))
            }
            None => Err(format!("no instruction {w:#06x}")),
        }
    }
}

fn long(op: Opcode, address: u16) -> Instruction {
    Instruction::Long { op, tag: 0, indirect: false, mask: 0, address }
}

fn short(op: Opcode, disp: i8) -> Instruction {
    Instruction::Short { op, tag: 0, disp }
}

/// Run one instruction placed at address 0 and return the state.
fn run_one(mem: &mut Memory, state: &mut CpuState, insn: Instruction) -> Result<(), ExecError> {
    let mut table = Vec::new();
    write_insn(mem, &mut table, 0, insn);
    let decode = decoder(&table);
    let r = step(state, mem, &decode);
    r
}

// ---------------------------------------------------------------- memory

#[test]
fn memory_new_is_zeroed_and_sized() {
    let mem = Memory::new(10);
    assert_eq!(mem.size_words(), 10);
    for a in 0..10 {
        assert_eq!(mem.read_word(a), 0);
    }
    assert_eq!(Memory::default().size_words(), 4096);
}

#[test]
fn read_after_write_and_out_of_range() {
    let mut mem = Memory::new(4);
    mem.write_word(2, 0xBEEF);
    assert_eq!(mem.read_word(2), 0xBEEF);
    assert_eq!(mem.read_word(1), 0);
    // Outside memory: writes are dropped, reads give 0.
    mem.write_word(4, 0x1234);
    assert_eq!(mem.read_word(4), 0);
    assert_eq!(mem.size_words(), 4);
}

#[test]
fn load_bytes_big_endian_with_odd_tail() {
    let mut mem = Memory::new(8);
    mem.write_word(4, 0x7777);
    mem.load_bytes(1, &[0x12, 0x34, 0x56, 0x78, 0x9A]);
    assert_eq!(mem.read_word(0), 0);
    assert_eq!(mem.read_word(1), 0x1234);
    assert_eq!(mem.read_word(2), 0x5678);
    assert_eq!(mem.read_word(3), 0x9A00);
    assert_eq!(mem.read_word(4), 0x7777);
}

#[test]
fn load_bytes_drops_what_does_not_fit() {
    let mut mem = Memory::new(2);
    mem.load_bytes(1, &[1, 2, 3, 4, 5, 6]);
    assert_eq!(mem.read_word(0), 0);
    assert_eq!(mem.read_word(1), 0x0102);
    assert_eq!(mem.size_words(), 2);
}

#[test]
fn load_then_fetch_gives_the_bytes_back() {
    let mut mem = Memory::new(16);
    let bytes = [0xC0, 0x01, 0x00, 0x14, 0xFF];
    mem.load_bytes(5, &bytes);
    assert_eq!(mem.fetch_bytes(5), [0xC0, 0x01, 0x00, 0x14]);
}

#[test]
fn fetch_bytes_wraps_around_the_address_space() {
    let mut mem = Memory::new(0x1_0000);
    mem.write_word(0xFFFF, 0xABCD);
    mem.write_word(0, 0x0102);
    assert_eq!(mem.fetch_bytes(0xFFFF), [0xAB, 0xCD, 0x01, 0x02]);
}

#[test]
fn decode_at_reports_words_not_bytes() {
    let mut mem = Memory::new(8);
    let mut table = Vec::new();
    write_insn(&mut mem, &mut table, 0, long(Opcode::Load, 3));
    write_insn(&mut mem, &mut table, 2, short(Opcode::Wait, 0));
    let decode = decoder(&table);
    assert_eq!(mem.decode_at(0, &decode), Ok((long(Opcode::Load, 3), 2)));
    assert_eq!(mem.decode_at(2, &decode), Ok((short(Opcode::Wait, 0), 1)));
    assert!(mem.decode_at(5, &decode).is_err());
}

// ------------------------------------------------------------- registers

#[test]
fn index_registers_by_tag() {
    let mut s = CpuState::new();
    s.write_xr(1, 11);
    s.write_xr(2, 22);
    s.write_xr(3, 33);
    s.write_xr(0, 99);
    s.write_xr(4, 99);
    assert_eq!((s.xr1, s.xr2, s.xr3), (11, 22, 33));
    assert_eq!(s.read_xr(1), 11);
    assert_eq!(s.read_xr(2), 22);
    assert_eq!(s.read_xr(3), 33);
    assert_eq!(s.read_xr(0), 0);
    assert_eq!(s.read_xr(7), 0);
}

#[test]
fn pair_write_then_read() {
    let mut s = CpuState::new();
    for v in [0, 1, -1, 0x1234_5678, i32::MIN, i32::MAX, -65536] {
        s.write_pair(v);
        assert_eq!(s.read_pair(), v);
    }
    s.write_pair(-2);
    assert_eq!((s.acc, s.ext), (0xFFFF, 0xFFFE));
    s.acc = 0x8000;
    s.ext = 0;
    assert_eq!(s.read_pair(), i32::MIN);
}

#[test]
fn new_state_is_all_zero() {
    let s = CpuState::new();
    assert_eq!((s.acc, s.ext, s.xr1, s.xr2, s.xr3, s.iar), (0, 0, 0, 0, 0, 0));
    assert!(!s.carry && !s.overflow && !s.halted);
    assert_eq!(s.instr_count, 0);
    assert!(s.console_output.is_empty());
}

// ---------------------------------------------------------- instructions

#[test]
fn step_advances_iar_and_counts() {
    let mut mem = Memory::new(64);
    let mut s = CpuState::new();
    run_one(&mut mem, &mut s, long(Opcode::LoadStatus, 9)).unwrap();
    assert_eq!(s.iar, 2);
    assert_eq!(s.instr_count, 1);
}

#[test]
fn decode_error_changes_nothing() {
    let mut mem = Memory::new(8);
    mem.write_word(0, 0x0042);
    let mut s = CpuState::new();
    let table: Vec<Instruction> = Vec::new();
    let err = step(&mut s, &mut mem, &decoder(&table)).unwrap_err();
    assert_eq!(err, ExecError::Decode("unknown word 0x0042".to_string()));
    assert_eq!(s.iar, 0);
    assert_eq!(s.instr_count, 0);
}

#[test]
fn halted_step_refuses() {
    let mut mem = Memory::new(8);
    let mut s = CpuState::new();
    s.halted = true;
    let table: Vec<Instruction> = Vec::new();
    assert_eq!(step(&mut s, &mut mem, &decoder(&table)), Err(ExecError::Halted));
    assert_eq!(s.instr_count, 0);
}

#[test]
fn add_sets_sticky_carry_and_overflow() {
    let mut mem = Memory::new(64);
    mem.write_word(20, 1);
    let mut s = CpuState::new();
    s.acc = 0x7FFF;
    run_one(&mut mem, &mut s, long(Opcode::Add, 20)).unwrap();
    assert_eq!(s.acc, 0x8000);
    assert!(s.overflow);
    assert!(!s.carry);

    let mut s = CpuState::new();
    s.acc = 0xFFFF;
    run_one(&mut mem, &mut s, long(Opcode::Add, 20)).unwrap();
    assert_eq!(s.acc, 0);
    assert!(s.carry);
    assert!(!s.overflow);
    // Carry stays set after an add that does not carry.
    s.iar = 0;
    run_one(&mut mem, &mut s, long(Opcode::Add, 20)).unwrap();
    assert_eq!(s.acc, 1);
    assert!(s.carry);
}

#[test]
fn subtract_borrows() {
    let mut mem = Memory::new(64);
    mem.write_word(20, 1);
    let mut s = CpuState::new();
    run_one(&mut mem, &mut s, long(Opcode::Subtract, 20)).unwrap();
    assert_eq!(s.acc, 0xFFFF);
    assert!(s.carry);
    assert!(!s.overflow);

    let mut s = CpuState::new();
    s.acc = 0x8000;
    run_one(&mut mem, &mut s, long(Opcode::Subtract, 20)).unwrap();
    assert_eq!(s.acc, 0x7FFF);
    assert!(s.overflow);
}

#[test]
fn double_add_and_subtract() {
    let mut mem = Memory::new(64);
    mem.write_word(20, 0x0000);
    mem.write_word(21, 0x0001);
    let mut s = CpuState::new();
    s.acc = 0x0001;
    s.ext = 0xFFFF;
    run_one(&mut mem, &mut s, long(Opcode::AddDouble, 20)).unwrap();
    assert_eq!((s.acc, s.ext), (0x0002, 0x0000));
    s.iar = 0;
    run_one(&mut mem, &mut s, long(Opcode::SubtractDouble, 20)).unwrap();
    assert_eq!((s.acc, s.ext), (0x0001, 0xFFFF));
    // Wraps modulo 2^32.
    let mut s = CpuState::new();
    s.acc = 0x7FFF;
    s.ext = 0xFFFF;
    run_one(&mut mem, &mut s, long(Opcode::AddDouble, 20)).unwrap();
    assert_eq!((s.acc, s.ext), (0x8000, 0x0000));
}

#[test]
fn multiply_negative_operands() {
    let mut mem = Memory::new(64);
    mem.write_word(20, 5);
    let mut s = CpuState::new();
    s.acc = (-3i16) as u16;
    run_one(&mut mem, &mut s, long(Opcode::Multiply, 20)).unwrap();
    assert_eq!(s.read_pair(), -15);
    mem.write_word(20, 0x8000);
    let mut s = CpuState::new();
    s.acc = 0x8000;
    run_one(&mut mem, &mut s, long(Opcode::Multiply, 20)).unwrap();
    assert_eq!(s.read_pair(), 0x4000_0000);
}

#[test]
fn divide_truncates_toward_zero() {
    let mut mem = Memory::new(64);
    mem.write_word(20, 3);
    let mut s = CpuState::new();
    s.write_pair(-17);
    run_one(&mut mem, &mut s, long(Opcode::Divide, 20)).unwrap();
    assert_eq!(s.acc as i16, -5);
    assert_eq!(s.ext as i16, -2);
    mem.write_word(20, (-3i16) as u16);
    let mut s = CpuState::new();
    s.write_pair(17);
    run_one(&mut mem, &mut s, long(Opcode::Divide, 20)).unwrap();
    assert_eq!(s.acc as i16, -5);
    assert_eq!(s.ext as i16, 2);
}

#[test]
fn divide_by_zero_leaves_registers() {
    let mut mem = Memory::new(64);
    let mut s = CpuState::new();
    s.acc = 1;
    s.ext = 2;
    let err = run_one(&mut mem, &mut s, long(Opcode::Divide, 20)).unwrap_err();
    assert_eq!(err, ExecError::DivideByZero);
    assert_eq!((s.acc, s.ext), (1, 2));
    assert_eq!(s.iar, 2);
    assert_eq!(s.instr_count, 1);
}

#[test]
fn shifts_use_count_modulo_16() {
    let mut mem = Memory::new(8);
    let mut s = CpuState::new();
    s.acc = 0x0007;
    run_one(&mut mem, &mut s, short(Opcode::ShiftLeft, 19)).unwrap();
    assert_eq!(s.acc, 0x0038);
    let mut s = CpuState::new();
    s.acc = 0x4001;
    run_one(&mut mem, &mut s, short(Opcode::ShiftLeft, 1)).unwrap();
    assert_eq!(s.acc, 0x8002);
    let mut s = CpuState::new();
    s.acc = 0x7FF0;
    run_one(&mut mem, &mut s, short(Opcode::ShiftRight, 4)).unwrap();
    assert_eq!(s.acc, 0x07FF);
    let mut s = CpuState::new();
    s.acc = 0xFFFF;
    run_one(&mut mem, &mut s, short(Opcode::ShiftRight, 15)).unwrap();
    assert_eq!(s.acc, 0xFFFF);
    // The long form carries no shift count.
    let mut s = CpuState::new();
    s.acc = 0x0007;
    run_one(&mut mem, &mut s, long(Opcode::ShiftLeft, 9)).unwrap();
    assert_eq!(s.acc, 0x0007);
}

#[test]
fn store_double_then_load_double() {
    let mut mem = Memory::new(64);
    let mut s = CpuState::new();
    s.acc = 0x1111;
    s.ext = 0x2222;
    run_one(&mut mem, &mut s, long(Opcode::StoreDouble, 30)).unwrap();
    assert_eq!((mem.read_word(30), mem.read_word(31)), (0x1111, 0x2222));
    let mut t = CpuState::new();
    run_one(&mut mem, &mut t, long(Opcode::LoadDouble, 30)).unwrap();
    assert_eq!((t.acc, t.ext), (0x1111, 0x2222));
}

#[test]
fn indexed_and_indirect_addressing() {
    let mut mem = Memory::new(64);
    mem.write_word(25, 0x0AAA);
    mem.write_word(40, 25);
    let mut s = CpuState::new();
    s.xr1 = 5;
    let insn = Instruction::Long { op: Opcode::Load, tag: 1, indirect: false, mask: 0, address: 20 };
    run_one(&mut mem, &mut s, insn).unwrap();
    assert_eq!(s.acc, 0x0AAA);
    let mut s = CpuState::new();
    let insn = Instruction::Long { op: Opcode::Load, tag: 0, indirect: true, mask: 0, address: 40 };
    run_one(&mut mem, &mut s, insn).unwrap();
    assert_eq!(s.acc, 0x0AAA);
    // Short form: IAR (after the instruction) plus the displacement.
    mem.write_word(10, 0x0BBB);
    let mut s = CpuState::new();
    run_one(&mut mem, &mut s, short(Opcode::Load, 9)).unwrap();
    assert_eq!(s.acc, 0x0BBB);
}

#[test]
fn load_and_store_index() {
    let mut mem = Memory::new(64);
    mem.write_word(20, 0x0123);
    let mut s = CpuState::new();
    let ldx = Instruction::Long { op: Opcode::LoadIndex, tag: 2, indirect: false, mask: 0, address: 20 };
    run_one(&mut mem, &mut s, ldx).unwrap();
    assert_eq!(s.xr2, 0x0123);
    s.iar = 0;
    let stx = Instruction::Long { op: Opcode::StoreIndex, tag: 2, indirect: false, mask: 0, address: 30 };
    run_one(&mut mem, &mut s, stx).unwrap();
    assert_eq!(mem.read_word(30), 0x0123);
}

#[test]
fn mdx_counts_down_and_skips_at_zero() {
    let mut mem = Memory::new(64);
    let mut table = Vec::new();
    write_insn(&mut mem, &mut table, 0, Instruction::Short { op: Opcode::ModifyIndex, tag: 1, disp: -1 });
    write_insn(&mut mem, &mut table, 1, long(Opcode::BranchSkipCondition, 0));
    let decode = decoder(&table);
    let mut s = CpuState::new();
    s.xr1 = 2;
    step(&mut s, &mut mem, &decode).unwrap();
    assert_eq!((s.xr1, s.iar), (1, 1));
    s.iar = 0;
    step(&mut s, &mut mem, &decode).unwrap();
    assert_eq!((s.xr1, s.iar), (0, 3));
    // Long form sets the register to the address.
    let mut s = CpuState::new();
    let mdx = Instruction::Long { op: Opcode::ModifyIndex, tag: 3, indirect: false, mask: 0, address: 77 };
    run_one(&mut mem, &mut s, mdx).unwrap();
    assert_eq!((s.xr3, s.iar), (77, 2));
}

#[test]
fn skip_needs_a_decodable_next_instruction() {
    let mut mem = Memory::new(64);
    let mut s = CpuState::new();
    // Word 1 does not decode: the matching BSC does not skip.
    run_one(&mut mem, &mut s, short(Opcode::BranchSkipCondition, 0x20)).unwrap();
    assert_eq!(s.iar, 1);
}

#[test]
fn bsc_conditions() {
    let cases: [(u16, bool, i8, bool); 8] = [
        (4, false, 0x04, true),   // even
        (5, false, 0x04, false),
        (5, false, 0x08, true),   // positive
        (0x8000, false, 0x08, false),
        (0x8000, false, 0x10, true), // negative
        (0, false, 0x10, false),
        (9, true, 0x40, true),    // carry
        (0, false, 0, false),     // zero mask tests nothing
    ];
    for (acc, carry, mask, skips) in cases {
        let mut mem = Memory::new(64);
        let mut table = Vec::new();
        write_insn(&mut mem, &mut table, 0, short(Opcode::BranchSkipCondition, mask));
        write_insn(&mut mem, &mut table, 1, short(Opcode::Wait, 0));
        let mut s = CpuState::new();
        s.acc = acc;
        s.carry = carry;
        step(&mut s, &mut mem, &decoder(&table)).unwrap();
        assert_eq!(s.iar, if skips { 2 } else { 1 }, "acc {acc:#x} mask {mask:#x}");
    }
}

#[test]
fn bsi_with_unmatched_mask_falls_through() {
    let mut mem = Memory::new(64);
    let mut s = CpuState::new();
    s.acc = 3;
    let bsi = Instruction::Long { op: Opcode::BranchStore, tag: 0, indirect: false, mask: 0x20, address: 30 };
    run_one(&mut mem, &mut s, bsi).unwrap();
    assert_eq!(s.iar, 2);
    assert_eq!(mem.read_word(30), 0);
}

#[test]
fn xio_console_write_types_low_byte() {
    let mut mem = Memory::new(64);
    mem.write_word(50, 60);
    mem.write_word(51, 0x0800); // area 1, function 0
    mem.write_word(60, 0x1241); // low byte 'A'
    let mut s = CpuState::new();
    run_one(&mut mem, &mut s, long(Opcode::ExecuteInputOutput, 50)).unwrap();
    assert_eq!(s.console_output, b"A".to_vec());
    // Another area does nothing.
    mem.write_word(51, 0x1000);
    s.iar = 0;
    run_one(&mut mem, &mut s, long(Opcode::ExecuteInputOutput, 50)).unwrap();
    assert_eq!(s.console_output, b"A".to_vec());
}

#[test]
fn execute_runs_a_decoded_instruction() {
    let mut mem = Memory::new(64);
    mem.write_word(20, 9);
    let mut s = CpuState::new();
    s.iar = 7;
    execute(&mut s, &mut mem, long(Opcode::Load, 20), None).unwrap();
    assert_eq!(s.acc, 9);
    assert_eq!(s.iar, 7);
    execute(&mut s, &mut mem, short(Opcode::BranchSkipCondition, 0x08), Some(2)).unwrap();
    assert_eq!(s.iar, 9);
}

// ----------------------------------------------------------------- runs

/// SUM = N + (N - 1) + ... + 1 with N = 10.
fn sum_program(mem: &mut Memory, table: &mut Vec<Instruction>) {
    let (n, sum, one) = (40, 41, 42);
    mem.write_word(n, 10);
    mem.write_word(sum, 0);
    mem.write_word(one, 1);
    let mut a = 0;
    a = write_insn(mem, table, a, long(Opcode::Load, n));
    a = write_insn(mem, table, a, long(Opcode::Add, sum));
    a = write_insn(mem, table, a, long(Opcode::Store, sum));
    a = write_insn(mem, table, a, long(Opcode::Load, n));
    a = write_insn(mem, table, a, long(Opcode::Subtract, one));
    a = write_insn(mem, table, a, long(Opcode::Store, n));
    a = write_insn(mem, table, a, short(Opcode::BranchSkipCondition, 0x20));
    a = write_insn(mem, table, a, long(Opcode::BranchSkipCondition, 0));
    write_insn(mem, table, a, short(Opcode::Wait, 0));
}

#[test]
fn run_stops_after_max_steps() {
    let mut mem = Memory::new(4096);
    let mut table = Vec::new();
    sum_program(&mut mem, &mut table);
    let mut s = CpuState::new();
    let n = run(&mut s, &mut mem, 5, &decoder(&table)).unwrap();
    assert_eq!(n, 5);
    assert!(!s.halted);
    let m = run(&mut s, &mut mem, 10_000, &decoder(&table)).unwrap();
    assert_eq!(n + m, 80);
    assert_eq!(mem.read_word(41), 55);
}

#[test]
fn run_on_halted_cpu_does_nothing() {
    let mut mem = Memory::new(16);
    let mut s = CpuState::new();
    s.halted = true;
    let table: Vec<Instruction> = Vec::new();
    assert_eq!(run(&mut s, &mut mem, 100, &decoder(&table)), Ok(0));
    assert_eq!(run_until_halt(&mut s, &mut mem, 100, &decoder(&table)), Ok(0));
}

#[test]
fn run_reports_the_first_error() {
    let mut mem = Memory::new(64);
    let mut table = Vec::new();
    let a = write_insn(&mut mem, &mut table, 0, long(Opcode::Load, 40));
    write_insn(&mut mem, &mut table, a, long(Opcode::Divide, 41));
    let mut s = CpuState::new();
    assert_eq!(run(&mut s, &mut mem, 100, &decoder(&table)), Err(ExecError::DivideByZero));
    assert_eq!(s.instr_count, 2);
    // Running off the program hits a word that does not decode.
    let mut mem = Memory::new(64);
    let mut table = Vec::new();
    write_insn(&mut mem, &mut table, 0, long(Opcode::Load, 40));
    let mut s = CpuState::new();
    let err = run_until_halt(&mut s, &mut mem, 100, &decoder(&table)).unwrap_err();
    assert!(matches!(err, ExecError::Decode(_)));
    assert_eq!(s.instr_count, 1);
}

#[test]
fn divide_overflow_is_detected_before_the_step() {
    let mut mem = Memory::new(64);
    mem.write_word(20, 0xFFFF); // -1
    let mut s = CpuState::new();
    s.write_pair(i32::MIN);
    assert!(divide_would_overflow(&s, &mem, long(Opcode::Divide, 20)));
    s.write_pair(i32::MIN + 1);
    assert!(!divide_would_overflow(&s, &mem, long(Opcode::Divide, 20)));
    s.write_pair(i32::MIN);
    assert!(!divide_would_overflow(&s, &mem, long(Opcode::Multiply, 20)));
    // Short form: the operand address is IAR plus the displacement.
    s.iar = 18;
    assert!(divide_would_overflow(&s, &mem, short(Opcode::Divide, 2)));
}

#[test]
fn bsc_short_unused_mask_bit_does_not_skip() {
    // 0x01 is not a condition bit: with ACC zero the BSC does not skip.
    let mut mem = Memory::new(64);
    let mut table = Vec::new();
    write_insn(&mut mem, &mut table, 0, short(Opcode::BranchSkipCondition, 0x01));
    write_insn(&mut mem, &mut table, 1, long(Opcode::BranchSkipCondition, 50));
    let mut s = CpuState::new();
    s.acc = 0;
    step(&mut s, &mut mem, &decoder(&table)).unwrap();
    assert_eq!(s.iar, 1);
}

#[test]
fn combined_and_unused_mask_bits() {
    // (acc, carry, overflow, mask, skips)
    let cases: [(u16, bool, bool, i8, bool); 7] = [
        (0, false, false, 0x30, true),      // zero | negative, ACC zero
        (0x8000, false, false, 0x30, true), // zero | negative, ACC negative
        (5, false, false, 0x30, false),     // neither holds
        (0, false, false, 0x20 | 0x03, true), // unused bits change nothing
        (0, false, true, 0x03, false),      // overflow is never tested
        (0, false, false, -0x80, false),    // 0x80 tests nothing
        (3, true, false, -0x80 | 0x40, true),
    ];
    for (acc, carry, overflow, mask, skips) in cases {
        let mut mem = Memory::new(64);
        let mut table = Vec::new();
        write_insn(&mut mem, &mut table, 0, short(Opcode::BranchSkipCondition, mask));
        write_insn(&mut mem, &mut table, 1, short(Opcode::Wait, 0));
        let mut s = CpuState::new();
        s.acc = acc;
        s.carry = carry;
        s.overflow = overflow;
        step(&mut s, &mut mem, &decoder(&table)).unwrap();
        assert_eq!(s.iar, if skips { 2 } else { 1 }, "acc {acc:#x} mask {mask:#x}");
    }
}

#[test]
fn store_then_load_from_a_later_state() {
    let mut mem = Memory::new(64);
    let mut s = CpuState::new();
    s.acc = 0x4321;
    s.xr1 = 4;
    let sto = Instruction::Long { op: Opcode::Store, tag: 1, indirect: false, mask: 0, address: 20 };
    run_one(&mut mem, &mut s, sto).unwrap();
    assert_eq!(mem.read_word(24), 0x4321);
    let mut later = CpuState::new();
    later.xr1 = 4;
    later.acc = 7;
    later.iar = 30;
    let ld = Instruction::Long { op: Opcode::Load, tag: 1, indirect: false, mask: 0x20, address: 20 };
    execute(&mut later, &mut mem, ld, None).unwrap();
    assert_eq!(later.acc, 0x4321);
}

#[test]
fn run_in_two_slices_matches_one_run() {
    let mut mem1 = Memory::new(4096);
    let mut table = Vec::new();
    sum_program(&mut mem1, &mut table);
    let mut mem2 = mem1.clone();
    let decode = decoder(&table);
    let mut s1 = CpuState::new();
    let n1 = run(&mut s1, &mut mem1, 17, &decode).unwrap();
    let n2 = run(&mut s1, &mut mem1, 30, &decode).unwrap();
    let mut s2 = CpuState::new();
    let n = run(&mut s2, &mut mem2, 47, &decode).unwrap();
    assert_eq!(n1 + n2, n);
    assert_eq!((s1.acc, s1.iar, s1.instr_count), (s2.acc, s2.iar, s2.instr_count));
    assert_eq!(mem1.read_word(41), mem2.read_word(41));
}
