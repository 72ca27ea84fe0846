//! End-to-end demos: small programs run to halt, with assertions on the
//! final memory and register state. They illustrate the 1130
//! programming primitives (math, conditions, loops, strings, console
//! output). Programs are written in the table-driven test encoding that
//! the decoder below understands.

use sw_ibm1130_emulator::{CpuState, Instruction, Memory, Opcode, run};

const MAX_STEPS: u64 = 10_000;
const MARK: u16 = 0xF000;

/// Builds a program: each instruction goes into a table, and memory gets
/// a marker word that indexes it (plus the address word of a long one).
struct Program {
    mem: Memory,
    table: Vec<Instruction>,
    next: u16,
}

impl Program {
    fn new() -> Self {
        Program { mem: Memory::new(4096), table: Vec::new(), next: 0 }
    }

    fn emit(&mut self, insn: Instruction) -> u16 {
        let at = self.next;
        let idx = self.table.len() as u16;
        self.table.push(insn);
        self.mem.write_word(at, MARK | idx);
        self.next = match insn {
            Instruction::Long { address, .. } => {
                self.mem.write_word(at + 1, address);
                at + 2
            }
            Instruction::Short { .. } => at + 1,
        };
        at
    }

    fn long(&mut self, op: Opcode, tag: u8, address: u16) -> u16 {
        self.emit(Instruction::Long { op, tag, indirect: false, mask: 0, address })
    }

    fn short(&mut self, op: Opcode, tag: u8, disp: i8) -> u16 {
        self.emit(Instruction::Short { op, tag, disp })
    }

    fn data(&mut self, addr: u16, value: u16) {
        self.mem.write_word(addr, value);
    }
}

/// Run a program from word 0 until WAIT and return the final state and
/// memory.
fn run_program(mut p: Program) -> (CpuState, Memory) {
    let table = p.table;
    let decode = move |b: [u8; 4]| -> Result<(Instruction, usize), String> {
        let w = u16::from_be_bytes([b[0], b[1]]);
        if w & MARK != MARK {
            return Err(format!("unknown word {w:#06x}"));
        }
        match table.get((w & !MARK) as usize) {
            Some(insn) => {
                let bytes = if matches!(insn, Instruction::Long { .. }) { 4 } else { 2 };
                Ok((*insn, bytes))
            }
            None => Err(format!("no instruction {w:#06x}")),
        }
    };
    let mut state = CpuState::new();
    let _steps = run(&mut state, &mut p.mem, MAX_STEPS, &decode).expect("run");
    assert!(state.halted, "program did not halt within {MAX_STEPS} steps");
    (state, p.mem)
}

const Z: i8 = 0x20;
const NEG: i8 = 0x10;

#[test]
fn math_demo_computes_5_plus_3_times_4() {
    let (a, b, c, result) = (100, 101, 102, 110);
    let mut p = Program::new();
    p.data(a, 5);
    p.data(b, 3);
    p.data(c, 4);
    p.long(Opcode::Load, 0, a);
    p.long(Opcode::Add, 0, b);
    p.long(Opcode::Multiply, 0, c);
    p.long(Opcode::StoreDouble, 0, result);
    p.short(Opcode::Wait, 0, 0);
    let (_state, mem) = run_program(p);
    let result_addr = result;
    // STD writes the 32-bit product across two words: RESULT = ACC (high
    // half, = 0 for this small product), RESULT+1 = EXT (low half, = 32).
    let high = mem.read_word(result_addr);
    let low = mem.read_word(result_addr + 1);
    let combined = ((high as u32) << 16) | (low as u32);
    assert_eq!(high, 0, "high word of (5+3)*4 should be 0");
    assert_eq!(low, 32, "low word of (5+3)*4 should be 32");
    assert_eq!(combined, 32);
}

#[test]
fn conditions_demo_picks_max() {
    let (a, b, result) = (100, 101, 110);
    let mut p = Program::new();
    p.data(a, 12);
    p.data(b, 17);
    p.long(Opcode::Load, 0, a); // 0
    p.long(Opcode::Subtract, 0, b); // 2: ACC = A - B
    p.short(Opcode::BranchSkipCondition, 0, NEG); // 4: negative -> skip
    p.long(Opcode::BranchSkipCondition, 0, 11); // 5: A >= B: take A
    p.long(Opcode::Load, 0, b); // 7
    p.long(Opcode::BranchSkipCondition, 0, 13); // 9
    p.long(Opcode::Load, 0, a); // 11
    p.long(Opcode::Store, 0, result); // 13
    p.short(Opcode::Wait, 0, 0); // 15
    let (_state, mem) = run_program(p);
    // A=12, B=17 -> max is 17.
    assert_eq!(mem.read_word(result), 17);
}

#[test]
fn loops_demo_sums_1_through_10() {
    let (n, result, one) = (100, 110, 101);
    let mut p = Program::new();
    p.data(n, 10);
    p.data(one, 1);
    let top = p.long(Opcode::Load, 0, n);
    p.long(Opcode::Add, 0, result);
    p.long(Opcode::Store, 0, result);
    p.long(Opcode::Load, 0, n);
    p.long(Opcode::Subtract, 0, one);
    p.long(Opcode::Store, 0, n);
    p.short(Opcode::BranchSkipCondition, 0, Z);
    p.long(Opcode::BranchSkipCondition, 0, top);
    p.short(Opcode::Wait, 0, 0);
    let (state, mem) = run_program(p);
    // 1+2+...+10 = 55.
    assert_eq!(mem.read_word(result), 55);
    assert_eq!(state.instr_count, 80);
}

#[test]
fn strings_demo_copies_until_sentinel() {
    // Copies words from SRC to DST until the sentinel 0xFFFF and counts
    // them in LEN.
    let (src, dst, len, zero, one) = (100, 120, 140, 141, 142);
    let mut p = Program::new();
    for (i, w) in [0x48u16, 0x49, 0x4A, 0xFFFF].iter().enumerate() {
        p.data(src + i as u16, *w);
    }
    p.data(zero, 0);
    p.data(one, 1);
    p.long(Opcode::LoadIndex, 1, zero); // 0: XR1 = 0
    let top = p.long(Opcode::Load, 1, src); // 2: ACC = SRC[XR1]
    p.long(Opcode::Add, 0, one); // 4: zero exactly at the sentinel
    p.short(Opcode::BranchSkipCondition, 0, Z); // 6: sentinel -> skip
    p.long(Opcode::BranchSkipCondition, 0, 11); // 7: to the body
    p.long(Opcode::BranchSkipCondition, 0, 18); // 9: to the end
    p.long(Opcode::Load, 1, src); // 11: ACC = SRC[XR1]
    p.long(Opcode::Store, 1, dst); // 13: DST[XR1] = ACC
    p.short(Opcode::ModifyIndex, 1, 1); // 15: XR1 += 1
    p.long(Opcode::BranchSkipCondition, 0, top); // 16
    p.long(Opcode::StoreIndex, 1, len); // 18: LEN = XR1
    p.short(Opcode::Wait, 0, 0); // 20
    let (_state, mem) = run_program(p);
    let dst_addr = dst;
    let len_addr = len;
    assert_eq!(mem.read_word(dst_addr), 0x0048);
    assert_eq!(mem.read_word(dst_addr + 1), 0x0049);
    assert_eq!(mem.read_word(dst_addr + 2), 0x004A);
    assert_eq!(mem.read_word(len_addr), 3);
}

#[test]
fn hello_world_demo_prints_to_console() {
    let text = b"HELLO, WORLD!\n";
    let mut p = Program::new();
    for (i, ch) in text.iter().enumerate() {
        let iocc = 1000 + 2 * i as u16;
        let data = 2000 + i as u16;
        p.data(iocc, data);
        p.data(iocc + 1, 0x0800); // console (area 1), write (function 0)
        p.data(data, *ch as u16);
        p.long(Opcode::ExecuteInputOutput, 0, iocc);
    }
    p.short(Opcode::Wait, 0, 0);
    let (state, _mem) = run_program(p);
    let printed = String::from_utf8(state.console_output).expect("ASCII");
    assert_eq!(printed, "HELLO, WORLD!\n");
}
