//! What the instructions do, stated over the plain model of the machine:
//! memory as a sequence of words, the registers as numbers. Each law
//! describes the outcome of `execute_spec` (and so of `execute` and
//! `step`) directly from the inputs, for every input.
use vstd::prelude::*;
use crate::exec::{
    address_of, condition_holds, destination_of, ea_of, execute_spec, law_multiply_exact, operand_of,
    ExecError,
};
use crate::insn::{Instruction, Opcode};
use crate::memory::store_word;
use crate::state::CpuView;
use crate::word::{
    lemma_truncated_division_unique, magnitude, quotient, remainder, shift_places, signed16, wrap16,
};
use vstd::arithmetic::div_mod::{lemma_fundamental_div_mod, lemma_mod_bound, lemma_mod_multiples_vanish};
use vstd::arithmetic::power2::{lemma2_to64, lemma_pow2_pos, lemma_pow2_strictly_increases, pow2};

verus! {

/// The word at address `a` of `m`; 0 outside it.
pub open spec fn cell(m: Seq<u16>, a: int) -> u16 {
    if 0 <= a < m.len() {
        m[a]
    } else {
        0
    }
}

/// `base` indexed by a register value, on the 16-bit address ring.
pub open spec fn indexed(base: int, offset: int) -> int {
    (base + offset) % 0x1_0000
}

/// A word read as a two's-complement number.
pub open spec fn as_signed(w: u16) -> int {
    if w < 0x8000 {
        w as int
    } else {
        w - 0x1_0000
    }
}

/// The 32-bit two's-complement number that ACC (high) and EXT (low) hold.
pub open spec fn acc_ext_value(s: CpuView) -> int {
    let u = s.acc * 0x1_0000 + s.ext;
    if u < 0x8000_0000 {
        u
    } else {
        u - 0x1_0000_0000
    }
}

/// The effective address of a long instruction: its address plus the
/// selected index register.
pub open spec fn long_ea(s: CpuView, tag: u8, address: u16) -> int {
    indexed(address as int, s.xr(tag) as int)
}

/// The word a long memory-reference instruction reads: the one at the
/// effective address, or, when indirect, the one that word points to.
pub open spec fn long_operand(s: CpuView, m: Seq<u16>, tag: u8, indirect: bool, address: u16) -> u16 {
    let direct = cell(m, long_ea(s, tag, address));
    if indirect {
        cell(m, direct as int)
    } else {
        direct
    }
}

/// The address a long store-style instruction writes: the effective
/// address, or, when indirect, the address held there.
pub open spec fn long_target(s: CpuView, m: Seq<u16>, tag: u8, indirect: bool, address: u16) -> int {
    let ea = long_ea(s, tag, address);
    if indirect {
        cell(m, ea) as int
    } else {
        ea
    }
}

/// Every register but ACC, EXT, the index registers and IAR, and the
/// console, are the same in both states.
pub open spec fn same_flags_and_console(a: CpuView, b: CpuView) -> bool {
    &&& a.carry == b.carry
    &&& a.overflow == b.overflow
    &&& a.halted == b.halted
    &&& a.instr_count == b.instr_count
    &&& a.console == b.console
}

/// LD loads ACC with the operand and changes nothing else.
pub proof fn law_load(
    s: CpuView,
    m: Seq<u16>,
    tag: u8,
    indirect: bool,
    mask: u8,
    address: u16,
    next: Option<u16>,
)
    ensures
        ({
            let insn = Instruction::Long { op: Opcode::Load, tag, indirect, mask, address };
            let out = execute_spec(s, m, insn, next);
            &&& out.2 is Ok
            &&& out.1 == m
            &&& out.0 == CpuView { acc: long_operand(s, m, tag, indirect, address), ..s }
        }),
{
    reveal(execute_spec);
}

/// STO writes ACC to its target (through the pointer when indirect) and
/// changes no other word of memory and no register.
pub proof fn law_store(
    s: CpuView,
    m: Seq<u16>,
    tag: u8,
    indirect: bool,
    mask: u8,
    address: u16,
    next: Option<u16>,
)
    ensures
        ({
            let insn = Instruction::Long { op: Opcode::Store, tag, indirect, mask, address };
            let out = execute_spec(s, m, insn, next);
            let p = long_target(s, m, tag, indirect, address);
            &&& out.2 is Ok
            &&& out.0 == s
            &&& out.1.len() == m.len()
            &&& forall|i: int| 0 <= i < m.len() ==> #[trigger] out.1[i] == (if i == p {
                s.acc
            } else {
                m[i]
            })
        }),
{
    reveal(execute_spec);
}

/// An indirect STO followed by an indirect LD through the same pointer
/// gives ACC back, when the pointed-to word lies in memory and is not
/// the pointer itself.
pub proof fn law_indirect_store_then_load(
    s: CpuView,
    m: Seq<u16>,
    later: CpuView,
    tag: u8,
    address: u16,
    mask: u8,
    next: Option<u16>,
)
    requires
        later.xr(tag) == s.xr(tag),
        0 <= long_target(s, m, tag, true, address) < m.len(),
        long_target(s, m, tag, true, address) != long_ea(s, tag, address),
    ensures
        ({
            let store = Instruction::Long { op: Opcode::Store, tag, indirect: true, mask, address };
            let load = Instruction::Long { op: Opcode::Load, tag, indirect: true, mask, address };
            let after = execute_spec(s, m, store, next);
            execute_spec(later, after.1, load, next).0.acc == s.acc
        }),
{
    reveal(execute_spec);
}

/// A adds the operand to ACC modulo 2^16; carry becomes set when the
/// unsigned sum reaches 2^16 and overflow when the signed sum leaves the
/// 16-bit range; both stay set once set. Nothing else changes.
pub proof fn law_add(
    s: CpuView,
    m: Seq<u16>,
    tag: u8,
    indirect: bool,
    mask: u8,
    address: u16,
    next: Option<u16>,
)
    ensures
        ({
            let insn = Instruction::Long { op: Opcode::Add, tag, indirect, mask, address };
            let x = long_operand(s, m, tag, indirect, address);
            let out = execute_spec(s, m, insn, next);
            let carries = s.acc + x >= 0x1_0000;
            let sum = as_signed(s.acc) + as_signed(x);
            &&& out.2 is Ok
            &&& out.1 == m
            &&& out.0.acc as int == s.acc + x - (if carries {
                0x1_0000int
            } else {
                0int
            })
            &&& out.0.carry == (s.carry || carries)
            &&& out.0.overflow == (s.overflow || sum < -0x8000 || sum > 0x7FFF)
            &&& out.0 == CpuView {
                acc: out.0.acc,
                carry: out.0.carry,
                overflow: out.0.overflow,
                ..s
            }
        }),
{
    reveal(execute_spec);
}

/// S subtracts the operand from ACC modulo 2^16; carry becomes set when
/// the subtraction borrows, that is when the unsigned ACC is strictly
/// below the operand, and overflow when the signed difference leaves the
/// 16-bit range; both stay set once set. Nothing else changes.
pub proof fn law_subtract(
    s: CpuView,
    m: Seq<u16>,
    tag: u8,
    indirect: bool,
    mask: u8,
    address: u16,
    next: Option<u16>,
)
    ensures
        ({
            let insn = Instruction::Long { op: Opcode::Subtract, tag, indirect, mask, address };
            let x = long_operand(s, m, tag, indirect, address);
            let out = execute_spec(s, m, insn, next);
            let borrows = s.acc < x;
            let difference = as_signed(s.acc) - as_signed(x);
            &&& out.2 is Ok
            &&& out.1 == m
            &&& out.0.acc as int == s.acc - x + (if borrows {
                0x1_0000int
            } else {
                0int
            })
            &&& out.0.carry == (s.carry || borrows)
            &&& out.0.overflow == (s.overflow || difference < -0x8000 || difference > 0x7FFF)
            &&& out.0 == CpuView {
                acc: out.0.acc,
                carry: out.0.carry,
                overflow: out.0.overflow,
                ..s
            }
        }),
{
    reveal(execute_spec);
}

/// D by a zero word fails with `DivideByZero` and changes nothing.
pub proof fn law_divide_by_zero(
    s: CpuView,
    m: Seq<u16>,
    tag: u8,
    indirect: bool,
    mask: u8,
    address: u16,
    next: Option<u16>,
)
    requires
        long_operand(s, m, tag, indirect, address) == 0,
    ensures
        ({
            let insn = Instruction::Long { op: Opcode::Divide, tag, indirect, mask, address };
            execute_spec(s, m, insn, next) == (s, m, Err::<(), ExecError>(ExecError::DivideByZero))
        }),
{
    reveal(execute_spec);
}

/// D divides the 32-bit signed value of (ACC, EXT) by the signed operand
/// `d`: whenever `q` (fitting in 16 bits) and `r` satisfy
/// `d * q + r == (ACC, EXT)`, with `|r| < |d|` and `r` zero or of the
/// dividend's sign, ACC receives `q` and EXT receives `r`. Nothing else
/// changes.
pub proof fn law_divide(
    s: CpuView,
    m: Seq<u16>,
    tag: u8,
    indirect: bool,
    mask: u8,
    address: u16,
    next: Option<u16>,
    q: int,
    r: int,
)
    requires
        long_operand(s, m, tag, indirect, address) != 0,
        -0x8000 <= q <= 0x7FFF,
        as_signed(long_operand(s, m, tag, indirect, address)) * q + r == acc_ext_value(s),
        magnitude(r) < magnitude(as_signed(long_operand(s, m, tag, indirect, address))),
        r == 0 || (r < 0) == (acc_ext_value(s) < 0),
    ensures
        ({
            let insn = Instruction::Long { op: Opcode::Divide, tag, indirect, mask, address };
            let out = execute_spec(s, m, insn, next);
            &&& out.2 is Ok
            &&& out.1 == m
            &&& as_signed(out.0.acc) == q
            &&& as_signed(out.0.ext) == r
            &&& out.0 == CpuView { acc: out.0.acc, ext: out.0.ext, ..s }
        }),
{
    let insn = Instruction::Long { op: Opcode::Divide, tag, indirect, mask, address };
    let x = long_operand(s, m, tag, indirect, address);
    let d = as_signed(x);
    assert(operand_of(s, m, tag, address_of(s, insn), indirect) == x);
    assert(signed16(x) == d);
    assert(s.pair() == acc_ext_value(s));
    lemma_truncated_division_unique(acc_ext_value(s), d, q, r);
    assert(quotient(s.pair(), d) == q && remainder(s.pair(), d) == r);
    assert(-0x8000 <= r <= 0x7FFF);
    assert(as_signed(wrap16(q)) == q);
    assert(as_signed(wrap16(r)) == r);
    let expected = CpuView { acc: wrap16(q), ext: wrap16(r), ..s };
    assert(execute_spec(s, m, insn, next) == (expected, m, Ok::<(), ExecError>(()))) by {
        reveal(execute_spec);
    }
}

/// Each condition bit alone tests what the mask table says: 0x04 an even
/// ACC, 0x08 a positive ACC (zero is not positive), 0x10 a negative ACC,
/// 0x20 a zero ACC, 0x40 the carry indicator.
pub proof fn law_condition_bits(s: CpuView)
    ensures
        condition_holds(s, 0x04) == (s.acc % 2 == 0),
        condition_holds(s, 0x08) == (0 < s.acc < 0x8000),
        condition_holds(s, 0x10) == (s.acc >= 0x8000),
        condition_holds(s, 0x20) == (s.acc == 0),
        condition_holds(s, 0x40) == s.carry,
{
    assert(0x04u8 & 0x04 != 0 && 0x04u8 & 0x08 == 0 && 0x04u8 & 0x10 == 0 && 0x04u8 & 0x20 == 0
        && 0x04u8 & 0x40 == 0) by (bit_vector);
    assert(0x08u8 & 0x04 == 0 && 0x08u8 & 0x08 != 0 && 0x08u8 & 0x10 == 0 && 0x08u8 & 0x20 == 0
        && 0x08u8 & 0x40 == 0) by (bit_vector);
    assert(0x10u8 & 0x04 == 0 && 0x10u8 & 0x08 == 0 && 0x10u8 & 0x10 != 0 && 0x10u8 & 0x20 == 0
        && 0x10u8 & 0x40 == 0) by (bit_vector);
    assert(0x20u8 & 0x04 == 0 && 0x20u8 & 0x08 == 0 && 0x20u8 & 0x10 == 0 && 0x20u8 & 0x20 != 0
        && 0x20u8 & 0x40 == 0) by (bit_vector);
    assert(0x40u8 & 0x04 == 0 && 0x40u8 & 0x08 == 0 && 0x40u8 & 0x10 == 0 && 0x40u8 & 0x20 == 0
        && 0x40u8 & 0x40 != 0) by (bit_vector);
}

/// A short BSC skips the next instruction (of `n` words) exactly when the
/// condition of its displacement byte holds; it changes nothing else.
pub proof fn law_bsc_short(s: CpuView, m: Seq<u16>, tag: u8, disp: i8, n: u16)
    ensures
        ({
            let insn = Instruction::Short { op: Opcode::BranchSkipCondition, tag, disp };
            let out = execute_spec(s, m, insn, Some(n));
            let mask = (disp as int % 0x100) as u8;
            &&& out.2 is Ok
            &&& out.1 == m
            &&& out.0 == CpuView {
                iar: if condition_holds(s, mask) {
                    indexed(s.iar as int, n as int) as u16
                } else {
                    s.iar
                },
                ..s
            }
        }),
{
    reveal(execute_spec);
}

/// A long BSC jumps to its target exactly when its mask is 0 or the
/// condition of its mask holds; it changes nothing else.
pub proof fn law_bsc_long(
    s: CpuView,
    m: Seq<u16>,
    tag: u8,
    indirect: bool,
    mask: u8,
    address: u16,
    next: Option<u16>,
)
    ensures
        ({
            let insn = Instruction::Long { op: Opcode::BranchSkipCondition, tag, indirect, mask, address };
            let out = execute_spec(s, m, insn, next);
            &&& out.2 is Ok
            &&& out.1 == m
            &&& out.0 == CpuView {
                iar: if mask == 0 || condition_holds(s, mask) {
                    long_target(s, m, tag, indirect, address) as u16
                } else {
                    s.iar
                },
                ..s
            }
        }),
{
    reveal(execute_spec);
}

/// A long BSI calls exactly when its mask is 0 or the condition of its
/// mask holds: the return address (IAR) goes into the target word and IAR
/// becomes the word after it. Otherwise nothing changes.
pub proof fn law_bsi_long(
    s: CpuView,
    m: Seq<u16>,
    tag: u8,
    indirect: bool,
    mask: u8,
    address: u16,
    next: Option<u16>,
)
    ensures
        ({
            let insn = Instruction::Long { op: Opcode::BranchStore, tag, indirect, mask, address };
            let out = execute_spec(s, m, insn, next);
            let t = long_target(s, m, tag, indirect, address);
            let taken = mask == 0 || condition_holds(s, mask);
            &&& out.2 is Ok
            &&& out.1.len() == m.len()
            &&& forall|i: int| 0 <= i < m.len() ==> #[trigger] out.1[i] == (if taken && i == t {
                s.iar
            } else {
                m[i]
            })
            &&& out.0 == CpuView {
                iar: if taken {
                    indexed(t, 1) as u16
                } else {
                    s.iar
                },
                ..s
            }
        }),
{
    reveal(execute_spec);
}

/// A long MDX with tag 1..=3 puts its address (or, when indirect, the word
/// at its address) into the selected index register, whatever it held,
/// and skips the next instruction (of `n` words) exactly when that value
/// is zero. No other register or word changes.
pub proof fn law_mdx_long(
    s: CpuView,
    m: Seq<u16>,
    tag: u8,
    indirect: bool,
    mask: u8,
    address: u16,
    n: u16,
)
    requires
        1 <= tag <= 3,
    ensures
        ({
            let insn = Instruction::Long { op: Opcode::ModifyIndex, tag, indirect, mask, address };
            let out = execute_spec(s, m, insn, Some(n));
            let v = if indirect {
                cell(m, address as int)
            } else {
                address
            };
            &&& out.2 is Ok
            &&& out.1 == m
            &&& out.0.xr(tag) == v
            &&& forall|t: u8| t != tag ==> #[trigger] out.0.xr(t) == s.xr(t)
            &&& out.0.iar == (if v == 0 {
                indexed(s.iar as int, n as int) as u16
            } else {
                s.iar
            })
            &&& out.0.acc == s.acc && out.0.ext == s.ext
            &&& same_flags_and_console(out.0, s)
        }),
{
    reveal(execute_spec);
}

/// A short MDX with tag 1..=3 adds its signed displacement to the selected
/// index register modulo 2^16, and skips the next instruction (of `n`
/// words) exactly when the result is zero. No other register or word
/// changes.
pub proof fn law_mdx_short(s: CpuView, m: Seq<u16>, tag: u8, disp: i8, n: u16)
    requires
        1 <= tag <= 3,
    ensures
        ({
            let insn = Instruction::Short { op: Opcode::ModifyIndex, tag, disp };
            let out = execute_spec(s, m, insn, Some(n));
            let v = indexed(s.xr(tag) as int, disp as int) as u16;
            &&& out.2 is Ok
            &&& out.1 == m
            &&& out.0.xr(tag) == v
            &&& forall|t: u8| t != tag ==> #[trigger] out.0.xr(t) == s.xr(t)
            &&& out.0.iar == (if v == 0 {
                indexed(s.iar as int, n as int) as u16
            } else {
                s.iar
            })
            &&& out.0.acc == s.acc && out.0.ext == s.ext
            &&& same_flags_and_console(out.0, s)
        }),
{
    reveal(execute_spec);
}

/// A short LD reads the word at IAR (already past the instruction) plus
/// the signed displacement plus the selected index register.
pub proof fn law_load_short(s: CpuView, m: Seq<u16>, tag: u8, disp: i8, next: Option<u16>)
    ensures
        ({
            let insn = Instruction::Short { op: Opcode::Load, tag, disp };
            let out = execute_spec(s, m, insn, next);
            let ea = indexed(indexed(s.iar as int, disp as int), s.xr(tag) as int);
            &&& out.2 is Ok
            &&& out.1 == m
            &&& out.0 == CpuView { acc: cell(m, ea), ..s }
        }),
{
    reveal(execute_spec);
    let a = indexed(s.iar as int, disp as int);
    assert(wrap16(s.iar + disp) as int == a);
}

/// LDD loads ACC from the target word and EXT from the word after it.
pub proof fn law_load_double(
    s: CpuView,
    m: Seq<u16>,
    tag: u8,
    indirect: bool,
    mask: u8,
    address: u16,
    next: Option<u16>,
)
    ensures
        ({
            let insn = Instruction::Long { op: Opcode::LoadDouble, tag, indirect, mask, address };
            let out = execute_spec(s, m, insn, next);
            let t = long_target(s, m, tag, indirect, address);
            &&& out.2 is Ok
            &&& out.1 == m
            &&& out.0 == CpuView { acc: cell(m, t), ext: cell(m, indexed(t, 1)), ..s }
        }),
{
    reveal(execute_spec);
}

/// STD writes ACC to the target word and EXT to the word after it, and
/// changes no other word and no register.
pub proof fn law_store_double(
    s: CpuView,
    m: Seq<u16>,
    tag: u8,
    indirect: bool,
    mask: u8,
    address: u16,
    next: Option<u16>,
)
    ensures
        ({
            let insn = Instruction::Long { op: Opcode::StoreDouble, tag, indirect, mask, address };
            let out = execute_spec(s, m, insn, next);
            let t = long_target(s, m, tag, indirect, address);
            &&& out.2 is Ok
            &&& out.0 == s
            &&& out.1.len() == m.len()
            &&& forall|i: int| 0 <= i < m.len() ==> #[trigger] out.1[i] == (if i == indexed(t, 1) {
                s.ext
            } else if i == t {
                s.acc
            } else {
                m[i]
            })
        }),
{
    reveal(execute_spec);
}

/// LDX with tag 1..=3 loads the selected index register from the word at
/// the address field (not indexed, not indirect); nothing else changes.
pub proof fn law_load_index(
    s: CpuView,
    m: Seq<u16>,
    tag: u8,
    indirect: bool,
    mask: u8,
    address: u16,
    next: Option<u16>,
)
    requires
        1 <= tag <= 3,
    ensures
        ({
            let insn = Instruction::Long { op: Opcode::LoadIndex, tag, indirect, mask, address };
            let out = execute_spec(s, m, insn, next);
            &&& out.2 is Ok
            &&& out.1 == m
            &&& out.0.xr(tag) == cell(m, address as int)
            &&& forall|t: u8| t != tag ==> #[trigger] out.0.xr(t) == s.xr(t)
            &&& out.0.acc == s.acc && out.0.ext == s.ext && out.0.iar == s.iar
            &&& same_flags_and_console(out.0, s)
        }),
{
    reveal(execute_spec);
}

/// STX writes the selected index register to the address field (or, when
/// indirect, to the address held there), not indexed; nothing else
/// changes.
pub proof fn law_store_index(
    s: CpuView,
    m: Seq<u16>,
    tag: u8,
    indirect: bool,
    mask: u8,
    address: u16,
    next: Option<u16>,
)
    ensures
        ({
            let insn = Instruction::Long { op: Opcode::StoreIndex, tag, indirect, mask, address };
            let out = execute_spec(s, m, insn, next);
            let t = if indirect {
                cell(m, address as int) as int
            } else {
                address as int
            };
            &&& out.2 is Ok
            &&& out.0 == s
            &&& out.1.len() == m.len()
            &&& forall|i: int| 0 <= i < m.len() ==> #[trigger] out.1[i] == (if i == t {
                s.xr(tag)
            } else {
                m[i]
            })
        }),
{
    let insn = Instruction::Long { op: Opcode::StoreIndex, tag, indirect, mask, address };
    assert(ea_of(s, 0, address) == address);
    let dest = destination_of(s, m, 0, address, indirect);
    assert(execute_spec(s, m, insn, next) == (s, store_word(m, dest, s.xr(tag)), Ok::<
        (),
        ExecError,
    >(()))) by {
        reveal(execute_spec);
    }
}

/// AD and SD add to or subtract from the 32-bit (ACC, EXT) value the
/// 32-bit value of the target word (high) and the word after it (low),
/// modulo 2^32; nothing else changes.
pub proof fn law_double_add_subtract(
    s: CpuView,
    m: Seq<u16>,
    tag: u8,
    indirect: bool,
    mask: u8,
    address: u16,
    next: Option<u16>,
)
    ensures
        ({
            let add = Instruction::Long { op: Opcode::AddDouble, tag, indirect, mask, address };
            let sub = Instruction::Long { op: Opcode::SubtractDouble, tag, indirect, mask, address };
            let t = long_target(s, m, tag, indirect, address);
            let y = acc_ext_value(CpuView { acc: cell(m, t), ext: cell(m, indexed(t, 1)), ..s });
            let a = execute_spec(s, m, add, next);
            let b = execute_spec(s, m, sub, next);
            &&& a.2 is Ok && a.1 == m
            &&& (acc_ext_value(a.0) - (acc_ext_value(s) + y)) % 0x1_0000_0000 == 0
            &&& a.0 == CpuView { acc: a.0.acc, ext: a.0.ext, ..s }
            &&& b.2 is Ok && b.1 == m
            &&& (acc_ext_value(b.0) - (acc_ext_value(s) - y)) % 0x1_0000_0000 == 0
            &&& b.0 == CpuView { acc: b.0.acc, ext: b.0.ext, ..s }
        }),
{
    reveal(execute_spec);
    let t = long_target(s, m, tag, indirect, address);
    let y = acc_ext_value(CpuView { acc: cell(m, t), ext: cell(m, indexed(t, 1)), ..s });
    lemma_pair_words(acc_ext_value(s) + y);
    lemma_pair_words(acc_ext_value(s) - y);
}

/// The 32-bit value that the words of `v` (modulo 2^32) make is `v`
/// modulo 2^32.
proof fn lemma_pair_words(v: int)
    ensures
        (acc_ext_value(CpuView::reset().with_pair(v)) - v) % 0x1_0000_0000 == 0,
        forall|s: CpuView| #[trigger] acc_ext_value(s.with_pair(v)) == acc_ext_value(
            CpuView::reset().with_pair(v),
        ),
{
    let u = v % 0x1_0000_0000;
    let hi = u / 0x1_0000;
    let lo = v % 0x1_0000;
    assert(u % 0x1_0000 == lo) by {
        lemma_fundamental_div_mod(v, 0x1_0000_0000);
        let k = v / 0x1_0000_0000;
        assert(v == 0x1_0000 * (0x1_0000 * k) + u) by (nonlinear_arith)
            requires
                v == 0x1_0000_0000 * k + u,
        ;
        lemma_mod_multiples_vanish(0x1_0000 * k, u, 0x1_0000);
    }
    lemma_fundamental_div_mod(u, 0x1_0000);
    lemma_fundamental_div_mod(v, 0x1_0000_0000);
    assert(hi * 0x1_0000 + lo == u);
}

/// M puts the exact signed product of ACC and the operand in (ACC, EXT).
pub proof fn law_multiply(
    s: CpuView,
    m: Seq<u16>,
    tag: u8,
    indirect: bool,
    mask: u8,
    address: u16,
    next: Option<u16>,
)
    ensures
        ({
            let insn = Instruction::Long { op: Opcode::Multiply, tag, indirect, mask, address };
            let out = execute_spec(s, m, insn, next);
            let x = long_operand(s, m, tag, indirect, address);
            &&& out.2 is Ok
            &&& out.1 == m
            &&& acc_ext_value(out.0) == as_signed(s.acc) * as_signed(x)
            &&& out.0 == CpuView { acc: out.0.acc, ext: out.0.ext, ..s }
        }),
{
    let insn = Instruction::Long { op: Opcode::Multiply, tag, indirect, mask, address };
    law_multiply_exact(s, m, insn, next);
    reveal(execute_spec);
    let out = execute_spec(s, m, insn, next);
    assert(out.0.pair() == acc_ext_value(out.0));
}

/// AND, OR and EOR combine ACC with the operand bit by bit.
pub proof fn law_logic(
    s: CpuView,
    m: Seq<u16>,
    tag: u8,
    indirect: bool,
    mask: u8,
    address: u16,
    next: Option<u16>,
)
    ensures
        ({
            let x = long_operand(s, m, tag, indirect, address);
            let and = Instruction::Long { op: Opcode::And, tag, indirect, mask, address };
            let or = Instruction::Long { op: Opcode::Or, tag, indirect, mask, address };
            let xor = Instruction::Long { op: Opcode::ExclusiveOr, tag, indirect, mask, address };
            &&& execute_spec(s, m, and, next) == (CpuView { acc: s.acc & x, ..s }, m, Ok::<
                (),
                ExecError,
            >(()))
            &&& execute_spec(s, m, or, next) == (CpuView { acc: s.acc | x, ..s }, m, Ok::<
                (),
                ExecError,
            >(()))
            &&& execute_spec(s, m, xor, next) == (CpuView { acc: s.acc ^ x, ..s }, m, Ok::<
                (),
                ExecError,
            >(()))
        }),
{
    reveal(execute_spec);
}

/// A short SLA multiplies ACC by 2^k modulo 2^16, and a short SRA divides
/// the signed ACC by 2^k rounding down, where k is the displacement
/// modulo 16. The long forms carry no count and change nothing.
pub proof fn law_shifts(
    s: CpuView,
    m: Seq<u16>,
    tag: u8,
    disp: i8,
    long_mask: u8,
    long_address: u16,
    next: Option<u16>,
)
    ensures
        ({
            let k = (disp as int % 16) as nat;
            let left = execute_spec(s, m, Instruction::Short { op: Opcode::ShiftLeft, tag, disp }, next);
            let right = execute_spec(s, m, Instruction::Short { op: Opcode::ShiftRight, tag, disp }, next);
            &&& left.2 is Ok && left.1 == m
            &&& left.0 == CpuView { acc: ((s.acc * pow2(k)) % 0x1_0000) as u16, ..s }
            &&& right.2 is Ok && right.1 == m
            &&& as_signed(right.0.acc) == as_signed(s.acc) / (pow2(k) as int)
            &&& right.0 == CpuView { acc: right.0.acc, ..s }
        }),
        execute_spec(
            s,
            m,
            Instruction::Long {
                op: Opcode::ShiftLeft,
                tag,
                indirect: false,
                mask: long_mask,
                address: long_address,
            },
            next,
        ) == (s, m, Ok::<(), ExecError>(())),
{
    let k = (disp as int % 16) as nat;
    assert(shift_places(disp as int) == k);
    let sl = Instruction::Short { op: Opcode::ShiftLeft, tag, disp };
    let sr = Instruction::Short { op: Opcode::ShiftRight, tag, disp };
    let ll = Instruction::Long {
        op: Opcode::ShiftLeft,
        tag,
        indirect: false,
        mask: long_mask,
        address: long_address,
    };
    assert(execute_spec(s, m, sl, next) == (CpuView {
        acc: wrap16(s.acc * pow2(shift_places(disp as int)) as int),
        ..s
    }, m, Ok::<(), ExecError>(()))) by {
        reveal(execute_spec);
    }
    assert(execute_spec(s, m, sr, next) == (CpuView {
        acc: wrap16(signed16(s.acc) / (pow2(shift_places(disp as int)) as int)),
        ..s
    }, m, Ok::<(), ExecError>(()))) by {
        reveal(execute_spec);
    }
    assert(execute_spec(s, m, ll, next) == (CpuView {
        acc: wrap16(s.acc * pow2(shift_places(0)) as int),
        ..s
    }, m, Ok::<(), ExecError>(()))) by {
        reveal(execute_spec);
    }
    lemma_pow2_pos(k);
    lemma_pow2_strictly_increases(k, 16);
    assert(pow2(16) == 0x1_0000 && pow2(0) == 1) by {
        lemma2_to64();
    }
    assert(shift_places(0) == 0);
    assert(wrap16(s.acc * 1) == s.acc);
    let q = as_signed(s.acc) / (pow2(k) as int);
    assert(-0x8000 <= q <= 0x7FFF) by {
        lemma_div_bounds(as_signed(s.acc), pow2(k) as int);
    }
    assert(signed16(s.acc) == as_signed(s.acc));
    assert(as_signed(wrap16(q)) == q);
}

proof fn lemma_div_bounds(x: int, p: int)
    requires
        -0x8000 <= x <= 0x7FFF,
        p >= 1,
    ensures
        -0x8000 <= x / p <= 0x7FFF,
{
    lemma_fundamental_div_mod(x, p);
    lemma_mod_bound(x, p);
    assert(-0x8000 <= x / p <= 0x7FFF) by (nonlinear_arith)
        requires
            x == p * (x / p) + x % p,
            0 <= x % p < p,
            -0x8000 <= x <= 0x7FFF,
            p >= 1,
    ;
}

/// WAIT halts the CPU and changes nothing else; LDS and STS change
/// nothing.
pub proof fn law_wait_and_status(
    s: CpuView,
    m: Seq<u16>,
    insn: Instruction,
    next: Option<u16>,
)
    ensures
        insn.op() == Opcode::Wait ==> execute_spec(s, m, insn, next) == (CpuView {
            halted: true,
            ..s
        }, m, Ok::<(), ExecError>(())),
        insn.op() == Opcode::LoadStatus || insn.op() == Opcode::StoreStatus ==> execute_spec(
            s,
            m,
            insn,
            next,
        ) == (s, m, Ok::<(), ExecError>(())),
{
    reveal(execute_spec);
}

/// XIO reads a two-word command at its target: when the second word's
/// high byte names area 1 (bits 3..7) and function 0 (bits 0..2), it types
/// the low byte of the word that the first word addresses; otherwise it
/// does nothing.
pub proof fn law_xio(
    s: CpuView,
    m: Seq<u16>,
    tag: u8,
    indirect: bool,
    mask: u8,
    address: u16,
    next: Option<u16>,
)
    ensures
        ({
            let insn = Instruction::Long { op: Opcode::ExecuteInputOutput, tag, indirect, mask, address };
            let out = execute_spec(s, m, insn, next);
            let t = long_target(s, m, tag, indirect, address);
            let control = cell(m, indexed(t, 1));
            let console_write = control / 0x800 == 1 && (control / 0x100) % 8 == 0;
            let data = cell(m, cell(m, t) as int);
            &&& out.2 is Ok
            &&& out.1 == m
            &&& out.0 == (if console_write {
                CpuView { console: s.console.push((data % 0x100) as u8), ..s }
            } else {
                s
            })
        }),
{
    reveal(execute_spec);
}

} // verus!
