//! Instruction execution: one `step()` per instruction.
//!
//! BSC / BSI condition mask semantics:
//!
//! ```text
//! mask bit | meaning when set
//! ---------+-----------------------------------------------------
//! 0x04     | E   -- ACC even (low bit clear)
//! 0x08     | +   -- ACC > 0
//! 0x10     | -   -- ACC < 0 (two's-complement)
//! 0x20     | Z   -- ACC == 0
//! 0x40     | C   -- carry indicator set
//! ```
//!
//! Bits 0x01, 0x02, and 0x80 are unused. The bit assignments follow the
//! constants of Moore's FORTH listing (`:EVEN 04`, `:POSITIVE 8`,
//! `:NEGATIVE 10`, `:EQUAL 20`).
//!
//! **BSC short** (`BSC mask`): tests the displacement byte as the mask.
//! If any masked condition matches, **skip** the next instruction
//! (advance IAR by that instruction's word size). Mask = 0 means no
//! condition tested -> never skip.
//!
//! **BSC long** (`BSC L target [, mask]`): branches to `target` if
//! `mask == 0` (the "always" case) or if any masked condition holds.
//! Otherwise falls through.
//!
//! **BSI long** (`BSI L target [, mask]`): same condition logic as BSC
//! long, but on "take" performs a subroutine call (writes IAR into
//! target, sets IAR = target+1).
//!
//! ACC sign is tested in **two's-complement** terms.
//!
//! Decoding is not done here: `step` and `run` take the decoder as a
//! function from the four bytes at an address to the instruction there
//! and the number of bytes it occupies, and `execute` runs an
//! instruction that has already been decoded.
use vstd::prelude::*;
use vstd::arithmetic::power2::pow2;
use crate::insn::{Instruction, Opcode};
use crate::memory::{Memory, decoded_in_words, decodes, fetch_image, store_word, word_at};
use crate::state::{CpuState, CpuView};
use crate::word::{
    add_words, divide_truncating, fits_i16, i16_as_word, join_pair, lemma_i16_shr, lemma_u16_shl,
    lemma_wrap16_add, lemma_words_wrap, overflowing_add_words, overflowing_sub_words, pair_value, quotient,
    remainder, shift_places, signed16, truncate_to_word, word_as_i16, wrap16,
};

pub mod area;
pub mod func;

verus! {

/// Errors a step can produce.
#[derive(Debug, Clone, PartialEq, Eq)]
pub enum ExecError {
    Halted,
    /// The decoder refused the word(s) at IAR; the text describes why.
    Decode(String),
    Unsupported(Opcode),
    DivideByZero,
}

// ---------------------------------------------------------------------
// The meaning of an instruction, over the model of state and memory.
// ---------------------------------------------------------------------

/// `base` plus the index register that `tag` selects, modulo 2^16.
pub open spec fn ea_of(s: CpuView, tag: u8, base: u16) -> u16 {
    wrap16(base + s.xr(tag))
}

/// The operand of a memory-reference op: the word at the effective
/// address, or, with indirection, the word at the address stored there.
pub open spec fn operand_of(s: CpuView, m: Seq<u16>, tag: u8, address: u16, indirect: bool) -> u16 {
    let direct = word_at(m, ea_of(s, tag, address));
    if indirect {
        word_at(m, direct)
    } else {
        direct
    }
}

/// The address a store-style op modifies: the effective address, or,
/// with indirection, the address stored there.
pub open spec fn destination_of(
    s: CpuView,
    m: Seq<u16>,
    tag: u8,
    address: u16,
    indirect: bool,
) -> u16 {
    let ea = ea_of(s, tag, address);
    if indirect {
        word_at(m, ea)
    } else {
        ea
    }
}

/// True when `mask` tests some condition that holds (see the table in
/// the module documentation); a zero mask tests nothing.
pub open spec fn condition_holds(s: CpuView, mask: u8) -> bool {
    mask != 0 && ((mask & 0x04 != 0 && s.acc % 2 == 0) || (mask & 0x08 != 0 && signed16(s.acc)
        > 0) || (mask & 0x10 != 0 && signed16(s.acc) < 0) || (mask & 0x20 != 0 && s.acc == 0) || (
    mask & 0x40 != 0 && s.carry))
}

/// The byte with the same bits as a signed displacement.
pub open spec fn byte_of(disp: i8) -> u8 {
    ((disp as int) % 0x100) as u8
}

/// The address operand of an instruction once IAR has moved past it:
/// IAR plus the displacement for the short form, the address field for
/// the long form.
pub open spec fn address_of(s: CpuView, insn: Instruction) -> u16 {
    match insn {
        Instruction::Short { disp, .. } => wrap16(s.iar + disp),
        Instruction::Long { address, .. } => address,
    }
}

/// The signed 32-bit value of the two words at `ea` and `ea + 1`.
pub open spec fn double_at(m: Seq<u16>, ea: u16) -> int {
    pair_value(word_at(m, ea), word_at(m, wrap16(ea + 1)))
}

/// ACC after adding `x`; carry and overflow are sticky: set on a carry
/// out of 16 bits or a signed overflow, otherwise left as they were.
pub open spec fn add_result(s: CpuView, x: u16) -> CpuView {
    CpuView {
        acc: wrap16(s.acc + x),
        carry: s.carry || s.acc + x > 0xFFFF,
        overflow: s.overflow || !fits_i16(signed16(s.acc) + signed16(x)),
        ..s
    }
}

/// ACC after subtracting `x`; carry records a borrow and overflow a
/// signed overflow, both sticky.
pub open spec fn sub_result(s: CpuView, x: u16) -> CpuView {
    CpuView {
        acc: wrap16(s.acc - x),
        carry: s.carry || s.acc < x,
        overflow: s.overflow || !fits_i16(signed16(s.acc) - signed16(x)),
        ..s
    }
}

/// The one input on which a divide has no result: a dividend of -2^31
/// with a divisor of -1.
pub open spec fn divide_overflows(s: CpuView, m: Seq<u16>, insn: Instruction) -> bool {
    insn.op() == Opcode::Divide && signed16(
        operand_of(s, m, insn.tag(), address_of(s, insn), insn.indirect()),
    ) == -1 && s.pair() == -0x8000_0000
}

/// IAR after a BSC. Long form: IAR becomes the destination when the mask
/// is 0 or a masked condition holds. Short form: when a condition of the
/// displacement byte holds and the next instruction decodes, IAR skips it.
pub open spec fn bsc_result(s: CpuView, m: Seq<u16>, insn: Instruction, next: Option<u16>) -> CpuView {
    if insn.is_long() {
        let mask = insn.long_mask();
        if mask == 0 || condition_holds(s, mask) {
            CpuView {
                iar: destination_of(s, m, insn.tag(), address_of(s, insn), insn.indirect()),
                ..s
            }
        } else {
            s
        }
    } else {
        if condition_holds(s, byte_of(insn.short_disp())) && next is Some {
            CpuView { iar: wrap16(s.iar + next->0), ..s }
        } else {
            s
        }
    }
}

/// The value an MDX computes: long form, the address (or the word there,
/// with indirection); short form, the selected index register plus the
/// displacement.
pub open spec fn mdx_value(s: CpuView, m: Seq<u16>, insn: Instruction) -> u16 {
    if insn.is_long() {
        if insn.indirect() {
            word_at(m, address_of(s, insn))
        } else {
            address_of(s, insn)
        }
    } else {
        wrap16(s.xr(insn.tag()) + insn.short_disp())
    }
}

/// The state after an MDX: the selected index register takes the value,
/// and when the value is zero and the next instruction decodes, IAR
/// skips it.
pub open spec fn mdx_result(s: CpuView, m: Seq<u16>, insn: Instruction, next: Option<u16>) -> CpuView {
    let v = mdx_value(s, m, insn);
    let s1 = s.with_xr(insn.tag(), v);
    if v == 0 && next is Some {
        CpuView { iar: wrap16(s1.iar + next->0), ..s1 }
    } else {
        s1
    }
}

/// The state after an XIO whose IOCC sits at `iocc`: a console write
/// (area 1, function 0 in the high byte of the IOCC's second word) types
/// the low byte of the word that the IOCC's first word addresses; every
/// other command changes nothing.
pub open spec fn xio_result(s: CpuView, m: Seq<u16>, iocc: u16) -> CpuView {
    let data_addr = word_at(m, iocc);
    let control = word_at(m, wrap16(iocc + 1));
    let high = control / 0x100;
    let area = (high / 8) % 32;
    let function = high % 8;
    if area == area::CONSOLE && function == func::WRITE {
        CpuView { console: s.console.push((word_at(m, data_addr) % 0x100) as u8), ..s }
    } else {
        s
    }
}

/// The state, memory and result after executing `insn` from state `s`
/// (IAR already past the instruction) and memory `m`. `next` is the word
/// size of the instruction at IAR, or `None` when it does not decode;
/// only the skips of BSC and MDX use it. The definition is opaque: reveal
/// it to reason about particular instructions.
#[verifier::opaque]
pub open spec fn execute_spec(s: CpuView, m: Seq<u16>, insn: Instruction, next: Option<u16>) -> (
    CpuView,
    Seq<u16>,
    Result<(), ExecError>,
) {
    let tag = insn.tag();
    let ind = insn.indirect();
    let a = address_of(s, insn);
    let x = operand_of(s, m, tag, a, ind);
    let dest = destination_of(s, m, tag, a, ind);
    match insn.op() {
        Opcode::Load => (CpuView { acc: x, ..s }, m, Ok(())),
        Opcode::LoadDouble => (
            CpuView { acc: word_at(m, dest), ext: word_at(m, wrap16(dest + 1)), ..s },
            m,
            Ok(()),
        ),
        Opcode::Store => (s, store_word(m, dest, s.acc), Ok(())),
        Opcode::StoreDouble => (
            s,
            store_word(store_word(m, dest, s.acc), wrap16(dest + 1), s.ext),
            Ok(()),
        ),
        Opcode::LoadIndex => (s.with_xr(tag, word_at(m, a)), m, Ok(())),
        Opcode::StoreIndex => (s, store_word(m, destination_of(s, m, 0, a, ind), s.xr(tag)), Ok(())),
        Opcode::LoadStatus => (s, m, Ok(())),
        Opcode::StoreStatus => (s, m, Ok(())),
        Opcode::Add => (add_result(s, x), m, Ok(())),
        Opcode::AddDouble => (s.with_pair(s.pair() + double_at(m, dest)), m, Ok(())),
        Opcode::Subtract => (sub_result(s, x), m, Ok(())),
        Opcode::SubtractDouble => (s.with_pair(s.pair() - double_at(m, dest)), m, Ok(())),
        Opcode::Multiply => (s.with_pair(signed16(s.acc) * signed16(x)), m, Ok(())),
        Opcode::Divide => {
            let d = signed16(x);
            if d == 0 {
                (s, m, Err(ExecError::DivideByZero))
            } else {
                (
                    CpuView {
                        acc: wrap16(quotient(s.pair(), d)),
                        ext: wrap16(remainder(s.pair(), d)),
                        ..s
                    },
                    m,
                    Ok(()),
                )
            }
        },
        Opcode::And => (CpuView { acc: s.acc & x, ..s }, m, Ok(())),
        Opcode::Or => (CpuView { acc: s.acc | x, ..s }, m, Ok(())),
        Opcode::ExclusiveOr => (CpuView { acc: s.acc ^ x, ..s }, m, Ok(())),
        Opcode::ShiftLeft => (
            CpuView {
                acc: wrap16(s.acc * pow2(shift_places(insn.short_disp() as int)) as int),
                ..s
            },
            m,
            Ok(()),
        ),
        Opcode::ShiftRight => (
            CpuView {
                acc: wrap16(
                    signed16(s.acc) / (pow2(shift_places(insn.short_disp() as int)) as int),
                ),
                ..s
            },
            m,
            Ok(()),
        ),
        Opcode::BranchSkipCondition => (bsc_result(s, m, insn, next), m, Ok(())),
        Opcode::BranchStore => {
            let mask = insn.long_mask();
            if mask == 0 || condition_holds(s, mask) {
                (CpuView { iar: wrap16(dest + 1), ..s }, store_word(m, dest, s.iar), Ok(()))
            } else {
                (s, m, Ok(()))
            }
        },
        Opcode::ModifyIndex => (mdx_result(s, m, insn, next), m, Ok(())),
        Opcode::Wait => (CpuView { halted: true, ..s }, m, Ok(())),
        Opcode::ExecuteInputOutput => (xio_result(s, m, dest), m, Ok(())),
    }
}

// ---------------------------------------------------------------------
// Execution.
// ---------------------------------------------------------------------

fn effective_address(state: &CpuState, tag: u8, base: u16) -> (a: u16)
    ensures
        a == ea_of(state@, tag, base),
{
    add_words(base, state.read_xr(tag))
}

/// Operand for memory-reference ops: word at the effective address, with
/// optional indirection (long form only).
fn fetch_operand(state: &CpuState, mem: &Memory, tag: u8, address: u16, indirect: bool) -> (w: u16)
    ensures
        w == operand_of(state@, mem@, tag, address, indirect),
{
    let ea = effective_address(state, tag, address);
    let direct = mem.read_word(ea);
    if indirect {
        mem.read_word(direct)
    } else {
        direct
    }
}

/// Address used as a *destination* by store-style ops: after
/// indirection, this is the word that is modified.
fn destination_address(
    state: &CpuState,
    mem: &Memory,
    tag: u8,
    address: u16,
    indirect: bool,
) -> (a: u16)
    ensures
        a == destination_of(state@, mem@, tag, address, indirect),
{
    let ea = effective_address(state, tag, address);
    if indirect {
        mem.read_word(ea)
    } else {
        ea
    }
}

fn condition_matches(state: &CpuState, mask: u8) -> (b: bool)
    ensures
        b == condition_holds(state@, mask),
{
    if mask == 0 {
        return false;
    }
    let acc = word_as_i16(state.acc);
    let w = state.acc;
    assert(((acc & 1) == 0) == (w % 2 == 0)) by (bit_vector)
        requires
            acc == w as i16,
    ;
    if mask & 0x04 != 0 && (acc & 1) == 0 {
        return true;  // E
    }
    if mask & 0x08 != 0 && acc > 0 {
        return true;  // +
    }
    if mask & 0x10 != 0 && acc < 0 {
        return true;  // -
    }
    if mask & 0x20 != 0 && acc == 0 {
        return true;  // Z
    }
    if mask & 0x40 != 0 && state.carry {
        return true;  // C
    }
    false
}

fn add_to_acc(state: &mut CpuState, operand: u16)
    ensures
        final(state)@ == add_result(old(state)@, operand),
{
    let (result, carry) = overflowing_add_words(state.acc, operand);
    let signed_overflow = word_as_i16(state.acc).checked_add(word_as_i16(operand)).is_none();
    state.acc = result;
    if carry {
        state.carry = true;
    }
    if signed_overflow {
        state.overflow = true;
    }
}

fn subtract_from_acc(state: &mut CpuState, operand: u16)
    ensures
        final(state)@ == sub_result(old(state)@, operand),
{
    let (result, borrow) = overflowing_sub_words(state.acc, operand);
    let signed_overflow = word_as_i16(state.acc).checked_sub(word_as_i16(operand)).is_none();
    state.acc = result;
    if borrow {
        state.carry = true;
    }
    if signed_overflow {
        state.overflow = true;
    }
}

/// The 32-bit operand of AD / SD: the words at `ea` (high) and `ea + 1`.
fn fetch_double(mem: &Memory, ea: u16) -> (v: i32)
    ensures
        v as int == double_at(mem@, ea),
{
    let hi = mem.read_word(ea);
    let lo = mem.read_word(add_words(ea, 1));
    join_pair(hi, lo)
}

fn add_double(state: &mut CpuState, operand: i32)
    ensures
        final(state)@ == old(state)@.with_pair(old(state)@.pair() + operand),
{
    let pair = state.read_pair();
    let sum = pair.wrapping_add(operand);
    proof {
        lemma_words_wrap(pair + operand, sum as int);
    }
    state.write_pair(sum);
}

fn subtract_double(state: &mut CpuState, operand: i32)
    ensures
        final(state)@ == old(state)@.with_pair(old(state)@.pair() - operand),
{
    let pair = state.read_pair();
    let difference = pair.wrapping_sub(operand);
    proof {
        lemma_words_wrap(pair - operand, difference as int);
    }
    state.write_pair(difference);
}

fn multiply(state: &mut CpuState, operand: u16)
    ensures
        final(state)@ == old(state)@.with_pair(signed16(old(state)@.acc) * signed16(operand)),
{
    let x = word_as_i16(operand) as i32;
    let acc = word_as_i16(state.acc) as i32;
    assert(-0x4000_0000 <= acc * x <= 0x4000_0000) by (nonlinear_arith)
        requires
            -0x8000 <= acc <= 0x7FFF,
            -0x8000 <= x <= 0x7FFF,
    ;
    let product = acc * x;
    state.write_pair(product);
}

fn divide(state: &mut CpuState, operand: u16) -> (r: Result<(), ExecError>)
    requires
        !(signed16(operand) == -1 && old(state)@.pair() == -0x8000_0000),
    ensures
        signed16(operand) == 0 ==> r == Err::<(), ExecError>(ExecError::DivideByZero)
            && final(state)@ == old(state)@,
        signed16(operand) != 0 ==> r == Ok::<(), ExecError>(()) && final(state)@ == (CpuView {
            acc: wrap16(quotient(old(state)@.pair(), signed16(operand))),
            ext: wrap16(remainder(old(state)@.pair(), signed16(operand))),
            ..old(state)@
        }),
{
    let divisor = word_as_i16(operand) as i32;
    if divisor == 0 {
        return Err(ExecError::DivideByZero);
    }
    let dividend = state.read_pair();
    let (q, rem) = divide_truncating(dividend, divisor);
    state.acc = truncate_to_word(q);
    state.ext = truncate_to_word(rem);
    Ok(())
}

/// The shift count of SLA / SRA: the low 6 bits of the displacement byte.
fn shift_count(insn: &Instruction) -> (c: u32)
    ensures
        c < 64,
        c % 16 == shift_places(insn.short_disp() as int),
{
    let d = insn.short_disp();
    let count = (d as u8) & 0x3F;
    let b = d as u8;
    assert(b as int == if d >= 0 { d as int } else { d as int + 0x100 }) by (bit_vector)
        requires
            b == d as u8,
    ;
    assert(count < 64 && count % 16 == b % 16) by (bit_vector)
        requires
            count == b & 0x3F,
    ;
    count as u32
}

fn shift_left(state: &mut CpuState, count: u32)
    ensures
        final(state)@ == (CpuView {
            acc: wrap16(old(state)@.acc * pow2((count % 16) as nat) as int),
            ..old(state)@
        }),
{
    proof {
        lemma_u16_shl(state.acc, count % 16);
    }
    state.acc = state.acc.wrapping_shl(count);
}

/// Arithmetic (sign-preserving) shift right of ACC.
fn shift_right(state: &mut CpuState, count: u32)
    ensures
        final(state)@ == (CpuView {
            acc: wrap16(signed16(old(state)@.acc) / (pow2((count % 16) as nat) as int)),
            ..old(state)@
        }),
{
    let signed = word_as_i16(state.acc);
    proof {
        lemma_i16_shr(signed, count % 16);
    }
    state.acc = i16_as_word(signed.wrapping_shr(count));
}

fn exec_bsc(state: &mut CpuState, mem: &Memory, insn: Instruction, address: u16, next: Option<u16>)
    requires
        address == address_of(old(state)@, insn),
    ensures
        final(state)@ == bsc_result(old(state)@, mem@, insn, next),
{
    if insn.is_long() {
        let mask = insn.long_mask();
        // mask == 0 => always branch; mask != 0 => branch if any masked
        // condition holds.
        if mask == 0 || condition_matches(state, mask) {
            let target = destination_address(state, mem, insn.tag(), address, insn.indirect());
            state.iar = target;
        }
    } else {
        let d = insn.short_disp();
        let mask = d as u8;
        assert(mask == byte_of(d)) by (bit_vector)
            requires
                mask == d as u8,
        ;
        if condition_matches(state, mask) {
            // Short form: skip the next instruction (1 or 2 words).
            if let Some(size) = next {
                state.iar = add_words(state.iar, size);
            }
        }
    }
}

/// Modify index register and skip on result == 0.
///
/// - Short form: add disp to XR[tag] (tag 0 selects no register: the
///   sum is computed but stored nowhere).
/// - Long form: set XR[tag] to the address (or the word there, with
///   indirection).
///
/// After modification, if the resulting value is zero, skip the next
/// instruction.
fn exec_mdx(state: &mut CpuState, mem: &Memory, insn: Instruction, address: u16, next: Option<u16>)
    requires
        address == address_of(old(state)@, insn),
    ensures
        final(state)@ == mdx_result(old(state)@, mem@, insn, next),
{
    let tag = insn.tag();
    let new_value = if insn.is_long() {
        let v = if insn.indirect() {
            mem.read_word(address)
        } else {
            address
        };
        if tag != 0 {
            state.write_xr(tag, v);
        }
        v
    } else {
        let prev = state.read_xr(tag);
        let v = add_words(prev, i16_as_word(insn.short_disp() as i16));
        proof {
            lemma_wrap16_add(prev as int, insn.short_disp() as int);
        }
        if tag != 0 {
            state.write_xr(tag, v);
        }
        v
    };
    if new_value == 0 {
        if let Some(size) = next {
            state.iar = add_words(state.iar, size);
        }
    }
}

/// XIO: Execute Input/Output.
///
/// The address operand points to a 2-word IOCC (I/O Control Command):
///
/// ```text
/// IOCC + 0:  data address (or immediate, depending on function)
/// IOCC + 1:  high byte = (area_code << 3) | function
///            low  byte = device-specific modifier
/// ```
///
/// Only `area = CONSOLE`, `function = WRITE` does anything: it takes the
/// low byte of the word that IOCC+0 addresses and appends it to the
/// console output. All other (area, function) pairs are silently no-op.
fn exec_xio(state: &mut CpuState, mem: &Memory, tag: u8, address: u16, indirect: bool)
    ensures
        final(state)@ == xio_result(
            old(state)@,
            mem@,
            destination_of(old(state)@, mem@, tag, address, indirect),
        ),
{
    let iocc_addr = destination_address(state, mem, tag, address, indirect);
    let data_addr = mem.read_word(iocc_addr);
    let control = mem.read_word(add_words(iocc_addr, 1));
    let high = (control >> 8) as u8;
    let area = (high >> 3) & 0x1F;
    let function = high & 0x07;
    assert(high as int == control as int / 0x100 && area as int == (high as int / 8) % 32
        && function as int == high as int % 8) by (bit_vector)
        requires
            high == (control >> 8) as u8,
            area == (high >> 3) & 0x1F,
            function == high & 0x07,
    ;
    if area == area::CONSOLE && function == func::WRITE {
        // The low byte of the data word is the character to type.
        let word = mem.read_word(data_addr);
        let byte = (word & 0xFF) as u8;
        assert(byte as int == word as int % 0x100) by (bit_vector)
            requires
                byte == (word & 0xFF) as u8,
        ;
        state.console_output.push(byte);
    }
}

#[verifier::rlimit(40)]
fn exec_with_address(
    state: &mut CpuState,
    mem: &mut Memory,
    insn: Instruction,
    address: u16,
    next: Option<u16>,
) -> (r: Result<(), ExecError>)
    requires
        address == address_of(old(state)@, insn),
        !divide_overflows(old(state)@, old(mem)@, insn),
    ensures
        final(state)@ == execute_spec(old(state)@, old(mem)@, insn, next).0,
        final(mem)@ == execute_spec(old(state)@, old(mem)@, insn, next).1,
        r == execute_spec(old(state)@, old(mem)@, insn, next).2,
{
    reveal(execute_spec);
    let tag = insn.tag();
    let indirect = insn.indirect();
    match insn.op() {
        Opcode::Load => {
            state.acc = fetch_operand(state, mem, tag, address, indirect);
            Ok(())
        },
        Opcode::LoadDouble => {
            let ea = destination_address(state, mem, tag, address, indirect);
            state.acc = mem.read_word(ea);
            state.ext = mem.read_word(add_words(ea, 1));
            Ok(())
        },
        Opcode::Store => {
            let dest = destination_address(state, mem, tag, address, indirect);
            mem.write_word(dest, state.acc);
            Ok(())
        },
        Opcode::StoreDouble => {
            let dest = destination_address(state, mem, tag, address, indirect);
            mem.write_word(dest, state.acc);
            mem.write_word(add_words(dest, 1), state.ext);
            Ok(())
        },
        Opcode::LoadIndex => {
            // LDX loads an index register from the address; tag 0 selects
            // no register, so that shape loads nothing.
            let v = mem.read_word(effective_address(state, 0, address));
            state.write_xr(tag, v);
            Ok(())
        },
        Opcode::StoreIndex => {
            let dest = destination_address(state, mem, 0, address, indirect);
            mem.write_word(dest, state.read_xr(tag));
            Ok(())
        },
        Opcode::LoadStatus | Opcode::StoreStatus => {
            // Status word handling is deferred: a no-op, so that programs
            // that happen to use them still run.
            Ok(())
        },
        Opcode::Add => {
            let operand = fetch_operand(state, mem, tag, address, indirect);
            add_to_acc(state, operand);
            Ok(())
        },
        Opcode::AddDouble => {
            let ea = destination_address(state, mem, tag, address, indirect);
            let operand = fetch_double(mem, ea);
            add_double(state, operand);
            Ok(())
        },
        Opcode::Subtract => {
            let operand = fetch_operand(state, mem, tag, address, indirect);
            subtract_from_acc(state, operand);
            Ok(())
        },
        Opcode::SubtractDouble => {
            let ea = destination_address(state, mem, tag, address, indirect);
            let operand = fetch_double(mem, ea);
            subtract_double(state, operand);
            Ok(())
        },
        Opcode::Multiply => {
            let operand = fetch_operand(state, mem, tag, address, indirect);
            multiply(state, operand);
            Ok(())
        },
        Opcode::Divide => {
            let operand = fetch_operand(state, mem, tag, address, indirect);
            divide(state, operand)
        },
        Opcode::And => {
            let operand = fetch_operand(state, mem, tag, address, indirect);
            state.acc = state.acc & operand;
            Ok(())
        },
        Opcode::Or => {
            let operand = fetch_operand(state, mem, tag, address, indirect);
            state.acc = state.acc | operand;
            Ok(())
        },
        Opcode::ExclusiveOr => {
            let operand = fetch_operand(state, mem, tag, address, indirect);
            state.acc = state.acc ^ operand;
            Ok(())
        },
        Opcode::ShiftLeft => {
            let count = shift_count(&insn);
            shift_left(state, count);
            Ok(())
        },
        Opcode::ShiftRight => {
            let count = shift_count(&insn);
            shift_right(state, count);
            Ok(())
        },
        Opcode::BranchSkipCondition => {
            exec_bsc(state, mem, insn, address, next);
            Ok(())
        },
        Opcode::BranchStore => {
            // BSI: same condition semantics as BSC long. When the test
            // passes (mask == 0 or a masked condition holds), call: write
            // IAR to the target, set IAR = target + 1.
            let mask = insn.long_mask();
            if mask == 0 || condition_matches(state, mask) {
                let target = destination_address(state, mem, tag, address, indirect);
                mem.write_word(target, state.iar);
                state.iar = add_words(target, 1);
            }
            Ok(())
        },
        Opcode::ModifyIndex => {
            exec_mdx(state, mem, insn, address, next);
            Ok(())
        },
        Opcode::Wait => {
            state.halted = true;
            Ok(())
        },
        Opcode::ExecuteInputOutput => {
            exec_xio(state, mem, tag, address, indirect);
            Ok(())
        },
    }
}

fn exec_short(
    state: &mut CpuState,
    mem: &mut Memory,
    insn: Instruction,
    disp: i8,
    next: Option<u16>,
) -> (r: Result<(), ExecError>)
    requires
        insn matches Instruction::Short { disp: d, .. } && d == disp,
        !divide_overflows(old(state)@, old(mem)@, insn),
    ensures
        final(state)@ == execute_spec(old(state)@, old(mem)@, insn, next).0,
        final(mem)@ == execute_spec(old(state)@, old(mem)@, insn, next).1,
        r == execute_spec(old(state)@, old(mem)@, insn, next).2,
{
    // Short-form effective address is `IAR + disp + XR[tag]`; IAR has
    // already been advanced past this instruction.
    let pc_relative = add_words(state.iar, i16_as_word(disp as i16));
    proof {
        lemma_wrap16_add(state.iar as int, disp as int);
    }
    exec_with_address(state, mem, insn, pc_relative, next)
}

fn exec_long(
    state: &mut CpuState,
    mem: &mut Memory,
    insn: Instruction,
    address: u16,
    next: Option<u16>,
) -> (r: Result<(), ExecError>)
    requires
        insn matches Instruction::Long { address: a, .. } && a == address,
        !divide_overflows(old(state)@, old(mem)@, insn),
    ensures
        final(state)@ == execute_spec(old(state)@, old(mem)@, insn, next).0,
        final(mem)@ == execute_spec(old(state)@, old(mem)@, insn, next).1,
        r == execute_spec(old(state)@, old(mem)@, insn, next).2,
{
    exec_with_address(state, mem, insn, address, next)
}

/// Execute an instruction that has already been decoded, with IAR
/// already moved past it. `next` is the word size of the instruction now
/// at IAR (`None` when it does not decode): a BSC short or MDX skip moves
/// IAR past it.
pub fn execute(
    state: &mut CpuState,
    mem: &mut Memory,
    insn: Instruction,
    next: Option<u16>,
) -> (r: Result<(), ExecError>)
    requires
        !divide_overflows(old(state)@, old(mem)@, insn),
    ensures
        final(state)@ == execute_spec(old(state)@, old(mem)@, insn, next).0,
        final(mem)@ == execute_spec(old(state)@, old(mem)@, insn, next).1,
        r == execute_spec(old(state)@, old(mem)@, insn, next).2,
{
    match insn {
        Instruction::Short { disp, .. } => exec_short(state, mem, insn, disp, next),
        Instruction::Long { address, .. } => exec_long(state, mem, insn, address, next),
    }
}

// ---------------------------------------------------------------------
// Fetch, decode and execute.
// ---------------------------------------------------------------------

/// The state once IAR has moved past an instruction of `size` words and
/// the instruction has been counted.
pub open spec fn advanced(s: CpuView, size: u16) -> CpuView {
    CpuView { iar: wrap16(s.iar + size), instr_count: (s.instr_count + 1) as u64, ..s }
}

/// True for the instructions whose skip needs the size of the next
/// instruction: BSC short and MDX.
pub open spec fn needs_next_size(insn: Instruction) -> bool {
    (insn.op() == Opcode::BranchSkipCondition && !insn.is_long()) || insn.op()
        == Opcode::ModifyIndex
}

/// The word size that a decoding result reports, if it decoded.
pub open spec fn size_of(d: Result<(Instruction, u16), String>) -> Option<u16> {
    match d {
        Ok((_, n)) => Some(n),
        Err(_) => None,
    }
}

/// `(s2, m2, r)` is a possible outcome of executing `insn` from `s1`
/// (IAR past it) and `m`, given the decoder.
pub open spec fn executes<D>(
    decode: D,
    s1: CpuView,
    m: Seq<u16>,
    insn: Instruction,
    s2: CpuView,
    m2: Seq<u16>,
    r: Result<(), ExecError>,
) -> bool
    where
        D: Fn([u8; 4]) -> Result<(Instruction, usize), String>,
{
    if needs_next_size(insn) {
        exists|d2: Result<(Instruction, u16), String>|
            #[trigger] decodes(decode, m, s1.iar, d2) && s2 == execute_spec(
                s1,
                m,
                insn,
                size_of(d2),
            ).0 && m2 == execute_spec(s1, m, insn, size_of(d2)).1 && r == execute_spec(
                s1,
                m,
                insn,
                size_of(d2),
            ).2
    } else {
        s2 == execute_spec(s1, m, insn, None).0 && m2 == execute_spec(s1, m, insn, None).1 && r
            == execute_spec(s1, m, insn, None).2
    }
}

/// `(s2, m2, r)` is a possible outcome of one `step` from `s` and `m`:
/// a halted CPU refuses; otherwise the instruction at IAR is decoded (a
/// decoder error is returned with nothing changed), IAR moves past it,
/// the instruction is counted and executed.
pub open spec fn step_relation<D>(
    decode: D,
    s: CpuView,
    m: Seq<u16>,
    s2: CpuView,
    m2: Seq<u16>,
    r: Result<(), ExecError>,
) -> bool
    where
        D: Fn([u8; 4]) -> Result<(Instruction, usize), String>,
{
    if s.halted {
        s2 == s && m2 == m && r == Err::<(), ExecError>(ExecError::Halted)
    } else {
        exists|d: Result<(Instruction, u16), String>|
            #[trigger] decodes(decode, m, s.iar, d) && match d {
                Err(e) => s2 == s && m2 == m && r == Err::<(), ExecError>(ExecError::Decode(e)),
                Ok((insn, n)) => executes(decode, advanced(s, n), m, insn, s2, m2, r),
            }
    }
}

/// A step from `s` and `m` cannot fail on arithmetic: the instruction
/// count has room for one more, and no instruction that the decoder may
/// find at IAR divides -2^31 by -1.
pub open spec fn step_safe<D>(decode: D, s: CpuView, m: Seq<u16>) -> bool
    where
        D: Fn([u8; 4]) -> Result<(Instruction, usize), String>,
{
    !s.halted ==> {
        &&& s.instr_count < u64::MAX
        &&& forall|d: Result<(Instruction, u16), String>|
            #[trigger] decodes(decode, m, s.iar, d) ==> match d {
                Ok((insn, n)) => !divide_overflows(advanced(s, n), m, insn),
                Err(_) => true,
            }
    }
}

/// Whether executing `insn` from this state and memory would divide
/// -2^31 by -1: the one input on which a divide has no result, and which
/// `execute` and `step` therefore do not accept.
pub fn divide_would_overflow(state: &CpuState, mem: &Memory, insn: Instruction) -> (b: bool)
    ensures
        b == divide_overflows(state@, mem@, insn),
{
    if insn.op() != Opcode::Divide {
        return false;
    }
    let address = match insn {
        Instruction::Short { disp, .. } => {
            proof {
                lemma_wrap16_add(state.iar as int, disp as int);
            }
            add_words(state.iar, i16_as_word(disp as i16))
        },
        Instruction::Long { address, .. } => address,
    };
    let operand = fetch_operand(state, mem, insn.tag(), address, insn.indirect());
    word_as_i16(operand) == -1 && state.read_pair() == i32::MIN
}

fn skips_over_next(insn: &Instruction) -> (b: bool)
    ensures
        b == needs_next_size(*insn),
{
    match insn.op() {
        Opcode::BranchSkipCondition => !insn.is_long(),
        Opcode::ModifyIndex => true,
        _ => false,
    }
}

/// Decode + execute one instruction. Advances IAR; halts on WAIT.
pub fn step<D>(state: &mut CpuState, mem: &mut Memory, decode: &D) -> (r: Result<(), ExecError>)
    where
        D: Fn([u8; 4]) -> Result<(Instruction, usize), String>,
    requires
        forall|b: [u8; 4]| decode.requires((b,)),
        step_safe(*decode, old(state)@, old(mem)@),
    ensures
        step_relation(*decode, old(state)@, old(mem)@, final(state)@, final(mem)@, r),
        final(mem)@.len() == old(mem)@.len(),
{
    if state.halted {
        return Err(ExecError::Halted);
    }
    let fetched = mem.decode_at(state.iar, decode);
    let ghost found = fetched;
    let (insn, size_words) = match fetched {
        Ok(d) => d,
        Err(e) => {
            let r = Err(ExecError::Decode(e));
            assert(exists|d: Result<(Instruction, u16), String>|
                #[trigger] decodes(*decode, mem@, state@.iar, d) && match d {
                    Err(e) => r == Err::<(), ExecError>(ExecError::Decode(e)),
                    Ok(_) => false,
                }) by {
                assert(decodes(*decode, mem@, state@.iar, found));
            }
            return r;
        },
    };
    let ghost s1 = advanced(state@, size_words);
    state.iar = add_words(state.iar, size_words);
    state.instr_count = state.instr_count + 1;
    assert(state@ == s1);
    let ghost mut following = fetched;
    let next = if skips_over_next(&insn) {
        let after = mem.decode_at(state.iar, decode);
        proof {
            following = after;
        }
        match after {
            Ok((_, n)) => Some(n),
            Err(_) => None,
        }
    } else {
        None
    };
    assert(needs_next_size(insn) ==> decodes(*decode, mem@, s1.iar, following) && next == size_of(
        following,
    ));
    let ghost m = mem@;
    proof {
        law_execute_frame(s1, m, insn, next);
    }
    let r = execute(state, mem, insn, next);
    assert(executes(*decode, s1, m, insn, state@, mem@, r));
    assert(decodes(*decode, m, old(state)@.iar, found));
    r
}

// ---------------------------------------------------------------------
// What every instruction keeps.
// ---------------------------------------------------------------------

/// No instruction changes the instruction count or the size of memory;
/// carry and overflow are sticky (never cleared); only WAIT halts and
/// nothing resumes a halted CPU; the console only grows, by at most one
/// byte.
pub proof fn law_execute_frame(s: CpuView, m: Seq<u16>, insn: Instruction, next: Option<u16>)
    ensures
        execute_spec(s, m, insn, next).0.instr_count == s.instr_count,
        execute_spec(s, m, insn, next).1.len() == m.len(),
        s.carry ==> execute_spec(s, m, insn, next).0.carry,
        s.overflow ==> execute_spec(s, m, insn, next).0.overflow,
        execute_spec(s, m, insn, next).0.halted == (s.halted || insn.op() == Opcode::Wait),
        execute_spec(s, m, insn, next).0.console == s.console || execute_spec(
            s,
            m,
            insn,
            next,
        ).0.console == s.console.push(execute_spec(s, m, insn, next).0.console.last()),
        execute_spec(s, m, insn, next).2 is Ok || execute_spec(s, m, insn, next).2
            == Err::<(), ExecError>(ExecError::DivideByZero),
        execute_spec(s, m, insn, next).2 == Err::<(), ExecError>(ExecError::DivideByZero) ==> (
        execute_spec(s, m, insn, next).0 == s && execute_spec(s, m, insn, next).1 == m),
{
    reveal(execute_spec);
}

// ---------------------------------------------------------------------
// Running to a halt.
// ---------------------------------------------------------------------

/// `(s2, m2)` is a possible outcome of one successful step from `(s, m)`.
pub open spec fn steps_to<D>(decode: D, s: CpuView, m: Seq<u16>, s2: CpuView, m2: Seq<u16>) -> bool
    where
        D: Fn([u8; 4]) -> Result<(Instruction, usize), String>,
{
    exists|r: Result<(), ExecError>| #[trigger] step_relation(decode, s, m, s2, m2, r) && r is Ok
}

/// `states` and `mems` list the states and memories of a run of `k`
/// successful steps from `(s0, m0)` to `(s, m)`.
pub open spec fn is_trace<D>(
    decode: D,
    states: Seq<CpuView>,
    mems: Seq<Seq<u16>>,
    s0: CpuView,
    m0: Seq<u16>,
    k: nat,
    s: CpuView,
    m: Seq<u16>,
) -> bool
    where
        D: Fn([u8; 4]) -> Result<(Instruction, usize), String>,
{
    &&& states.len() == k + 1
    &&& mems.len() == k + 1
    &&& states[0] == s0
    &&& mems[0] == m0
    &&& states[k as int] == s
    &&& mems[k as int] == m
    &&& forall|i: int|
        0 <= i < k ==> #[trigger] steps_to(decode, states[i], mems[i], states[i + 1], mems[i + 1])
}

/// `(s, m)` is reached from `(s0, m0)` by `k` steps that all succeed.
pub open spec fn runs<D>(decode: D, s0: CpuView, m0: Seq<u16>, k: nat, s: CpuView, m: Seq<u16>) -> bool
    where
        D: Fn([u8; 4]) -> Result<(Instruction, usize), String>,
{
    exists|states: Seq<CpuView>, mems: Seq<Seq<u16>>|
        #[trigger] is_trace(decode, states, mems, s0, m0, k, s, m)
}

/// Every step that a run of at most `max_steps` steps from `(s0, m0)`
/// can take is safe.
pub open spec fn run_safe<D>(decode: D, s0: CpuView, m0: Seq<u16>, max_steps: nat) -> bool
    where
        D: Fn([u8; 4]) -> Result<(Instruction, usize), String>,
{
    forall|k: nat, s: CpuView, m: Seq<u16>|
        k < max_steps && #[trigger] runs(decode, s0, m0, k, s, m) ==> step_safe(decode, s, m)
}

/// The pieces of a step outcome from a CPU that is not halted: what the
/// decoder gave at IAR and, where the instruction skips, the size it
/// gave for the next one.
pub proof fn lemma_step_cases<D>(
    decode: D,
    s: CpuView,
    m: Seq<u16>,
    s2: CpuView,
    m2: Seq<u16>,
    r: Result<(), ExecError>,
) -> (parts: (Result<(Instruction, u16), String>, Option<u16>, Result<(Instruction, u16), String>))
    where
        D: Fn([u8; 4]) -> Result<(Instruction, usize), String>,
    requires
        step_relation(decode, s, m, s2, m2, r),
        !s.halted,
    ensures
        decodes(decode, m, s.iar, parts.0),
        match parts.0 {
            Err(e) => s2 == s && m2 == m && r == Err::<(), ExecError>(ExecError::Decode(e)),
            Ok((insn, n)) => {
                &&& s2 == execute_spec(advanced(s, n), m, insn, parts.1).0
                &&& m2 == execute_spec(advanced(s, n), m, insn, parts.1).1
                &&& r == execute_spec(advanced(s, n), m, insn, parts.1).2
                &&& needs_next_size(insn) ==> decodes(decode, m, advanced(s, n).iar, parts.2)
                    && parts.1 == size_of(parts.2)
                &&& !needs_next_size(insn) ==> parts.1 is None
            },
        },
{
    let d = choose|d: Result<(Instruction, u16), String>|
        #[trigger] decodes(decode, m, s.iar, d) && match d {
            Err(e) => s2 == s && m2 == m && r == Err::<(), ExecError>(ExecError::Decode(e)),
            Ok((insn, n)) => executes(decode, advanced(s, n), m, insn, s2, m2, r),
        };
    match d {
        Ok((insn, n)) => {
            let s1 = advanced(s, n);
            if needs_next_size(insn) {
                let d2 = choose|d2: Result<(Instruction, u16), String>|
                    #[trigger] decodes(decode, m, s1.iar, d2) && s2 == execute_spec(
                        s1,
                        m,
                        insn,
                        size_of(d2),
                    ).0 && m2 == execute_spec(s1, m, insn, size_of(d2)).1 && r == execute_spec(
                        s1,
                        m,
                        insn,
                        size_of(d2),
                    ).2;
                (d, size_of(d2), d2)
            } else {
                (d, None, d)
            }
        },
        Err(_) => (d, None, d),
    }
}

/// A successful step counts exactly one instruction, from a CPU that was
/// not halted, and keeps the size of memory.
pub proof fn lemma_step_counts<D>(
    decode: D,
    s: CpuView,
    m: Seq<u16>,
    s2: CpuView,
    m2: Seq<u16>,
    r: Result<(), ExecError>,
)
    where
        D: Fn([u8; 4]) -> Result<(Instruction, usize), String>,
    requires
        step_relation(decode, s, m, s2, m2, r),
        r is Ok,
        s.instr_count < u64::MAX,
    ensures
        !s.halted,
        s2.instr_count == s.instr_count + 1,
        m2.len() == m.len(),
{
    let (d, next, _) = lemma_step_cases(decode, s, m, s2, m2, r);
    if let Ok((insn, n)) = d {
        law_execute_frame(advanced(s, n), m, insn, next);
    }
}

/// What every step keeps, whatever the decoder gives: the memory size;
/// carry and overflow stay set once set; a halted CPU refuses the step
/// and stays as it is; a decoder error changes nothing; otherwise exactly
/// one instruction is counted; the console only grows, by at most one
/// byte; the only errors are `Halted`, `Decode` and `DivideByZero`.
pub proof fn law_step_frame<D>(
    decode: D,
    s: CpuView,
    m: Seq<u16>,
    s2: CpuView,
    m2: Seq<u16>,
    r: Result<(), ExecError>,
)
    where
        D: Fn([u8; 4]) -> Result<(Instruction, usize), String>,
    requires
        step_relation(decode, s, m, s2, m2, r),
        s.instr_count < u64::MAX,
    ensures
        m2.len() == m.len(),
        s.carry ==> s2.carry,
        s.overflow ==> s2.overflow,
        s.halted ==> s2 == s && m2 == m && r == Err::<(), ExecError>(ExecError::Halted),
        r matches Err(ExecError::Decode(_)) ==> s2 == s && m2 == m,
        !s.halted && !(r matches Err(ExecError::Decode(_))) ==> s2.instr_count == s.instr_count
            + 1,
        s2.console == s.console || s2.console == s.console.push(s2.console.last()),
        r is Ok || r matches Err(ExecError::Halted) || r matches Err(ExecError::Decode(_))
            || r matches Err(ExecError::DivideByZero),
        r matches Err(ExecError::Halted) ==> s.halted,
{
    if !s.halted {
        let (d, next, _) = lemma_step_cases(decode, s, m, s2, m2, r);
        if let Ok((insn, n)) = d {
            law_execute_frame(advanced(s, n), m, insn, next);
        }
    }
}

proof fn lemma_trace_step<D>(
    decode: D,
    states: Seq<CpuView>,
    mems: Seq<Seq<u16>>,
    s0: CpuView,
    m0: Seq<u16>,
    k: nat,
    s: CpuView,
    m: Seq<u16>,
    i: int,
)
    where
        D: Fn([u8; 4]) -> Result<(Instruction, usize), String>,
    requires
        is_trace(decode, states, mems, s0, m0, k, s, m),
        0 <= i < k,
    ensures
        steps_to(decode, states[i], mems[i], states[i + 1], mems[i + 1]),
{
}

/// A run from a halted CPU takes no step: the only state it reaches is
/// the one it starts from.
pub proof fn law_halted_run<D>(decode: D, s0: CpuView, m0: Seq<u16>, k: nat, s: CpuView, m: Seq<u16>)
    where
        D: Fn([u8; 4]) -> Result<(Instruction, usize), String>,
    requires
        s0.halted,
        runs(decode, s0, m0, k, s, m),
    ensures
        k == 0,
        s == s0,
        m == m0,
{
    let (states, mems) = choose|states: Seq<CpuView>, mems: Seq<Seq<u16>>|
        #[trigger] is_trace(decode, states, mems, s0, m0, k, s, m);
    if k > 0 {
        lemma_trace_step(decode, states, mems, s0, m0, k, s, m, 0);
        let r = choose|r: Result<(), ExecError>|
            #[trigger] step_relation(decode, states[0], mems[0], states[1], mems[1], r) && r is Ok;
        assert(false);
    }
}

/// Storing ACC and then loading from the same effective address gives
/// ACC back, when that address lies inside memory: the load may run from
/// any later state whose selected index register is unchanged, with any
/// mask and next-size on either instruction.
pub proof fn law_store_then_load(
    s: CpuView,
    m: Seq<u16>,
    later: CpuView,
    tag: u8,
    address: u16,
    store_mask: u8,
    load_mask: u8,
    store_next: Option<u16>,
    load_next: Option<u16>,
)
    requires
        (ea_of(s, tag, address) as int) < m.len(),
        later.xr(tag) == s.xr(tag),
    ensures
        ({
            let store = Instruction::Long {
                op: Opcode::Store,
                tag,
                indirect: false,
                mask: store_mask,
                address,
            };
            let load = Instruction::Long {
                op: Opcode::Load,
                tag,
                indirect: false,
                mask: load_mask,
                address,
            };
            let after = execute_spec(s, m, store, store_next);
            after.2 is Ok && execute_spec(later, after.1, load, load_next).0.acc == s.acc
        }),
{
    reveal(execute_spec);
}

/// Storing the (ACC, EXT) pair and then loading the pair from the same
/// effective address gives it back, ACC from the first word and EXT from
/// the second, when both words lie inside memory: the load may run from
/// any later state whose selected index register is unchanged.
pub proof fn law_store_double_then_load_double(
    s: CpuView,
    m: Seq<u16>,
    later: CpuView,
    tag: u8,
    address: u16,
    store_mask: u8,
    load_mask: u8,
    store_next: Option<u16>,
    load_next: Option<u16>,
)
    requires
        (ea_of(s, tag, address) as int) < m.len(),
        (wrap16(ea_of(s, tag, address) + 1) as int) < m.len(),
        later.xr(tag) == s.xr(tag),
    ensures
        ({
            let store = Instruction::Long {
                op: Opcode::StoreDouble,
                tag,
                indirect: false,
                mask: store_mask,
                address,
            };
            let load = Instruction::Long {
                op: Opcode::LoadDouble,
                tag,
                indirect: false,
                mask: load_mask,
                address,
            };
            let after = execute_spec(s, m, store, store_next);
            let loaded = execute_spec(later, after.1, load, load_next);
            after.2 is Ok && loaded.2 is Ok && loaded.0.acc == s.acc && loaded.0.ext == s.ext
        }),
{
    reveal(execute_spec);
    let ea = ea_of(s, tag, address);
    assert(wrap16(ea + 1) != ea);
}

/// The conditions of two masks or-ed together are tested together: the
/// combined mask holds exactly when either mask holds. So a mask holds
/// whenever a mask whose bits it contains holds.
pub proof fn law_condition_masks_or(s: CpuView, m1: u8, m2: u8)
    ensures
        condition_holds(s, m1 | m2) == (condition_holds(s, m1) || condition_holds(s, m2)),
        (m1 & !m2) == 0 && condition_holds(s, m1) ==> condition_holds(s, m2),
{
    assert(((m1 | m2) == 0) == (m1 == 0 && m2 == 0)) by (bit_vector);
    assert((((m1 | m2) & 0x04) != 0) == ((m1 & 0x04) != 0 || (m2 & 0x04) != 0)) by (bit_vector);
    assert((((m1 | m2) & 0x08) != 0) == ((m1 & 0x08) != 0 || (m2 & 0x08) != 0)) by (bit_vector);
    assert((((m1 | m2) & 0x10) != 0) == ((m1 & 0x10) != 0 || (m2 & 0x10) != 0)) by (bit_vector);
    assert((((m1 | m2) & 0x20) != 0) == ((m1 & 0x20) != 0 || (m2 & 0x20) != 0)) by (bit_vector);
    assert((((m1 | m2) & 0x40) != 0) == ((m1 & 0x40) != 0 || (m2 & 0x40) != 0)) by (bit_vector);
    assert((m1 & !m2) == 0 ==> (m1 | m2) == m2) by (bit_vector);
    lemma_tested_bit_nonzero(m1);
    lemma_tested_bit_nonzero(m2);
    lemma_tested_bit_nonzero(m1 | m2);
}

proof fn lemma_tested_bit_nonzero(m: u8)
    ensures
        (m & 0x04) != 0 || (m & 0x08) != 0 || (m & 0x10) != 0 || (m & 0x20) != 0 || (m & 0x40)
            != 0 ==> m != 0,
{
    assert((m & 0x04) != 0 || (m & 0x08) != 0 || (m & 0x10) != 0 || (m & 0x20) != 0 || (m & 0x40)
        != 0 ==> m != 0) by (bit_vector);
}

/// Mask bits 0x01, 0x02 and 0x80 test nothing, and a condition reads no
/// state but ACC and carry: two states that agree on those two agree on
/// every mask.
pub proof fn law_condition_reads_acc_and_carry(s: CpuView, other: CpuView, mask: u8)
    ensures
        condition_holds(s, mask) == condition_holds(s, mask & 0x7C),
        other.acc == s.acc && other.carry == s.carry ==> condition_holds(other, mask)
            == condition_holds(s, mask),
{
    let k = mask & 0x7C;
    assert(((k & 0x04) != 0) == ((mask & 0x04) != 0) && ((k & 0x08) != 0) == ((mask & 0x08) != 0)
        && ((k & 0x10) != 0) == ((mask & 0x10) != 0) && ((k & 0x20) != 0) == ((mask & 0x20) != 0)
        && ((k & 0x40) != 0) == ((mask & 0x40) != 0)) by (bit_vector)
        requires
            k == mask & 0x7C,
    ;
    assert(k == 0 ==> (mask & 0x04) == 0 && (mask & 0x08) == 0 && (mask & 0x10) == 0 && (mask
        & 0x20) == 0 && (mask & 0x40) == 0) by (bit_vector)
        requires
            k == mask & 0x7C,
    ;
    lemma_tested_bit_nonzero(mask);
    lemma_tested_bit_nonzero(k);
}

/// Multiply leaves in (ACC, EXT) the exact signed product of ACC and the
/// operand: the product of two 16-bit values always fits in 32 bits.
pub proof fn law_multiply_exact(s: CpuView, m: Seq<u16>, insn: Instruction, next: Option<u16>)
    requires
        insn.op() == Opcode::Multiply,
    ensures
        execute_spec(s, m, insn, next).0.pair() == signed16(s.acc) * signed16(
            operand_of(s, m, insn.tag(), address_of(s, insn), insn.indirect()),
        ),
{
    reveal(execute_spec);
    let x = signed16(operand_of(s, m, insn.tag(), address_of(s, insn), insn.indirect()));
    let a = signed16(s.acc);
    assert(-0x4000_0000 <= a * x <= 0x4000_0000) by (nonlinear_arith)
        requires
            -0x8000 <= a <= 0x7FFF,
            -0x8000 <= x <= 0x7FFF,
    ;
    crate::state::law_pair_write_read(s, a * x);
}

/// A zero condition mask tests nothing: a short BSC with a zero
/// displacement never skips, and a long BSC or BSI with a zero mask
/// always takes the branch.
pub proof fn law_zero_mask(s: CpuView, m: Seq<u16>, insn: Instruction, next: Option<u16>)
    ensures
        !condition_holds(s, 0),
        insn.op() == Opcode::BranchSkipCondition && !insn.is_long() && insn.short_disp() == 0
            ==> execute_spec(s, m, insn, next).0 == s,
        insn.op() == Opcode::BranchSkipCondition && insn.is_long() && insn.long_mask() == 0
            ==> execute_spec(s, m, insn, next).0.iar == destination_of(
            s,
            m,
            insn.tag(),
            address_of(s, insn),
            insn.indirect(),
        ),
{
    reveal(execute_spec);
    assert(byte_of(0) == 0);
}

/// What `run` promises when it returns `Ok(n)` with a budget of
/// `max_steps`: `n` instructions ran, no more than the budget, and the
/// run stopped because the CPU halted or the budget was used up.
pub open spec fn ran<D>(
    decode: D,
    s0: CpuView,
    m0: Seq<u16>,
    max_steps: nat,
    n: nat,
    s: CpuView,
    m: Seq<u16>,
) -> bool
    where
        D: Fn([u8; 4]) -> Result<(Instruction, usize), String>,
{
    &&& n <= max_steps
    &&& s.instr_count == s0.instr_count + n
    &&& s.halted || n == max_steps
    &&& runs(decode, s0, m0, n, s, m)
}

/// What `run` promises when it returns `Err(e)` with a budget of
/// `max_steps`: after fewer steps than the budget, all successful, a step
/// from a CPU that was not halted failed with `e`, ending in `(s, m)`.
pub open spec fn run_failed<D>(
    decode: D,
    s0: CpuView,
    m0: Seq<u16>,
    max_steps: nat,
    e: ExecError,
    s: CpuView,
    m: Seq<u16>,
) -> bool
    where
        D: Fn([u8; 4]) -> Result<(Instruction, usize), String>,
{
    exists|k: nat, s1: CpuView, m1: Seq<u16>|
        {
            &&& k < max_steps
            &&& #[trigger] runs(decode, s0, m0, k, s1, m1)
            &&& !s1.halted
            &&& step_relation(decode, s1, m1, s, m, Err(e))
        }
}

/// A run of `k1` steps followed by a run of `k2` steps is a run of
/// `k1 + k2` steps.
pub proof fn law_runs_compose<D>(
    decode: D,
    s0: CpuView,
    m0: Seq<u16>,
    k1: nat,
    s1: CpuView,
    m1: Seq<u16>,
    k2: nat,
    s2: CpuView,
    m2: Seq<u16>,
)
    where
        D: Fn([u8; 4]) -> Result<(Instruction, usize), String>,
    requires
        runs(decode, s0, m0, k1, s1, m1),
        runs(decode, s1, m1, k2, s2, m2),
    ensures
        runs(decode, s0, m0, k1 + k2, s2, m2),
{
    let (t1, u1) = choose|states: Seq<CpuView>, mems: Seq<Seq<u16>>|
        #[trigger] is_trace(decode, states, mems, s0, m0, k1, s1, m1);
    let (t2, u2) = choose|states: Seq<CpuView>, mems: Seq<Seq<u16>>|
        #[trigger] is_trace(decode, states, mems, s1, m1, k2, s2, m2);
    let states = t1 + t2.subrange(1, k2 + 1int);
    let mems = u1 + u2.subrange(1, k2 + 1int);
    assert forall|i: int| 0 <= i <= k1 + k2 implies states[i] == (if i <= k1 {
        t1[i]
    } else {
        t2[i - k1]
    }) && mems[i] == (if i <= k1 {
        u1[i]
    } else {
        u2[i - k1]
    }) by {}
    assert forall|i: int| 0 <= i < k1 + k2 implies #[trigger] steps_to(
        decode,
        states[i],
        mems[i],
        states[i + 1],
        mems[i + 1],
    ) by {
        if i < k1 {
            lemma_trace_step(decode, t1, u1, s0, m0, k1, s1, m1, i);
        } else {
            lemma_trace_step(decode, t2, u2, s1, m1, k2, s2, m2, i - k1);
            assert(states[i] == t2[i - k1]);
            assert(states[i + 1] == t2[i - k1 + 1]);
        }
    }
    assert(is_trace(decode, states, mems, s0, m0, k1 + k2, s2, m2));
}

/// Along a run that the instruction count has room for, each step counts
/// one instruction.
pub proof fn lemma_runs_count<D>(decode: D, s0: CpuView, m0: Seq<u16>, k: nat, s: CpuView, m: Seq<u16>)
    where
        D: Fn([u8; 4]) -> Result<(Instruction, usize), String>,
    requires
        runs(decode, s0, m0, k, s, m),
        s0.instr_count + k <= u64::MAX,
    ensures
        s.instr_count == s0.instr_count + k,
{
    let (t, u) = choose|states: Seq<CpuView>, mems: Seq<Seq<u16>>|
        #[trigger] is_trace(decode, states, mems, s0, m0, k, s, m);
    lemma_trace_count(decode, t, u, s0, m0, k, s, m, k);
}

proof fn lemma_trace_count<D>(
    decode: D,
    states: Seq<CpuView>,
    mems: Seq<Seq<u16>>,
    s0: CpuView,
    m0: Seq<u16>,
    k: nat,
    s: CpuView,
    m: Seq<u16>,
    i: nat,
)
    where
        D: Fn([u8; 4]) -> Result<(Instruction, usize), String>,
    requires
        is_trace(decode, states, mems, s0, m0, k, s, m),
        i <= k,
        s0.instr_count + k <= u64::MAX,
    ensures
        states[i as int].instr_count == s0.instr_count + i,
    decreases i,
{
    if i > 0 {
        let j = (i - 1) as nat;
        lemma_trace_count(decode, states, mems, s0, m0, k, s, m, j);
        lemma_trace_step(decode, states, mems, s0, m0, k, s, m, j as int);
        assert(j + 1 == i);
        let r = choose|r: Result<(), ExecError>|
            #[trigger] step_relation(
                decode,
                states[j as int],
                mems[j as int],
                states[j + 1int],
                mems[j + 1int],
                r,
            ) && r is Ok;
        lemma_step_counts(decode, states[j as int], mems[j as int], states[j + 1int], mems[j + 1int], r);
    }
}

/// A budget that was safe for `a + b` steps from `(s0, m0)` is safe for
/// `b` more steps from wherever a run of at most `a` steps got to: `run`
/// may be called again with the rest of the budget.
pub proof fn law_run_safe_rest<D>(
    decode: D,
    s0: CpuView,
    m0: Seq<u16>,
    a: nat,
    b: nat,
    n: nat,
    s1: CpuView,
    m1: Seq<u16>,
)
    where
        D: Fn([u8; 4]) -> Result<(Instruction, usize), String>,
    requires
        run_safe(decode, s0, m0, a + b),
        runs(decode, s0, m0, n, s1, m1),
        n <= a,
    ensures
        run_safe(decode, s1, m1, b),
{
    assert forall|k: nat, s: CpuView, m: Seq<u16>|
        k < b && #[trigger] runs(decode, s1, m1, k, s, m) implies step_safe(decode, s, m) by {
        law_runs_compose(decode, s0, m0, n, s1, m1, k, s, m);
        assert(runs(decode, s0, m0, n + k, s, m));
    }
}

/// Running with a budget of `a` and then with a budget of `b` ends as one
/// run with a budget of `a + b` may end: after `n1 + n2` instructions, in
/// a state reached by that many steps, halted or with the whole budget
/// used.
pub proof fn law_run_in_two_slices<D>(
    decode: D,
    s0: CpuView,
    m0: Seq<u16>,
    a: nat,
    n1: nat,
    s1: CpuView,
    m1: Seq<u16>,
    b: nat,
    n2: nat,
    s2: CpuView,
    m2: Seq<u16>,
)
    where
        D: Fn([u8; 4]) -> Result<(Instruction, usize), String>,
    requires
        ran(decode, s0, m0, a, n1, s1, m1),
        ran(decode, s1, m1, b, n2, s2, m2),
    ensures
        ran(decode, s0, m0, a + b, n1 + n2, s2, m2),
{
    law_runs_compose(decode, s0, m0, n1, s1, m1, n2, s2, m2);
    if n1 < a {
        law_halted_run(decode, s1, m1, n2, s2, m2);
    }
}

/// A simple way to meet `run_safe`: a decoder that never gives a divide,
/// and an instruction count with room for the whole budget.
pub proof fn law_run_safe_without_divides<D>(
    decode: D,
    s0: CpuView,
    m0: Seq<u16>,
    max_steps: nat,
)
    where
        D: Fn([u8; 4]) -> Result<(Instruction, usize), String>,
    requires
        forall|b: [u8; 4], raw: Result<(Instruction, usize), String>|
            #[trigger] decode.ensures((b,), raw) ==> (raw matches Ok((insn, _)) ==> insn.op()
                != Opcode::Divide),
        s0.instr_count + max_steps <= u64::MAX,
    ensures
        run_safe(decode, s0, m0, max_steps),
{
    assert forall|k: nat, s: CpuView, m: Seq<u16>|
        k < max_steps && #[trigger] runs(decode, s0, m0, k, s, m) implies step_safe(
        decode,
        s,
        m,
    ) by {
        lemma_runs_count(decode, s0, m0, k, s, m);
        assert forall|d: Result<(Instruction, u16), String>|
            #[trigger] decodes(decode, m, s.iar, d) implies match d {
            Ok((insn, n)) => !divide_overflows(advanced(s, n), m, insn),
            Err(_) => true,
        } by {
            let (b, raw) = choose|b: [u8; 4], raw: Result<(Instruction, usize), String>|
                b@ == fetch_image(m, s.iar) && #[trigger] decode.ensures((b,), raw) && d
                    == decoded_in_words(raw);
        }
    }
}

// ---------------------------------------------------------------------
// Determinism: with a decoder that gives one result for each bytes, a
// step, a run of a given length and a call of `run` each have exactly
// one outcome.
// ---------------------------------------------------------------------

/// The decoder gives one result for each four bytes.
pub open spec fn decoder_is_function<D>(decode: D) -> bool
    where
        D: Fn([u8; 4]) -> Result<(Instruction, usize), String>,
{
    forall|b1: [u8; 4], b2: [u8; 4], r1: Result<(Instruction, usize), String>, r2: Result<
        (Instruction, usize),
        String,
    >|
        b1@ == b2@ && #[trigger] decode.ensures((b1,), r1) && #[trigger] decode.ensures((b2,), r2)
            ==> r1 == r2
}

proof fn lemma_decodes_unique<D>(
    decode: D,
    m: Seq<u16>,
    addr: u16,
    d1: Result<(Instruction, u16), String>,
    d2: Result<(Instruction, u16), String>,
)
    where
        D: Fn([u8; 4]) -> Result<(Instruction, usize), String>,
    requires
        decoder_is_function(decode),
        decodes(decode, m, addr, d1),
        decodes(decode, m, addr, d2),
    ensures
        d1 == d2,
{
    let (b1, r1) = choose|b: [u8; 4], raw: Result<(Instruction, usize), String>|
        b@ == fetch_image(m, addr) && #[trigger] decode.ensures((b,), raw) && d1
            == decoded_in_words(raw);
    let (b2, r2) = choose|b: [u8; 4], raw: Result<(Instruction, usize), String>|
        b@ == fetch_image(m, addr) && #[trigger] decode.ensures((b,), raw) && d2
            == decoded_in_words(raw);
    assert(r1 == r2);
}

/// With such a decoder a step has one outcome.
pub proof fn law_step_deterministic<D>(
    decode: D,
    s: CpuView,
    m: Seq<u16>,
    s2: CpuView,
    m2: Seq<u16>,
    r2: Result<(), ExecError>,
    s3: CpuView,
    m3: Seq<u16>,
    r3: Result<(), ExecError>,
)
    where
        D: Fn([u8; 4]) -> Result<(Instruction, usize), String>,
    requires
        decoder_is_function(decode),
        step_relation(decode, s, m, s2, m2, r2),
        step_relation(decode, s, m, s3, m3, r3),
    ensures
        s2 == s3,
        m2 == m3,
        r2 == r3,
{
    if !s.halted {
        let (d, next, d2) = lemma_step_cases(decode, s, m, s2, m2, r2);
        let (e, next_e, e2) = lemma_step_cases(decode, s, m, s3, m3, r3);
        lemma_decodes_unique(decode, m, s.iar, d, e);
        if let Ok((insn, n)) = d {
            if needs_next_size(insn) {
                lemma_decodes_unique(decode, m, advanced(s, n).iar, d2, e2);
            }
        }
    }
}

/// With such a decoder, a step that decodes an instruction of `n` words
/// at IAR moves IAR past it, `n` words on (modulo 2^16), unless the
/// instruction is a branch, a skip or a call (BSC, BSI, MDX), and counts
/// one instruction.
pub proof fn law_step_moves_past<D>(
    decode: D,
    s: CpuView,
    m: Seq<u16>,
    insn: Instruction,
    n: u16,
    s2: CpuView,
    m2: Seq<u16>,
    r: Result<(), ExecError>,
)
    where
        D: Fn([u8; 4]) -> Result<(Instruction, usize), String>,
    requires
        decoder_is_function(decode),
        !s.halted,
        s.instr_count < u64::MAX,
        decodes(decode, m, s.iar, Ok((insn, n))),
        step_relation(decode, s, m, s2, m2, r),
    ensures
        s2.instr_count == s.instr_count + 1,
        insn.op() != Opcode::BranchSkipCondition && insn.op() != Opcode::BranchStore && insn.op()
            != Opcode::ModifyIndex ==> s2.iar as int == (s.iar + n) % 0x1_0000,
{
    let (d, next, _) = lemma_step_cases(decode, s, m, s2, m2, r);
    lemma_decodes_unique(decode, m, s.iar, d, Ok((insn, n)));
    law_execute_frame(advanced(s, n), m, insn, next);
    reveal(execute_spec);
}

proof fn lemma_trace_prefix<D>(
    decode: D,
    states: Seq<CpuView>,
    mems: Seq<Seq<u16>>,
    s0: CpuView,
    m0: Seq<u16>,
    k: nat,
    s: CpuView,
    m: Seq<u16>,
    j: nat,
)
    where
        D: Fn([u8; 4]) -> Result<(Instruction, usize), String>,
    requires
        is_trace(decode, states, mems, s0, m0, k, s, m),
        j <= k,
    ensures
        runs(decode, s0, m0, j, states[j as int], mems[j as int]),
        runs(decode, states[j as int], mems[j as int], (k - j) as nat, s, m),
{
    let p = states.subrange(0, j + 1int);
    let q = mems.subrange(0, j + 1int);
    assert forall|i: int| 0 <= i < j implies #[trigger] steps_to(
        decode,
        p[i],
        q[i],
        p[i + 1],
        q[i + 1],
    ) by {
        lemma_trace_step(decode, states, mems, s0, m0, k, s, m, i);
    }
    assert(is_trace(decode, p, q, s0, m0, j, states[j as int], mems[j as int]));
    let p2 = states.subrange(j as int, k + 1int);
    let q2 = mems.subrange(j as int, k + 1int);
    assert forall|i: int| 0 <= i < k - j implies #[trigger] steps_to(
        decode,
        p2[i],
        q2[i],
        p2[i + 1],
        q2[i + 1],
    ) by {
        lemma_trace_step(decode, states, mems, s0, m0, k, s, m, i + j);
        assert(p2[i] == states[i + j] && p2[i + 1] == states[i + j + 1]);
    }
    assert(is_trace(
        decode,
        p2,
        q2,
        states[j as int],
        mems[j as int],
        (k - j) as nat,
        s,
        m,
    ));
}

proof fn lemma_traces_agree<D>(
    decode: D,
    t1: Seq<CpuView>,
    u1: Seq<Seq<u16>>,
    t2: Seq<CpuView>,
    u2: Seq<Seq<u16>>,
    s0: CpuView,
    m0: Seq<u16>,
    k: nat,
    s1: CpuView,
    m1: Seq<u16>,
    s2: CpuView,
    m2: Seq<u16>,
    i: nat,
)
    where
        D: Fn([u8; 4]) -> Result<(Instruction, usize), String>,
    requires
        decoder_is_function(decode),
        is_trace(decode, t1, u1, s0, m0, k, s1, m1),
        is_trace(decode, t2, u2, s0, m0, k, s2, m2),
        i <= k,
    ensures
        t1[i as int] == t2[i as int],
        u1[i as int] == u2[i as int],
    decreases i,
{
    if i > 0 {
        let j = (i - 1) as nat;
        lemma_traces_agree(decode, t1, u1, t2, u2, s0, m0, k, s1, m1, s2, m2, j);
        lemma_trace_step(decode, t1, u1, s0, m0, k, s1, m1, j as int);
        lemma_trace_step(decode, t2, u2, s0, m0, k, s2, m2, j as int);
        assert(j + 1 == i);
        let r1 = choose|r: Result<(), ExecError>|
            #[trigger] step_relation(
                decode,
                t1[j as int],
                u1[j as int],
                t1[j + 1int],
                u1[j + 1int],
                r,
            ) && r is Ok;
        let r2 = choose|r: Result<(), ExecError>|
            #[trigger] step_relation(
                decode,
                t2[j as int],
                u2[j as int],
                t2[j + 1int],
                u2[j + 1int],
                r,
            ) && r is Ok;
        law_step_deterministic(
            decode,
            t1[j as int],
            u1[j as int],
            t1[j + 1int],
            u1[j + 1int],
            r1,
            t2[j + 1int],
            u2[j + 1int],
            r2,
        );
    }
}

/// With such a decoder, runs of the same length from the same start end
/// in the same state and memory.
pub proof fn law_runs_deterministic<D>(
    decode: D,
    s0: CpuView,
    m0: Seq<u16>,
    k: nat,
    s1: CpuView,
    m1: Seq<u16>,
    s2: CpuView,
    m2: Seq<u16>,
)
    where
        D: Fn([u8; 4]) -> Result<(Instruction, usize), String>,
    requires
        decoder_is_function(decode),
        runs(decode, s0, m0, k, s1, m1),
        runs(decode, s0, m0, k, s2, m2),
    ensures
        s1 == s2,
        m1 == m2,
{
    let (t1, u1) = choose|states: Seq<CpuView>, mems: Seq<Seq<u16>>|
        #[trigger] is_trace(decode, states, mems, s0, m0, k, s1, m1);
    let (t2, u2) = choose|states: Seq<CpuView>, mems: Seq<Seq<u16>>|
        #[trigger] is_trace(decode, states, mems, s0, m0, k, s2, m2);
    lemma_traces_agree(decode, t1, u1, t2, u2, s0, m0, k, s1, m1, s2, m2, k);
}

/// A run of `k` steps passes, after `j <= k` steps, through a state from
/// which the remaining `k - j` steps lead to its end.
pub proof fn law_runs_split<D>(
    decode: D,
    s0: CpuView,
    m0: Seq<u16>,
    k: nat,
    s: CpuView,
    m: Seq<u16>,
    j: nat,
) -> (mid: (CpuView, Seq<u16>))
    where
        D: Fn([u8; 4]) -> Result<(Instruction, usize), String>,
    requires
        runs(decode, s0, m0, k, s, m),
        j <= k,
    ensures
        runs(decode, s0, m0, j, mid.0, mid.1),
        runs(decode, mid.0, mid.1, (k - j) as nat, s, m),
{
    let (t, u) = choose|states: Seq<CpuView>, mems: Seq<Seq<u16>>|
        #[trigger] is_trace(decode, states, mems, s0, m0, k, s, m);
    lemma_trace_prefix(decode, t, u, s0, m0, k, s, m, j);
    (t[j as int], u[j as int])
}

/// With such a decoder, what `run` may return on success is one outcome:
/// the same count, state and memory.
pub proof fn law_ran_deterministic<D>(
    decode: D,
    s0: CpuView,
    m0: Seq<u16>,
    max_steps: nat,
    n1: nat,
    s1: CpuView,
    m1: Seq<u16>,
    n2: nat,
    s2: CpuView,
    m2: Seq<u16>,
)
    where
        D: Fn([u8; 4]) -> Result<(Instruction, usize), String>,
    requires
        decoder_is_function(decode),
        ran(decode, s0, m0, max_steps, n1, s1, m1),
        ran(decode, s0, m0, max_steps, n2, s2, m2),
    ensures
        n1 == n2,
        s1 == s2,
        m1 == m2,
{
    if n1 < n2 {
        let (t, u) = law_runs_split(decode, s0, m0, n2, s2, m2, n1);
        law_runs_deterministic(decode, s0, m0, n1, s1, m1, t, u);
        law_halted_run(decode, t, u, (n2 - n1) as nat, s2, m2);
    } else if n2 < n1 {
        let (t, u) = law_runs_split(decode, s0, m0, n1, s1, m1, n2);
        law_runs_deterministic(decode, s0, m0, n2, s2, m2, t, u);
        law_halted_run(decode, t, u, (n1 - n2) as nat, s1, m1);
    } else {
        law_runs_deterministic(decode, s0, m0, n1, s1, m1, s2, m2);
    }
}

/// With such a decoder, `run` cannot both succeed and fail from the same
/// start with the same budget.
pub proof fn law_ran_excludes_failed<D>(
    decode: D,
    s0: CpuView,
    m0: Seq<u16>,
    max_steps: nat,
    n: nat,
    s: CpuView,
    m: Seq<u16>,
    e: ExecError,
    sf: CpuView,
    mf: Seq<u16>,
)
    where
        D: Fn([u8; 4]) -> Result<(Instruction, usize), String>,
    requires
        decoder_is_function(decode),
        ran(decode, s0, m0, max_steps, n, s, m),
    ensures
        !run_failed(decode, s0, m0, max_steps, e, sf, mf),
{
    if run_failed(decode, s0, m0, max_steps, e, sf, mf) {
        let (k, s1, m1) = choose|k: nat, s1: CpuView, m1: Seq<u16>|
            {
                &&& k < max_steps
                &&& #[trigger] runs(decode, s0, m0, k, s1, m1)
                &&& !s1.halted
                &&& step_relation(decode, s1, m1, sf, mf, Err(e))
            };
        if k < n {
            let (t, u) = law_runs_split(decode, s0, m0, n, s, m, k);
            law_runs_deterministic(decode, s0, m0, k, s1, m1, t, u);
            let (t1, u1) = law_runs_split(decode, t, u, (n - k) as nat, s, m, 1);
            let (states, mems) = choose|states: Seq<CpuView>, mems: Seq<Seq<u16>>|
                #[trigger] is_trace(decode, states, mems, t, u, 1, t1, u1);
            lemma_trace_step(decode, states, mems, t, u, 1, t1, u1, 0);
            let r = choose|r: Result<(), ExecError>|
                #[trigger] step_relation(decode, states[0], mems[0], states[1], mems[1], r) && r is Ok;
            law_step_deterministic(decode, t, u, t1, u1, r, sf, mf, Err(e));
        } else {
            let (t, u) = law_runs_split(decode, s0, m0, k, s1, m1, n);
            law_runs_deterministic(decode, s0, m0, n, s, m, t, u);
            law_halted_run(decode, t, u, (k - n) as nat, s1, m1);
        }
    }
}

/// With such a decoder, running with a budget of `a` and then `b` ends
/// exactly where one run with a budget of `a + b` ends: that run succeeds
/// with `n1 + n2` instructions, in the same state and memory, and cannot
/// fail.
pub proof fn law_run_in_two_slices_exact<D>(
    decode: D,
    s0: CpuView,
    m0: Seq<u16>,
    a: nat,
    n1: nat,
    s1: CpuView,
    m1: Seq<u16>,
    b: nat,
    n2: nat,
    s2: CpuView,
    m2: Seq<u16>,
)
    where
        D: Fn([u8; 4]) -> Result<(Instruction, usize), String>,
    requires
        decoder_is_function(decode),
        ran(decode, s0, m0, a, n1, s1, m1),
        ran(decode, s1, m1, b, n2, s2, m2),
    ensures
        forall|n: nat, s: CpuView, m: Seq<u16>|
            #[trigger] ran(decode, s0, m0, a + b, n, s, m) ==> n == n1 + n2 && s == s2 && m == m2,
        forall|e: ExecError, s: CpuView, m: Seq<u16>|
            !#[trigger] run_failed(decode, s0, m0, a + b, e, s, m),
{
    law_run_in_two_slices(decode, s0, m0, a, n1, s1, m1, b, n2, s2, m2);
    assert forall|n: nat, s: CpuView, m: Seq<u16>|
        #[trigger] ran(decode, s0, m0, a + b, n, s, m) implies n == n1 + n2 && s == s2 && m
        == m2 by {
        law_ran_deterministic(decode, s0, m0, a + b, n, s, m, n1 + n2, s2, m2);
    }
    assert forall|e: ExecError, s: CpuView, m: Seq<u16>|
        !#[trigger] run_failed(decode, s0, m0, a + b, e, s, m) by {
        law_ran_excludes_failed(decode, s0, m0, a + b, n1 + n2, s2, m2, e, s, m);
    }
}

/// Run until the CPU halts (Wait instruction) or `max_steps`
/// instructions have run; `decode` decodes each instruction. Returns the
/// number of instructions executed, or the first error a step gives.
pub fn run<D>(state: &mut CpuState, mem: &mut Memory, max_steps: u64, decode: &D) -> (r: Result<
    u64,
    ExecError,
>)
    where
        D: Fn([u8; 4]) -> Result<(Instruction, usize), String>,
    requires
        forall|b: [u8; 4]| decode.requires((b,)),
        run_safe(*decode, old(state)@, old(mem)@, max_steps as nat),
    ensures
        final(mem)@.len() == old(mem)@.len(),
        match r {
            Ok(n) => ran(
                *decode,
                old(state)@,
                old(mem)@,
                max_steps as nat,
                n as nat,
                final(state)@,
                final(mem)@,
            ),
            Err(e) => (e is Decode || e is DivideByZero) && run_failed(
                *decode,
                old(state)@,
                old(mem)@,
                max_steps as nat,
                e,
                final(state)@,
                final(mem)@,
            ),
        },
{
    let ghost s0 = state@;
    let ghost m0 = mem@;
    let ghost mut states: Seq<CpuView> = seq![s0];
    let ghost mut mems: Seq<Seq<u16>> = seq![m0];
    let start = state.instr_count;
    assert(is_trace(*decode, states, mems, s0, m0, 0, s0, m0));
    while !state.halted && state.instr_count - start < max_steps
        invariant
            forall|b: [u8; 4]| decode.requires((b,)),
            run_safe(*decode, s0, m0, max_steps as nat),
            s0 == old(state)@,
            m0 == old(mem)@,
            start == s0.instr_count,
            start <= state.instr_count,
            state.instr_count - start <= max_steps,
            is_trace(
                *decode,
                states,
                mems,
                s0,
                m0,
                (state.instr_count - start) as nat,
                state@,
                mem@,
            ),
            mem@.len() == m0.len(),
        decreases max_steps - (state.instr_count - start),
    {
        let ghost k = (state.instr_count - start) as nat;
        let ghost sp = state@;
        let ghost mp = mem@;
        assert(runs(*decode, s0, m0, k, sp, mp));
        let stepped = step(state, mem, decode);
        match stepped {
            Ok(()) => {
                proof {
                    lemma_step_counts(*decode, sp, mp, state@, mem@, stepped);
                    assert(steps_to(*decode, sp, mp, state@, mem@));
                    let states2 = states.push(state@);
                    let mems2 = mems.push(mem@);
                    assert forall|i: int| 0 <= i < k + 1 implies #[trigger] steps_to(
                        *decode,
                        states2[i],
                        mems2[i],
                        states2[i + 1],
                        mems2[i + 1],
                    ) by {
                        if i < k {
                            assert(steps_to(*decode, states[i], mems[i], states[i + 1], mems[i + 1]));
                        }
                    }
                    states = states2;
                    mems = mems2;
                }
            },
            Err(e) => {
                proof {
                    law_step_frame(*decode, sp, mp, state@, mem@, stepped);
                }
                return Err(e);
            },
        }
    }
    assert(runs(*decode, s0, m0, (state.instr_count - start) as nat, state@, mem@));
    Ok(state.instr_count - start)
}

} // verus!
