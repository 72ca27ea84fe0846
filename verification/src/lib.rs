//! `sw_ibm1130_emulator`: IBM 1130 instruction execution.
//!
//! A minimal emulator covering the instruction subset that the IBM 1130
//! code generator produces: word-addressed memory, the CPU register file,
//! and the execution of decoded instructions. The instruction decoder is
//! supplied by the caller as a function from the four bytes at an address
//! to the instruction there and its length in bytes. See `exec` for the
//! BSC mask semantics that this crate pins.
pub mod exec;
pub mod insn;
pub mod laws;
pub mod memory;
pub mod state;
pub mod word;

pub use exec::{ExecError, execute, run, step};
pub use insn::{Instruction, Opcode};
pub use memory::Memory;
pub use state::CpuState;

use vstd::prelude::*;

verus! {

/// Run until the CPU halts or `max_steps` instructions have run, decoding
/// with `decode`; returns the number of instructions executed. The same
/// as `run`.
pub fn run_until_halt<D>(state: &mut CpuState, mem: &mut Memory, max_steps: u64, decode: &D) -> (r:
    Result<u64, ExecError>)
    where
        D: Fn([u8; 4]) -> Result<(Instruction, usize), String>,
    requires
        forall|b: [u8; 4]| decode.requires((b,)),
        exec::run_safe(*decode, old(state)@, old(mem)@, max_steps as nat),
    ensures
        final(mem)@.len() == old(mem)@.len(),
        match r {
            Ok(n) => exec::ran(
                *decode,
                old(state)@,
                old(mem)@,
                max_steps as nat,
                n as nat,
                final(state)@,
                final(mem)@,
            ),
            Err(e) => (e is Decode || e is DivideByZero) && exec::run_failed(
                *decode,
                old(state)@,
                old(mem)@,
                max_steps as nat,
                e,
                final(state)@,
                final(mem)@,
            ),
        },
{
    run(state, mem, max_steps, decode)
}

} // verus!
