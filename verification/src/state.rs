//! IBM 1130 CPU state.
//!
//! All registers are 16 bits. ACC and EXT pair as a 32-bit value for
//! double-precision ops. XR1..XR3 are the index registers. IAR is the
//! program counter. Carry and Overflow are sticky condition flags
//! maintained by arithmetic ops; BSC reads them.
use vstd::prelude::*;
use crate::word::{fits_i32, high_word, join_pair, lemma_split_join, low_word, pair_value, split_pair};

verus! {

/// The registers, flags and console of the CPU.
#[derive(Debug, Clone)]
pub struct CpuState {
    pub acc: u16,
    pub ext: u16,
    pub xr1: u16,
    pub xr2: u16,
    pub xr3: u16,
    pub iar: u16,
    pub carry: bool,
    pub overflow: bool,
    pub halted: bool,
    /// Instruction count: guards against runaway programs.
    pub instr_count: u64,
    /// Bytes typed on the console printer, in order.
    pub console_output: Vec<u8>,
}

/// The mathematical model of a `CpuState`: the same registers, with the
/// console as a sequence of bytes.
#[verifier::ext_equal]
pub struct CpuView {
    pub acc: u16,
    pub ext: u16,
    pub xr1: u16,
    pub xr2: u16,
    pub xr3: u16,
    pub iar: u16,
    pub carry: bool,
    pub overflow: bool,
    pub halted: bool,
    pub instr_count: u64,
    pub console: Seq<u8>,
}

impl View for CpuState {
    type V = CpuView;

    open spec fn view(&self) -> CpuView {
        CpuView {
            acc: self.acc,
            ext: self.ext,
            xr1: self.xr1,
            xr2: self.xr2,
            xr3: self.xr3,
            iar: self.iar,
            carry: self.carry,
            overflow: self.overflow,
            halted: self.halted,
            instr_count: self.instr_count,
            console: self.console_output@,
        }
    }
}

impl CpuView {
    /// The power-on state: every register zero, no flag set, nothing typed.
    pub open spec fn reset() -> CpuView {
        CpuView {
            acc: 0,
            ext: 0,
            xr1: 0,
            xr2: 0,
            xr3: 0,
            iar: 0,
            carry: false,
            overflow: false,
            halted: false,
            instr_count: 0,
            console: Seq::empty(),
        }
    }

    /// The index register that `tag` selects; tags other than 1..=3
    /// select no register and read as 0.
    pub open spec fn xr(self, tag: u8) -> u16 {
        if tag == 1 {
            self.xr1
        } else if tag == 2 {
            self.xr2
        } else if tag == 3 {
            self.xr3
        } else {
            0
        }
    }

    /// This state with the index register that `tag` selects set to `v`;
    /// unchanged for tags other than 1..=3.
    pub open spec fn with_xr(self, tag: u8, v: u16) -> CpuView {
        if tag == 1 {
            CpuView { xr1: v, ..self }
        } else if tag == 2 {
            CpuView { xr2: v, ..self }
        } else if tag == 3 {
            CpuView { xr3: v, ..self }
        } else {
            self
        }
    }

    /// The signed 32-bit value of (ACC, EXT).
    pub open spec fn pair(self) -> int {
        pair_value(self.acc, self.ext)
    }

    /// This state with (ACC, EXT) holding the 32-bit representation of `v`
    /// (taken modulo 2^32).
    pub open spec fn with_pair(self, v: int) -> CpuView {
        CpuView { acc: high_word(v), ext: low_word(v), ..self }
    }
}

impl Default for CpuState {
    fn default() -> (s: CpuState)
        ensures
            s@ == CpuView::reset(),
    {
        CpuState {
            acc: 0,
            ext: 0,
            xr1: 0,
            xr2: 0,
            xr3: 0,
            iar: 0,
            carry: false,
            overflow: false,
            halted: false,
            instr_count: 0,
            console_output: Vec::new(),
        }
    }
}

impl CpuState {
    /// The power-on state.
    pub fn new() -> (s: CpuState)
        ensures
            s@ == CpuView::reset(),
    {
        Self::default()
    }

    /// Read the index register selected by `tag` (1..=3). Tag 0 means
    /// "no XR" and reads as 0, as does any other tag, so that an
    /// effective address with tag 0 is just the base address.
    pub fn read_xr(&self, tag: u8) -> (v: u16)
        ensures
            v == self@.xr(tag),
    {
        match tag {
            1 => self.xr1,
            2 => self.xr2,
            3 => self.xr3,
            _ => 0,
        }
    }

    /// Write the index register selected by `tag` (1..=3); any other
    /// tag changes nothing.
    pub fn write_xr(&mut self, tag: u8, v: u16)
        ensures
            final(self)@ == old(self)@.with_xr(tag, v),
    {
        match tag {
            1 => self.xr1 = v,
            2 => self.xr2 = v,
            3 => self.xr3 = v,
            _ => {},
        }
    }

    /// The 32-bit pair (ACC high, EXT low) used by M/D/LDD/STD, as a
    /// signed value.
    pub fn read_pair(&self) -> (v: i32)
        ensures
            v as int == self@.pair(),
    {
        join_pair(self.acc, self.ext)
    }

    /// Set (ACC, EXT) to the two halves of `v`.
    pub fn write_pair(&mut self, v: i32)
        ensures
            final(self)@ == old(self)@.with_pair(v as int),
    {
        let (hi, lo) = split_pair(v);
        self.acc = hi;
        self.ext = lo;
    }
}

/// Reading an index register after writing it gives back the written
/// value for tags 1..=3 and 0 for any other tag; the other index
/// registers and all other fields are unchanged.
pub proof fn law_xr_write_read(s: CpuView, tag: u8, other: u8, v: u16)
    requires
        other != tag,
    ensures
        s.with_xr(tag, v).xr(tag) == (if 1 <= tag <= 3 { v } else { 0u16 }),
        s.with_xr(tag, v).xr(other) == s.xr(other),
        s.with_xr(tag, v).acc == s.acc && s.with_xr(tag, v).ext == s.ext,
        s.with_xr(tag, v).iar == s.iar,
{
}

/// Reading the pair after writing a 32-bit value gives that value back.
pub proof fn law_pair_write_read(s: CpuView, v: int)
    requires
        fits_i32(v),
    ensures
        s.with_pair(v).pair() == v,
{
    lemma_split_join(v);
}

} // verus!
