//! Function codes embedded in the IOCC's second word: the low 3 bits of
//! its high byte.
use vstd::prelude::*;

verus! {

pub const WRITE: u8 = 0;

pub const _READ: u8 = 1;

pub const _SENSE_INTERRUPT: u8 = 2;

pub const _CONTROL: u8 = 3;

pub const _SENSE_DEVICE: u8 = 4;

pub const _INIT_WRITE: u8 = 5;

pub const _INIT_READ: u8 = 6;

} // verus!
