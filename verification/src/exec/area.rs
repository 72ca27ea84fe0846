//! Area codes for the minimal device subsystem. The historical 1130 FC
//! manual assigns specific values per device; these are the choices made
//! for the bring-up demos and may shift when a real I/O subsystem lands.
use vstd::prelude::*;

verus! {

/// 1054 / console Selectric printer (the operator typewriter integrated
/// into the 1131 CPU). Area code 1 in this emulator.
pub const CONSOLE: u8 = 1;

} // verus!
