//! Decoded instructions of the IBM 1130 subset that the emulator runs.
use vstd::prelude::*;

verus! {

/// The operations of the subset.
#[derive(Debug, Clone, Copy, PartialEq, Eq, Structural)]
pub enum Opcode {
    Load,
    LoadDouble,
    Store,
    StoreDouble,
    LoadIndex,
    StoreIndex,
    LoadStatus,
    StoreStatus,
    Add,
    AddDouble,
    Subtract,
    SubtractDouble,
    Multiply,
    Divide,
    And,
    Or,
    ExclusiveOr,
    ShiftLeft,
    ShiftRight,
    BranchSkipCondition,
    BranchStore,
    ModifyIndex,
    Wait,
    ExecuteInputOutput,
}

/// A decoded instruction: the one-word short form, whose second byte is
/// a signed displacement, or the two-word long form, which carries an
/// indirect bit, a condition mask and a full address.
#[derive(Debug, Clone, Copy, PartialEq, Eq, Structural)]
pub enum Instruction {
    Short { op: Opcode, tag: u8, disp: i8 },
    Long { op: Opcode, tag: u8, indirect: bool, mask: u8, address: u16 },
}

impl Instruction {
    /// The operation.
    #[verifier::allow_in_spec]
    pub fn op(&self) -> Opcode
        returns
            (match self {
                Instruction::Short { op, .. } => *op,
                Instruction::Long { op, .. } => *op,
            }),
    {
        match self {
            Instruction::Short { op, .. } => *op,
            Instruction::Long { op, .. } => *op,
        }
    }

    /// The tag field, which selects an index register (1..=3) or none (0).
    #[verifier::allow_in_spec]
    pub fn tag(&self) -> u8
        returns
            (match self {
                Instruction::Short { tag, .. } => *tag,
                Instruction::Long { tag, .. } => *tag,
            }),
    {
        match self {
            Instruction::Short { tag, .. } => *tag,
            Instruction::Long { tag, .. } => *tag,
        }
    }

    /// True for the two-word long form.
    #[verifier::allow_in_spec]
    pub fn is_long(&self) -> bool
        returns
            self is Long,
    {
        match self {
            Instruction::Short { .. } => false,
            Instruction::Long { .. } => true,
        }
    }

    /// The indirect bit; the short form has none and reads as `false`.
    #[verifier::allow_in_spec]
    pub fn indirect(&self) -> bool
        returns
            (match self {
                Instruction::Short { .. } => false,
                Instruction::Long { indirect, .. } => *indirect,
            }),
    {
        match self {
            Instruction::Short { .. } => false,
            Instruction::Long { indirect, .. } => *indirect,
        }
    }

    /// The displacement byte of the short form; 0 for the long form.
    #[verifier::allow_in_spec]
    pub fn short_disp(&self) -> i8
        returns
            (match self {
                Instruction::Short { disp, .. } => *disp,
                Instruction::Long { .. } => 0i8,
            }),
    {
        match self {
            Instruction::Short { disp, .. } => *disp,
            Instruction::Long { .. } => 0,
        }
    }

    /// The condition mask of the long form (BSC / BSI); 0 for the short
    /// form, which carries no mask of its own: there the displacement
    /// byte is the mask.
    #[verifier::allow_in_spec]
    pub fn long_mask(&self) -> u8
        returns
            (match self {
                Instruction::Short { .. } => 0u8,
                Instruction::Long { mask, .. } => *mask,
            }),
    {
        match self {
            Instruction::Short { .. } => 0,
            Instruction::Long { mask, .. } => *mask,
        }
    }
}

} // verus!
