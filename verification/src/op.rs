use vstd::prelude::*;

verus! {

/// One cell of the tape.
pub type CellData = u8;

/// The value an `Input` instruction stores once the input is used up.
pub const INPUT_END_VAL: CellData = 255;

/// The two identifiers carried by a loop boundary.
///
/// Identifiers are handed out from 1 upwards, one per loop. The opening
/// boundary of loop `n` carries `here == n` and `jump_to == -n`; the closing
/// boundary carries `here == -n` and `jump_to == n`.
#[derive(Debug, Clone, Copy, PartialEq, Eq, Structural)]
pub struct Jump {
    /// The identifier of this boundary.
    pub here: i128,
    /// The identifier of the boundary that control may be transferred to.
    pub jump_to: i128,
}

/// One instruction of a program.
#[derive(Debug, Clone, Copy, PartialEq, Eq, Structural)]
pub enum Op {
    /// Add the amount to the current cell, modulo 256.
    Add(CellData),
    /// Subtract the amount from the current cell, modulo 256.
    Sub(CellData),
    /// Move the cursor by the signed offset.
    Move(isize),
    /// Opening boundary of a loop: taken when the current cell is zero.
    JumpIfZero(Jump),
    /// Closing boundary of a loop: taken when the current cell is not zero.
    JumpIfNonZero(Jump),
    /// Read one byte of input into the current cell.
    Input,
    /// Append the current cell to the output.
    Output,
}

/// The identifier under which an instruction is entered in the jump table,
/// if it is a loop boundary.
pub open spec fn boundary_id(op: Op) -> Option<i128> {
    match op {
        Op::JumpIfZero(j) => Some(j.here),
        Op::JumpIfNonZero(j) => Some(j.here),
        _ => None,
    }
}

} // verus!
