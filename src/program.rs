use vstd::prelude::*;

verus! {

/// The kind of a bytecode instruction.
#[derive(Clone, Copy, PartialEq, Eq, Debug, Structural)]
pub enum Instruction {
    Add,
    Sub,
    MoveRight,
    MoveLeft,
    Output,
    Input,
    JumpIfZero,
    JumpIfNotZero,
}

/// One bytecode instruction. For the six non-jump kinds `argument` is a repeat
/// count; for a jump it is the index of the matching jump.
#[derive(Clone, Copy, PartialEq, Eq, Debug, Structural)]
pub struct FoldedInstruction {
    pub instruction: Instruction,
    pub argument: usize,
}

impl FoldedInstruction {
    pub fn new(i: Instruction, arg: usize) -> (r: FoldedInstruction)
        ensures
            r == (FoldedInstruction { instruction: i, argument: arg }),
    {
        FoldedInstruction { instruction: i, argument: arg }
    }
}

/// Everything that can go wrong while compiling or running a program.
#[derive(Clone, Copy, PartialEq, Eq, Debug, Structural)]
pub enum BfError {
    /// A `[` in the source has no matching `]`.
    UnmatchedBracket,
    /// The data pointer would leave the tape.
    TapeBounds,
    /// An input instruction needs a byte and none is left.
    InputExhausted,
    /// The machine ran the whole step budget without halting.
    StepLimitReached,
}

} // verus!
