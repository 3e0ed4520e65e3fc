use vstd::prelude::*;

verus! {

/// The fatal conditions that end a parse or a run.
#[derive(Debug, Clone, Copy, PartialEq, Eq, Structural)]
pub enum Fault {
    /// A loop boundary has no partner.
    UnmatchedBracket,
    /// A move would take the cursor below cell 0.
    PointerUnderflow,
    /// More instructions are due than the step budget allows.
    StepBudgetExceeded,
}

} // verus!
