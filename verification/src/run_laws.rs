use crate::fault::Fault;
use crate::jump_map::lemma_resolve_is_last;
use crate::machine::{grow, wrap_add, wrap_sub, Machine};
use crate::op::{CellData, Op, INPUT_END_VAL};
use crate::pairing::{is_pair, jumps_resolved, lemma_parsed_jumps_are_resolved};
use crate::parse::parsed;
use vstd::prelude::*;

verus! {

impl Machine {
    /// The machine after exactly `count` instructions, or `None` when the
    /// run halts or faults before `count` instructions have been executed.
    pub open spec fn after(self, program: Seq<Op>, input: Seq<CellData>, count: nat) -> Option<
        Machine,
    >
        decreases count,
    {
        if count == 0 {
            Some(self)
        } else if self.inst_ptr >= program.len() {
            None
        } else {
            match self.step(program, input) {
                Ok(next) => next.after(program, input, (count - 1) as nat),
                Err(_) => None,
            }
        }
    }
}

/// Adding and subtracting the same amount cancel out, in either order, and
/// both wrap around: one below 0 is 255 and one above 255 is 0.
pub proof fn lemma_wrap_round_trip(cell: CellData, amount: CellData)
    ensures
        wrap_sub(wrap_add(cell, amount), amount) == cell,
        wrap_add(wrap_sub(cell, amount), amount) == cell,
        wrap_sub(0, 1) == 255,
        wrap_add(255, 1) == 0,
{
}

/// An instruction executed on a well-formed machine leaves a well-formed
/// machine.
pub proof fn lemma_step_keeps_wf(machine: Machine, program: Seq<Op>, input: Seq<CellData>)
    requires
        machine.wf(),
        machine.inst_ptr < program.len(),
    ensures
        machine.step(program, input) matches Ok(next) ==> next.wf(),
{
    match program[machine.inst_ptr] {
        Op::JumpIfZero(jump) => {
            lemma_resolve_is_last(program, jump.jump_to);
        },
        Op::JumpIfNonZero(jump) => {
            lemma_resolve_is_last(program, jump.jump_to);
        },
        _ => {},
    }
}

/// A move to the right never fails: the tape keeps every cell it had and
/// gets as many zero cells as are needed to hold the cursor. A move fails
/// exactly when it would take the cursor below cell 0.
pub proof fn lemma_move_extends_tape(
    machine: Machine,
    program: Seq<Op>,
    input: Seq<CellData>,
    offset: isize,
)
    requires
        machine.wf(),
        machine.inst_ptr < program.len(),
        program[machine.inst_ptr] == Op::Move(offset),
    ensures
        machine.tape_ptr + offset < 0 <==> machine.step(program, input) == Err::<Machine, Fault>(
            Fault::PointerUnderflow,
        ),
        machine.tape_ptr + offset >= 0 ==> {
            &&& machine.step(program, input) matches Ok(next)
            &&& next.tape_ptr == machine.tape_ptr + offset
            &&& next.inst_ptr == machine.inst_ptr + 1
            &&& next.tape.len() == if next.tape_ptr < machine.tape.len() {
                machine.tape.len()
            } else {
                (next.tape_ptr + 1) as nat
            }
            &&& next.tape.take(machine.tape.len() as int) == machine.tape
            &&& forall|i: int| machine.tape.len() <= i < next.tape.len() ==> next.tape[i] == 0
            &&& next.input_ptr == machine.input_ptr
            &&& next.output == machine.output
        },
{
}

/// Reading when the input is used up stores 255 in the current cell, is no
/// fault, and consumes nothing.
pub proof fn lemma_exhausted_input_stores_sentinel(
    machine: Machine,
    program: Seq<Op>,
    input: Seq<CellData>,
)
    requires
        machine.wf(),
        machine.inst_ptr < program.len(),
        program[machine.inst_ptr] == Op::Input,
        machine.input_ptr >= input.len(),
    ensures
        machine.step(program, input) == Ok::<Machine, Fault>(
            machine.write(INPUT_END_VAL).advance(),
        ),
        machine.step(program, input)->Ok_0.cell() == 255,
        machine.step(program, input)->Ok_0.input_ptr == machine.input_ptr,
{
}

/// No run shortens the tape, takes back output, or un-reads input.
pub proof fn lemma_run_only_grows(
    machine: Machine,
    program: Seq<Op>,
    input: Seq<CellData>,
    fuel: nat,
)
    requires
        machine.wf(),
    ensures
        machine.run(program, input, fuel).machine.wf(),
        machine.run(program, input, fuel).machine.tape.len() >= machine.tape.len(),
        machine.run(program, input, fuel).machine.input_ptr >= machine.input_ptr,
        machine.run(program, input, fuel).machine.output.len() >= machine.output.len(),
        machine.run(program, input, fuel).machine.output.take(machine.output.len() as int)
            == machine.output,
    decreases fuel,
{
    if machine.inst_ptr < program.len() && fuel > 0 {
        if let Ok(next) = machine.step(program, input) {
            lemma_step_keeps_wf(machine, program, input);
            lemma_run_only_grows(next, program, input, (fuel - 1) as nat);
            let end = next.run(program, input, (fuel - 1) as nat).machine;
            assert(end.output.take(machine.output.len() as int) == end.output.take(
                next.output.len() as int,
            ).take(machine.output.len() as int));
        }
    }
}

/// The halted flag of a run's last state says whether the run ended
/// normally, and a run that ended normally has the instruction pointer
/// past the last instruction.
pub proof fn lemma_run_halted_flag(
    machine: Machine,
    program: Seq<Op>,
    input: Seq<CellData>,
    fuel: nat,
)
    ensures
        machine.run(program, input, fuel).machine.halted == (machine.run(
            program,
            input,
            fuel,
        ).result is Ok),
        machine.run(program, input, fuel).result is Ok ==> machine.run(
            program,
            input,
            fuel,
        ).machine.inst_ptr >= program.len(),
    decreases fuel,
{
    if machine.inst_ptr < program.len() && fuel > 0 {
        if let Ok(next) = machine.step(program, input) {
            lemma_run_halted_flag(next, program, input, (fuel - 1) as nat);
        }
    }
}

/// A run ends on the step budget exactly when `fuel` instructions can be
/// executed and another one is due after them. It then ends in the state
/// reached after exactly `fuel` instructions, no fewer and no more.
pub proof fn lemma_budget_is_spent_exactly(
    machine: Machine,
    program: Seq<Op>,
    input: Seq<CellData>,
    fuel: nat,
)
    ensures
        machine.run(program, input, fuel).result == Err::<(), Fault>(Fault::StepBudgetExceeded)
            <==> (machine.after(program, input, fuel) matches Some(last) && last.inst_ptr
            < program.len()),
        machine.run(program, input, fuel).result == Err::<(), Fault>(Fault::StepBudgetExceeded)
            ==> machine.run(program, input, fuel).machine == (Machine {
            halted: false,
            ..machine.after(program, input, fuel)->Some_0
        }),
    decreases fuel,
{
    if machine.inst_ptr < program.len() && fuel > 0 {
        if let Ok(next) = machine.step(program, input) {
            lemma_budget_is_spent_exactly(next, program, input, (fuel - 1) as nat);
        }
    }
}

/// A run that did not end on the step budget ends the same way under every
/// larger budget.
pub proof fn lemma_larger_budget_changes_nothing(
    machine: Machine,
    program: Seq<Op>,
    input: Seq<CellData>,
    fuel: nat,
    more: nat,
)
    requires
        machine.run(program, input, fuel).result != Err::<(), Fault>(Fault::StepBudgetExceeded),
        fuel <= more,
    ensures
        machine.run(program, input, more) == machine.run(program, input, fuel),
    decreases fuel,
{
    if machine.inst_ptr < program.len() && fuel > 0 {
        if let Ok(next) = machine.step(program, input) {
            lemma_larger_budget_changes_nothing(
                next,
                program,
                input,
                (fuel - 1) as nat,
                (more - 1) as nat,
            );
        }
    }
}

/// A run that ended on the step budget can be taken up again: running on
/// from its last state with `more` instructions allowed ends as one run
/// with both budgets together.
pub proof fn lemma_run_resumes(
    machine: Machine,
    program: Seq<Op>,
    input: Seq<CellData>,
    fuel: nat,
    more: nat,
)
    requires
        machine.run(program, input, fuel).result == Err::<(), Fault>(Fault::StepBudgetExceeded),
    ensures
        machine.run(program, input, fuel).machine.run(program, input, more) == machine.run(
            program,
            input,
            fuel + more,
        ),
    decreases fuel,
{
    if fuel == 0 {
        lemma_run_ignores_halted(machine, program, input, more, false);
    } else if let Ok(next) = machine.step(program, input) {
        lemma_run_resumes(next, program, input, (fuel - 1) as nat, more);
    }
}

/// A run does not depend on the halted flag it starts with.
pub proof fn lemma_run_ignores_halted(
    machine: Machine,
    program: Seq<Op>,
    input: Seq<CellData>,
    fuel: nat,
    halted: bool,
)
    ensures
        (Machine { halted, ..machine }).run(program, input, fuel) == machine.run(
            program,
            input,
            fuel,
        ),
    decreases fuel,
{
    if machine.inst_ptr < program.len() && fuel > 0 {
        lemma_step_carries_halted(machine, program, input, halted);
        if let Ok(next) = machine.step(program, input) {
            lemma_run_ignores_halted(next, program, input, (fuel - 1) as nat, halted);
        }
    }
}

/// An instruction neither reads nor writes the halted flag.
pub proof fn lemma_step_carries_halted(
    machine: Machine,
    program: Seq<Op>,
    input: Seq<CellData>,
    halted: bool,
)
    ensures
        match machine.step(program, input) {
            Ok(next) => (Machine { halted, ..machine }).step(program, input) == Ok::<
                Machine,
                Fault,
            >(Machine { halted, ..next }),
            Err(fault) => (Machine { halted, ..machine }).step(program, input) == Err::<
                Machine,
                Fault,
            >(fault),
        },
{
}

/// An opening boundary reached on a zero cell skips its loop: execution
/// goes on with the instruction behind the closing boundary. Reached on
/// any other cell it lets execution enter the loop.
pub proof fn lemma_opening_boundary(
    machine: Machine,
    program: Seq<Op>,
    input: Seq<CellData>,
    closing: int,
)
    requires
        is_pair(program, machine.inst_ptr, closing),
    ensures
        machine.step(program, input) == Ok::<Machine, Fault>(
            Machine {
                inst_ptr: if machine.cell() == 0 {
                    closing + 1
                } else {
                    machine.inst_ptr + 1
                },
                ..machine
            },
        ),
{
}

/// A closing boundary reached on a cell that is not zero repeats its loop:
/// execution goes on with the instruction behind the opening boundary.
/// Reached on a zero cell it lets execution leave the loop.
pub proof fn lemma_closing_boundary(
    machine: Machine,
    program: Seq<Op>,
    input: Seq<CellData>,
    opening: int,
)
    requires
        is_pair(program, opening, machine.inst_ptr),
    ensures
        machine.step(program, input) == Ok::<Machine, Fault>(
            Machine {
                inst_ptr: if machine.cell() != 0 {
                    opening + 1
                } else {
                    machine.inst_ptr + 1
                },
                ..machine
            },
        ),
{
}

/// A run of a program whose jumps all name a boundary it holds never ends
/// on an unmatched bracket.
pub proof fn lemma_resolved_jumps_never_fault(
    machine: Machine,
    program: Seq<Op>,
    input: Seq<CellData>,
    fuel: nat,
)
    requires
        machine.wf(),
        jumps_resolved(program),
    ensures
        machine.run(program, input, fuel).result != Err::<(), Fault>(Fault::UnmatchedBracket),
    decreases fuel,
{
    if machine.inst_ptr < program.len() && fuel > 0 {
        let op = program[machine.inst_ptr];
        if let Ok(next) = machine.step(program, input) {
            lemma_step_keeps_wf(machine, program, input);
            lemma_resolved_jumps_never_fault(next, program, input, (fuel - 1) as nat);
        }
    }
}

/// A run of a parsed program ends normally, on a cursor below cell 0,
/// or on the step budget, and in no other way.
pub proof fn lemma_parsed_program_runs(
    source: Seq<char>,
    machine: Machine,
    input: Seq<CellData>,
    fuel: nat,
)
    requires
        parsed(source) is Ok,
        parsed(source)->Ok_0.len() <= usize::MAX,
        machine.wf(),
    ensures
        machine.run(parsed(source)->Ok_0, input, fuel).result != Err::<(), Fault>(
            Fault::UnmatchedBracket,
        ),
{
    lemma_parsed_jumps_are_resolved(source);
    lemma_resolved_jumps_never_fault(machine, parsed(source)->Ok_0, input, fuel);
}

} // verus!
