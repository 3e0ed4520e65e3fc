use crate::fault::Fault;
use crate::jump_map::{create_jump_map, jump_table, lemma_resolve_is_last, resolve};
use crate::machine::{budget, grow, Machine};
use crate::op::{CellData, Op, INPUT_END_VAL};
use std::collections::HashMap;
use vstd::prelude::*;

verus! {

/// The machine: a tape of cells, a cursor on it, the position in the
/// program and in the input, and the output produced so far. Its view is
/// the `Machine` that the run is defined on.
#[derive(Debug, Clone, PartialEq, Eq)]
pub struct ProgramState {
    tape: Vec<CellData>,
    inst_ptr: usize,
    tape_ptr: usize,
    input_ptr: usize,
    output: Vec<CellData>,
    halted: bool,
}

impl View for ProgramState {
    type V = Machine;

    closed spec fn view(&self) -> Machine {
        Machine {
            tape: self.tape@,
            inst_ptr: self.inst_ptr as int,
            tape_ptr: self.tape_ptr as int,
            input_ptr: self.input_ptr as int,
            output: self.output@,
            halted: self.halted,
        }
    }
}

impl Default for ProgramState {
    fn default() -> (state: Self)
        ensures
            state@ == Machine::initial(),
    {
        let mut tape: Vec<CellData> = Vec::new();
        tape.push(0);
        Self { tape, inst_ptr: 0, tape_ptr: 0, input_ptr: 0, output: Vec::new(), halted: false }
    }
}

/// Appends `count` zero cells to `tape`.
fn extend_tape(tape: &mut Vec<CellData>, count: usize)
    ensures
        final(tape)@ == grow(old(tape)@, old(tape)@.len() + count),
{
    let ghost before = tape@;
    let mut missing: usize = count;
    while missing > 0
        invariant
            missing <= count,
            tape@ == grow(before, before.len() + (count - missing)),
        decreases missing,
    {
        tape.push(0);
        missing -= 1;
    }
}

/// Looks up the position of the boundary `id` in the jump table of `program`.
fn jump_target(jump_map: &HashMap<i128, usize>, id: i128, Ghost(program): Ghost<Seq<Op>>) -> (target:
    Option<usize>)
    requires
        jump_map@ == jump_table(program),
        program.len() <= usize::MAX,
    ensures
        match resolve(program, id) {
            Some(position) => target == Some(position as usize) && 0 <= position < program.len(),
            None => target is None,
        },
{
    proof {
        lemma_resolve_is_last(program, id);
    }
    match jump_map.get(&id) {
        Some(position) => Some(*position),
        None => None,
    }
}

impl ProgramState {
    /// The cells of the tape.
    pub fn tape(&self) -> (tape: &Vec<CellData>)
        ensures
            tape@ == self@.tape,
    {
        &self.tape
    }

    /// The position of the next instruction to execute.
    pub fn inst_ptr(&self) -> (position: usize)
        ensures
            position == self@.inst_ptr,
    {
        self.inst_ptr
    }

    /// The position of the cursor on the tape.
    pub fn tape_ptr(&self) -> (position: usize)
        ensures
            position == self@.tape_ptr,
    {
        self.tape_ptr
    }

    /// The number of input bytes consumed.
    pub fn input_ptr(&self) -> (position: usize)
        ensures
            position == self@.input_ptr,
    {
        self.input_ptr
    }

    /// The output produced so far.
    pub fn output(&self) -> (output: &Vec<CellData>)
        ensures
            output@ == self@.output,
    {
        &self.output
    }

    /// Whether the last run ended normally.
    pub fn halted(&self) -> (halted: bool)
        ensures
            halted == self@.halted,
    {
        self.halted
    }

    /// Executes the instruction under the instruction pointer, with
    /// `jump_map` the jump table of `program`. An instruction that faults
    /// changes nothing.
    pub fn step(
        &mut self,
        program: &[Op],
        jump_map: &HashMap<i128, usize>,
        input: &[CellData],
    ) -> (result: Result<(), Fault>)
        requires
            old(self)@.wf(),
            old(self)@.inst_ptr < program@.len(),
            jump_map@ == jump_table(program@),
        ensures
            match old(self)@.step(program@, input@) {
                Ok(next) => result is Ok && final(self)@ == next,
                Err(fault) => result == Err::<(), Fault>(fault) && final(self)@ == old(self)@,
            },
            final(self)@.wf(),
    {
        let cell: CellData = self.tape[self.tape_ptr];
        match program[self.inst_ptr] {
            Op::Add(amount) => {
                self.tape.set(self.tape_ptr, cell.wrapping_add(amount));
            },
            Op::Sub(amount) => {
                self.tape.set(self.tape_ptr, cell.wrapping_sub(amount));
            },
            Op::Move(offset) => {
                if offset < 0 {
                    let back: usize = (-(offset + 1)) as usize + 1;
                    if self.tape_ptr < back {
                        return Err(Fault::PointerUnderflow);
                    }
                    self.tape_ptr -= back;
                } else {
                    let forward: usize = offset as usize;
                    let room: usize = self.tape.len() - 1 - self.tape_ptr;
                    if forward <= room {
                        self.tape_ptr += forward;
                    } else {
                        extend_tape(&mut self.tape, forward - room);
                        self.tape_ptr = self.tape.len() - 1;
                    }
                }
            },
            Op::Output => {
                self.output.push(cell);
            },
            Op::Input => {
                if self.input_ptr < input.len() {
                    self.tape.set(self.tape_ptr, input[self.input_ptr]);
                    self.input_ptr += 1;
                } else {
                    self.tape.set(self.tape_ptr, INPUT_END_VAL);
                }
            },
            Op::JumpIfZero(jump) => {
                if cell == 0 {
                    match jump_target(jump_map, jump.jump_to, Ghost(program@)) {
                        Some(target) => {
                            self.inst_ptr = target;
                        },
                        None => {
                            return Err(Fault::UnmatchedBracket);
                        },
                    }
                }
            },
            Op::JumpIfNonZero(jump) => {
                if cell != 0 {
                    match jump_target(jump_map, jump.jump_to, Ghost(program@)) {
                        Some(target) => {
                            self.inst_ptr = target;
                        },
                        None => {
                            return Err(Fault::UnmatchedBracket);
                        },
                    }
                }
            },
        }
        self.inst_ptr += 1;
        Ok(())
    }

    /// Runs `program` from the current state until it halts or aborts.
    ///
    /// At most `max_ops` instructions are executed. A negative `max_ops` asks
    /// for no bound; the run is then cut off only where the 64-bit step
    /// counter ends. A run that ends on a fault leaves the state as the
    /// faulting instruction found it, so the output written up to there
    /// stays available, and the halted flag tells whether the run ended
    /// normally.
    pub fn interpret(&mut self, program: &[Op], input: &[CellData], max_ops: isize) -> (result:
        Result<(), Fault>)
        requires
            old(self)@.wf(),
        ensures
            final(self)@ == old(self)@.run(program@, input@, budget(max_ops)).machine,
            result == old(self)@.run(program@, input@, budget(max_ops)).result,
            final(self)@.wf(),
    {
        let jump_map = create_jump_map(program);
        let limit: u64 = if max_ops >= 0 {
            max_ops as u64
        } else {
            u64::MAX
        };
        let mut op_count: u64 = 0;
        while self.inst_ptr < program.len()
            invariant
                self@.wf(),
                op_count <= limit == budget(max_ops),
                jump_map@ == jump_table(program@),
                old(self)@.run(program@, input@, limit as nat) == self@.run(
                    program@,
                    input@,
                    (limit - op_count) as nat,
                ),
            decreases limit - op_count,
        {
            if op_count == limit {
                self.halted = false;
                return Err(Fault::StepBudgetExceeded);
            }
            match self.step(program, &jump_map, input) {
                Ok(()) => {},
                Err(fault) => {
                    self.halted = false;
                    return Err(fault);
                },
            }
            op_count += 1;
        }
        self.halted = true;
        Ok(())
    }
}

} // verus!
