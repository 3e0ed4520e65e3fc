use crate::fault::Fault;
use crate::jump_map::resolve;
use crate::op::{CellData, Op, INPUT_END_VAL};
use vstd::prelude::*;

verus! {

/// The mathematical state of the machine.
pub ghost struct Machine {
    /// The cells, from cell 0 on.
    pub tape: Seq<CellData>,
    /// The position of the next instruction to execute.
    pub inst_ptr: int,
    /// The position of the cursor on the tape.
    pub tape_ptr: int,
    /// The number of input bytes consumed.
    pub input_ptr: int,
    /// The bytes written so far.
    pub output: Seq<CellData>,
    /// Whether the last run ended normally.
    pub halted: bool,
}

/// Where a run ended and how.
pub ghost struct Outcome {
    /// The state the run ended in.
    pub machine: Machine,
    /// `Ok` for a run that halted normally, else the fault that ended it.
    pub result: Result<(), Fault>,
}

/// `cell + amount` modulo 256.
pub open spec fn wrap_add(cell: CellData, amount: CellData) -> CellData {
    ((cell + amount) % 256) as CellData
}

/// `cell - amount` modulo 256.
pub open spec fn wrap_sub(cell: CellData, amount: CellData) -> CellData {
    ((cell - amount) % 256) as CellData
}

/// `tape`, extended by zero cells on the right to `len` cells if it is shorter.
pub open spec fn grow(tape: Seq<CellData>, len: int) -> Seq<CellData> {
    if len <= tape.len() {
        tape
    } else {
        tape + Seq::new((len - tape.len()) as nat, |i: int| 0 as CellData)
    }
}

/// The number of instructions a run may execute under the bound `max_ops`.
/// A negative bound means none is asked for: what is left is the range of
/// the 64-bit step counter.
pub open spec fn budget(max_ops: isize) -> nat {
    if max_ops >= 0 {
        max_ops as nat
    } else {
        u64::MAX as nat
    }
}

impl Machine {
    /// One zero cell, everything else at the start.
    pub open spec fn initial() -> Machine {
        Machine {
            tape: seq![0 as CellData],
            inst_ptr: 0,
            tape_ptr: 0,
            input_ptr: 0,
            output: Seq::empty(),
            halted: false,
        }
    }

    /// The cursor is on the tape and no position is negative.
    pub open spec fn wf(self) -> bool {
        &&& 0 <= self.tape_ptr < self.tape.len()
        &&& 0 <= self.inst_ptr
        &&& 0 <= self.input_ptr
    }

    /// The cell under the cursor.
    pub open spec fn cell(self) -> CellData {
        self.tape[self.tape_ptr]
    }

    /// The machine with `value` in the cell under the cursor.
    pub open spec fn write(self, value: CellData) -> Machine {
        Machine { tape: self.tape.update(self.tape_ptr, value), ..self }
    }

    /// The machine with the instruction pointer moved on by one.
    pub open spec fn advance(self) -> Machine {
        Machine { inst_ptr: self.inst_ptr + 1, ..self }
    }

    /// The machine after a taken jump to the boundary `id`: execution goes
    /// on behind that boundary. A boundary that no instruction carries is a
    /// fault.
    pub open spec fn jump(self, program: Seq<Op>, id: i128) -> Result<Machine, Fault> {
        match resolve(program, id) {
            Some(target) => Ok(Machine { inst_ptr: target + 1, ..self }),
            None => Err(Fault::UnmatchedBracket),
        }
    }

    /// The effect of the instruction under the instruction pointer.
    pub open spec fn step(self, program: Seq<Op>, input: Seq<CellData>) -> Result<Machine, Fault>
        recommends
            self.wf(),
            self.inst_ptr < program.len(),
    {
        match program[self.inst_ptr] {
            Op::Add(amount) => Ok(self.write(wrap_add(self.cell(), amount)).advance()),
            Op::Sub(amount) => Ok(self.write(wrap_sub(self.cell(), amount)).advance()),
            Op::Move(offset) => {
                let target = self.tape_ptr + offset;
                if target < 0 {
                    Err(Fault::PointerUnderflow)
                } else {
                    Ok(
                        Machine {
                            tape: grow(self.tape, target + 1),
                            tape_ptr: target,
                            ..self
                        }.advance(),
                    )
                }
            },
            Op::Output => Ok(Machine { output: self.output.push(self.cell()), ..self }.advance()),
            Op::Input => {
                if self.input_ptr < input.len() {
                    Ok(
                        Machine { input_ptr: self.input_ptr + 1, ..self }.write(
                            input[self.input_ptr],
                        ).advance(),
                    )
                } else {
                    Ok(self.write(INPUT_END_VAL).advance())
                }
            },
            Op::JumpIfZero(jump) => {
                if self.cell() == 0 {
                    self.jump(program, jump.jump_to)
                } else {
                    Ok(self.advance())
                }
            },
            Op::JumpIfNonZero(jump) => {
                if self.cell() != 0 {
                    self.jump(program, jump.jump_to)
                } else {
                    Ok(self.advance())
                }
            },
        }
    }

    /// The run from this state with `fuel` instructions allowed.
    ///
    /// The run halts normally once the instruction pointer is past the last
    /// instruction. It aborts on the instruction that faults, leaving the
    /// state as that instruction found it, and it aborts when an instruction
    /// is due and no fuel is left.
    pub open spec fn run(self, program: Seq<Op>, input: Seq<CellData>, fuel: nat) -> Outcome
        decreases fuel,
    {
        if self.inst_ptr >= program.len() {
            Outcome { machine: Machine { halted: true, ..self }, result: Ok(()) }
        } else if fuel == 0 {
            Outcome {
                machine: Machine { halted: false, ..self },
                result: Err(Fault::StepBudgetExceeded),
            }
        } else {
            match self.step(program, input) {
                Ok(next) => next.run(program, input, (fuel - 1) as nat),
                Err(fault) => Outcome {
                    machine: Machine { halted: false, ..self },
                    result: Err(fault),
                },
            }
        }
    }
}

} // verus!
