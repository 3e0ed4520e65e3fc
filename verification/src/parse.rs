use crate::fault::Fault;
use crate::op::{Jump, Op};
use crate::pairing::{jumps_resolved, lemma_parsed_jumps_are_resolved};
use vstd::prelude::*;

verus! {

/// The state of a left-to-right scan over a source text.
pub ghost struct Scan {
    /// The instructions emitted so far.
    pub ops: Seq<Op>,
    /// The identifier the next loop will get.
    pub next_id: int,
    /// The identifiers of the loops that are open, innermost last.
    pub open: Seq<int>,
    /// Whether a closing bracket came with no loop open.
    pub failed: bool,
}

/// Whether `c` is one of the eight symbols that stand for an instruction.
pub open spec fn is_symbol(c: char) -> bool {
    c == '+' || c == '-' || c == '>' || c == '<' || c == '.' || c == ',' || c == '[' || c == ']'
}

/// The opening boundary of loop `id`.
pub open spec fn open_boundary(id: int) -> Op {
    Op::JumpIfZero(Jump { here: id as i128, jump_to: (-id) as i128 })
}

/// The closing boundary of loop `id`.
pub open spec fn close_boundary(id: int) -> Op {
    Op::JumpIfNonZero(Jump { here: (-id) as i128, jump_to: id as i128 })
}

impl Scan {
    /// The scan before the first character.
    pub open spec fn start() -> Scan {
        Scan { ops: Seq::empty(), next_id: 1, open: Seq::empty(), failed: false }
    }

    /// The scan with one more instruction emitted.
    pub open spec fn emit(self, op: Op) -> Scan {
        Scan { ops: self.ops.push(op), ..self }
    }

    /// The scan after the character `c`. A failed scan stays as it is.
    pub open spec fn feed(self, c: char) -> Scan {
        if self.failed {
            self
        } else {
            match c {
                '+' => self.emit(Op::Add(1)),
                '-' => self.emit(Op::Sub(1)),
                '>' => self.emit(Op::Move(1)),
                '<' => self.emit(Op::Move(-1isize)),
                '.' => self.emit(Op::Output),
                ',' => self.emit(Op::Input),
                '[' => Scan {
                    ops: self.ops.push(open_boundary(self.next_id)),
                    next_id: self.next_id + 1,
                    open: self.open.push(self.next_id),
                    failed: false,
                },
                ']' => if self.open.len() == 0 {
                    Scan { failed: true, ..self }
                } else {
                    Scan {
                        ops: self.ops.push(close_boundary(self.open.last())),
                        open: self.open.drop_last(),
                        ..self
                    }
                },
                _ => self,
            }
        }
    }
}

/// The scan after all of `source`.
pub open spec fn scan(source: Seq<char>) -> Scan
    decreases source.len(),
{
    if source.len() == 0 {
        Scan::start()
    } else {
        scan(source.drop_last()).feed(source.last())
    }
}

/// What `source` parses to: its instructions, or the fault when a
/// closing bracket has no loop to close or a loop is left open at the end.
pub open spec fn parsed(source: Seq<char>) -> Result<Seq<Op>, Fault> {
    let end = scan(source);
    if end.failed || end.open.len() > 0 {
        Err(Fault::UnmatchedBracket)
    } else {
        Ok(end.ops)
    }
}

/// A scan that has failed stays failed whatever follows.
pub proof fn lemma_failure_is_final(source: Seq<char>, k: int)
    requires
        0 <= k <= source.len(),
        scan(source.take(k)).failed,
    ensures
        scan(source).failed,
    decreases source.len(),
{
    if k == source.len() {
        assert(source.take(k) == source);
    } else {
        assert(source.drop_last().take(k) == source.take(k));
        lemma_failure_is_final(source.drop_last(), k);
    }
}

/// Identifiers are handed out in order, one per opening boundary emitted, and
/// the loops that are open carry identifiers that were handed out.
pub proof fn lemma_scan_identifiers(source: Seq<char>)
    ensures
        1 <= scan(source).next_id <= scan(source).ops.len() + 1,
        scan(source).ops.len() <= source.len(),
        forall|i: int|
            0 <= i < scan(source).open.len() ==> 1 <= #[trigger] scan(source).open[i] < scan(
                source,
            ).next_id,
    decreases source.len(),
{
    if source.len() > 0 {
        lemma_scan_identifiers(source.drop_last());
    }
}

/// Turns a source text into instructions.
///
/// Every character that is not one of the eight symbols is skipped. Loops
/// are numbered from 1 in the order in which they open. A closing bracket
/// with no loop open, and a loop still open at the end of the text, are
/// both rejected. A program that is returned is no longer than the text,
/// and each of its jumps names a boundary that the program holds.
pub fn parse(program_str: &str) -> (result: Result<Vec<Op>, Fault>)
    ensures
        match result {
            Ok(program) => {
                &&& parsed(program_str@) == Ok::<Seq<Op>, Fault>(program@)
                &&& program@.len() <= program_str@.len()
                &&& jumps_resolved(program@)
            },
            Err(fault) => {
                &&& parsed(program_str@) == Err::<Seq<Op>, Fault>(fault)
                &&& fault == Fault::UnmatchedBracket
            },
        },
{
    let mut program: Vec<Op> = Vec::new();
    let mut jump_index: i128 = 1;
    let mut jump_stack: Vec<i128> = Vec::new();
    for c in it: program_str.chars()
        invariant
            it.seq() == program_str@,
            !scan(program_str@.take(it.index())).failed,
            program@ == scan(program_str@.take(it.index())).ops,
            jump_index == scan(program_str@.take(it.index())).next_id,
            jump_stack@.len() == scan(program_str@.take(it.index())).open.len(),
            forall|i: int|
                0 <= i < jump_stack@.len() ==> jump_stack@[i] == scan(
                    program_str@.take(it.index()),
                ).open[i],
    {
        proof {
            let done = program_str@.take(it.index());
            let next = program_str@.take(it.index() + 1);
            assert(next.drop_last() == done);
            assert(next.last() == c);
            lemma_scan_identifiers(done);
        }
        match c {
            '+' => {
                program.push(Op::Add(1));
            },
            '-' => {
                program.push(Op::Sub(1));
            },
            '>' => {
                program.push(Op::Move(1));
            },
            '<' => {
                program.push(Op::Move(-1));
            },
            '.' => {
                program.push(Op::Output);
            },
            ',' => {
                program.push(Op::Input);
            },
            '[' => {
                program.push(Op::JumpIfZero(Jump { here: jump_index, jump_to: -jump_index }));
                jump_stack.push(jump_index);
                assert(jump_index <= program.len() <= usize::MAX);
                jump_index += 1;
            },
            ']' => match jump_stack.pop() {
                Some(jump_to) => {
                    program.push(Op::JumpIfNonZero(Jump { here: -jump_to, jump_to }));
                },
                None => {
                    proof {
                        lemma_failure_is_final(program_str@, it.index() + 1);
                    }
                    return Err(Fault::UnmatchedBracket);
                },
            },
            // every other character is commentary
            _ => {},
        }
    }
    proof {
        assert(program_str@.take(program_str@.len() as int) == program_str@);
    }
    if jump_stack.len() > 0 {
        return Err(Fault::UnmatchedBracket);
    }
    proof {
        lemma_scan_identifiers(program_str@);
        assert(program.len() <= usize::MAX);
        lemma_parsed_jumps_are_resolved(program_str@);
    }
    Ok(program)
}

} // verus!
