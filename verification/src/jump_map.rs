use crate::op::{boundary_id, Op};
use std::collections::HashMap;
use vstd::prelude::*;

verus! {

/// The position of the last instruction of `program` that is a loop boundary
/// with identifier `id`, or `None` when no instruction carries `id`.
pub open spec fn resolve(program: Seq<Op>, id: i128) -> Option<int>
    decreases program.len(),
{
    if program.len() == 0 {
        None
    } else if boundary_id(program.last()) == Some(id) {
        Some(program.len() - 1)
    } else {
        resolve(program.drop_last(), id)
    }
}

/// The jump table of `program`: every identifier carried by some loop
/// boundary, mapped to the position `resolve` gives for it.
pub open spec fn jump_table(program: Seq<Op>) -> Map<i128, usize> {
    Map::new(
        |id: i128| resolve(program, id) is Some,
        |id: i128| resolve(program, id).unwrap() as usize,
    )
}

/// `resolve` finds a position exactly when some instruction carries the
/// identifier, and the position it finds is the last such instruction.
pub proof fn lemma_resolve_is_last(program: Seq<Op>, id: i128)
    ensures
        match resolve(program, id) {
            Some(i) => {
                &&& 0 <= i < program.len()
                &&& boundary_id(program[i]) == Some(id)
                &&& forall|j: int| i < j < program.len() ==> boundary_id(#[trigger] program[j]) != Some(id)
            },
            None => forall|j: int| 0 <= j < program.len() ==> boundary_id(#[trigger] program[j]) != Some(id),
        },
    decreases program.len(),
{
    if program.len() > 0 && boundary_id(program.last()) != Some(id) {
        let front = program.drop_last();
        lemma_resolve_is_last(front, id);
        assert forall|j: int| 0 <= j < program.len() implies (boundary_id(#[trigger] program[j])
            == Some(id)) == (j < front.len() && boundary_id(front[j]) == Some(id)) by {}
    }
}

/// An instruction that carries `id` and is followed by no other that does
/// is the one `resolve` finds.
pub proof fn lemma_resolve_unique(program: Seq<Op>, id: i128, i: int)
    requires
        0 <= i < program.len(),
        boundary_id(program[i]) == Some(id),
        forall|j: int| i < j < program.len() ==> boundary_id(#[trigger] program[j]) != Some(id),
    ensures
        resolve(program, id) == Some(i),
{
    lemma_resolve_is_last(program, id);
}

/// Builds the jump table of `program`.
pub fn create_jump_map(program: &[Op]) -> (jump_map: HashMap<i128, usize>)
    ensures
        jump_map@ == jump_table(program@),
{
    let mut jump_map: HashMap<i128, usize> = HashMap::new();
    for i in 0..program.len()
        invariant
            jump_map@ == jump_table(program@.take(i as int)),
    {
        proof {
            assert(program@.take(i + 1).drop_last() == program@.take(i as int));
        }
        match program[i] {
            Op::JumpIfZero(jump) | Op::JumpIfNonZero(jump) => {
                jump_map.insert(jump.here, i);
            },
            _ => {},
        }
    }
    proof {
        assert(program@.take(program@.len() as int) == program@);
    }
    jump_map
}

} // verus!
