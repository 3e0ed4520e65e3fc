use crate::jump_map::{lemma_resolve_is_last, resolve};
use crate::op::{boundary_id, Op};
use crate::parse::{close_boundary, open_boundary, parsed, scan, Scan};
use vstd::prelude::*;

verus! {

/// What an instruction adds to the number of open loops.
pub open spec fn delta(op: Op) -> int {
    match op {
        Op::JumpIfZero(_) => 1,
        Op::JumpIfNonZero(_) => -1,
        _ => 0,
    }
}

/// The number of loops that are open after the first `count` instructions
/// of `ops`.
pub open spec fn level(ops: Seq<Op>, count: int) -> int
    decreases count,
{
    if count <= 0 {
        0
    } else {
        level(ops, count - 1) + delta(ops[count - 1])
    }
}

/// Loop `id` is closed in `ops`: its two boundaries are there, each found
/// under its identifier, the opening one first, and the instructions
/// between them open no loop that they do not close.
pub open spec fn loop_is_closed(ops: Seq<Op>, id: int) -> bool {
    &&& resolve(ops, id as i128) matches Some(opening)
    &&& resolve(ops, (-id) as i128) matches Some(closing)
    &&& 0 <= opening < closing < ops.len()
    &&& ops[opening] == open_boundary(id)
    &&& ops[closing] == close_boundary(id)
    &&& level(ops, closing + 1) == level(ops, opening)
    &&& forall|q: int| opening < q <= closing ==> #[trigger] level(ops, q) > level(ops, opening)
}

/// Loop `id` is open in `ops` below `outer` other loops: its opening
/// boundary is there, no closing boundary is, and every instruction behind
/// the opening boundary is inside the loop.
pub open spec fn loop_is_open(ops: Seq<Op>, id: int, outer: int) -> bool {
    &&& resolve(ops, id as i128) matches Some(opening)
    &&& resolve(ops, (-id) as i128) is None
    &&& 0 <= opening < ops.len()
    &&& ops[opening] == open_boundary(id)
    &&& level(ops, opening) == outer
    &&& forall|q: int| opening < q <= ops.len() ==> #[trigger] level(ops, q) > outer
}

/// The boundary `op` belongs to a loop numbered below `next_id`, and its two
/// identifiers are each other's negation, the positive one on the opening
/// side.
pub open spec fn boundary_is_numbered(op: Op, next_id: int) -> bool {
    match op {
        Op::JumpIfZero(jump) => 1 <= jump.here < next_id && jump.jump_to == -jump.here,
        Op::JumpIfNonZero(jump) => 1 <= jump.jump_to < next_id && jump.here == -jump.jump_to,
        _ => true,
    }
}

/// The pairing that a scan keeps up: every boundary emitted is the only one
/// with its identifier, the loops numbered so far are each either closed or
/// on the stack of open loops, and that stack lists the open loops from the
/// outermost to the innermost.
pub open spec fn well_paired(s: Scan) -> bool {
    &&& 1 <= s.next_id <= s.ops.len() + 1
    &&& level(s.ops, s.ops.len() as int) == s.open.len()
    &&& forall|i: int|
        0 <= i < s.ops.len() ==> boundary_is_numbered(#[trigger] s.ops[i], s.next_id) && (
        boundary_id(s.ops[i]) matches Some(id) ==> resolve(s.ops, id) == Some(i))
    &&& forall|t: int|
        0 <= t < s.open.len() ==> 1 <= #[trigger] s.open[t] < s.next_id && loop_is_open(
            s.ops,
            s.open[t],
            t,
        )
    &&& forall|id: int|
        1 <= id < s.next_id ==> #[trigger] loop_is_closed(s.ops, id) || s.open.contains(id)
}

/// The level at a position does not depend on what follows the position.
pub proof fn lemma_level_of_push(ops: Seq<Op>, op: Op, count: int)
    requires
        count <= ops.len(),
    ensures
        level(ops.push(op), count) == level(ops, count),
    decreases count,
{
    if count > 0 {
        lemma_level_of_push(ops, op, count - 1);
    }
}

/// An identifier is found at the new last instruction if that carries it,
/// and where it was found before if not.
pub proof fn lemma_resolve_of_push(ops: Seq<Op>, op: Op, id: i128)
    ensures
        resolve(ops.push(op), id) == if boundary_id(op) == Some(id) {
            Some(ops.len() as int)
        } else {
            resolve(ops, id)
        },
{
    assert(ops.push(op).drop_last() == ops);
}

/// A closed loop stays closed when an instruction that carries neither of
/// its identifiers is appended.
proof fn lemma_push_keeps_closed(ops: Seq<Op>, op: Op, id: int)
    requires
        loop_is_closed(ops, id),
        boundary_id(op) != Some(id as i128),
        boundary_id(op) != Some((-id) as i128),
    ensures
        loop_is_closed(ops.push(op), id),
{
    let after = ops.push(op);
    lemma_resolve_of_push(ops, op, id as i128);
    lemma_resolve_of_push(ops, op, (-id) as i128);
    let opening = resolve(ops, id as i128)->Some_0;
    let closing = resolve(ops, (-id) as i128)->Some_0;
    lemma_level_of_push(ops, op, opening);
    lemma_level_of_push(ops, op, closing + 1);
    assert forall|q: int| opening < q <= closing implies #[trigger] level(after, q) > level(
        after,
        opening,
    ) by {
        lemma_level_of_push(ops, op, q);
        assert(level(ops, q) > level(ops, opening));
    }
}

/// An open loop stays open when an instruction that carries neither of its
/// identifiers is appended and the loop is still entered behind it.
proof fn lemma_push_keeps_open(ops: Seq<Op>, op: Op, id: int, outer: int)
    requires
        loop_is_open(ops, id, outer),
        boundary_id(op) != Some(id as i128),
        boundary_id(op) != Some((-id) as i128),
        level(ops, ops.len() as int) + delta(op) > outer,
    ensures
        loop_is_open(ops.push(op), id, outer),
{
    let after = ops.push(op);
    lemma_resolve_of_push(ops, op, id as i128);
    lemma_resolve_of_push(ops, op, (-id) as i128);
    let opening = resolve(ops, id as i128)->Some_0;
    lemma_level_of_push(ops, op, opening);
    assert forall|q: int| opening < q <= after.len() implies #[trigger] level(after, q)
        > outer by {
        if q <= ops.len() {
            lemma_level_of_push(ops, op, q);
            assert(level(ops, q) > outer);
        } else {
            lemma_level_of_push(ops, op, ops.len() as int);
        }
    }
}

/// Appending an instruction that is no boundary keeps the pairing.
proof fn lemma_plain_keeps_pairing(s: Scan, op: Op)
    requires
        well_paired(s),
        boundary_id(op) is None,
        delta(op) == 0,
    ensures
        well_paired(s.emit(op)),
{
    let after = s.emit(op);
    lemma_level_of_push(s.ops, op, s.ops.len() as int);
    assert forall|i: int| 0 <= i < after.ops.len() implies boundary_is_numbered(
        #[trigger] after.ops[i],
        after.next_id,
    ) && (boundary_id(after.ops[i]) matches Some(id) ==> resolve(after.ops, id) == Some(i)) by {
        if i < s.ops.len() {
            assert(after.ops[i] == s.ops[i]);
            if let Some(id) = boundary_id(s.ops[i]) {
                lemma_resolve_of_push(s.ops, op, id);
            }
        }
    }
    assert forall|t: int| 0 <= t < after.open.len() implies 1 <= #[trigger] after.open[t]
        < after.next_id && loop_is_open(after.ops, after.open[t], t) by {
        lemma_push_keeps_open(s.ops, op, s.open[t], t);
    }
    assert forall|id: int| 1 <= id < after.next_id implies #[trigger] loop_is_closed(
        after.ops,
        id,
    ) || after.open.contains(id) by {
        if loop_is_closed(s.ops, id) {
            lemma_push_keeps_closed(s.ops, op, id);
        }
    }
}

/// Opening a loop keeps the pairing.
proof fn lemma_open_keeps_pairing(s: Scan)
    requires
        well_paired(s),
        !s.failed,
        s.ops.len() <= usize::MAX,
    ensures
        well_paired(s.feed('[')),
{
    let after = s.feed('[');
    let id = s.next_id;
    let op = open_boundary(id);
    assert(after.ops == s.ops.push(op));
    assert(boundary_id(op) == Some(id as i128));
    lemma_level_of_push(s.ops, op, s.ops.len() as int);
    // nothing emitted so far carries either identifier of the new loop
    lemma_resolve_is_last(s.ops, id as i128);
    lemma_resolve_is_last(s.ops, (-id) as i128);
    assert forall|i: int| 0 <= i < s.ops.len() implies boundary_id(#[trigger] s.ops[i]) != Some(
        id as i128,
    ) && boundary_id(s.ops[i]) != Some((-id) as i128) by {
        assert(boundary_is_numbered(s.ops[i], s.next_id));
    }
    assert(resolve(s.ops, (-id) as i128) is None);
    lemma_resolve_of_push(s.ops, op, id as i128);
    lemma_resolve_of_push(s.ops, op, (-id) as i128);
    assert forall|i: int| 0 <= i < after.ops.len() implies boundary_is_numbered(
        #[trigger] after.ops[i],
        after.next_id,
    ) && (boundary_id(after.ops[i]) matches Some(here) ==> resolve(after.ops, here) == Some(
        i,
    )) by {
        if i < s.ops.len() {
            assert(after.ops[i] == s.ops[i]);
            assert(boundary_is_numbered(s.ops[i], s.next_id));
            if let Some(here) = boundary_id(s.ops[i]) {
                lemma_resolve_of_push(s.ops, op, here);
            }
        }
    }
    assert forall|t: int| 0 <= t < after.open.len() implies 1 <= #[trigger] after.open[t]
        < after.next_id && loop_is_open(after.ops, after.open[t], t) by {
        if t < s.open.len() {
            assert(after.open[t] == s.open[t]);
            lemma_push_keeps_open(s.ops, op, s.open[t], t);
        } else {
            assert(after.open[t] == id);
            assert(level(after.ops, after.ops.len() as int) == level(after.ops, s.ops.len() as int)
                + 1);
        }
    }
    assert forall|other: int| 1 <= other < after.next_id implies #[trigger] loop_is_closed(
        after.ops,
        other,
    ) || after.open.contains(other) by {
        if other == id {
            assert(after.open[s.open.len() as int] == id);
        } else if loop_is_closed(s.ops, other) {
            lemma_push_keeps_closed(s.ops, op, other);
        } else {
            let t = choose|t: int| 0 <= t < s.open.len() && s.open[t] == other;
            assert(after.open[t] == other);
        }
    }
}

/// Closing the innermost open loop keeps the pairing.
proof fn lemma_close_keeps_pairing(s: Scan)
    requires
        well_paired(s),
        !s.failed,
        s.open.len() > 0,
        s.ops.len() <= usize::MAX,
    ensures
        well_paired(s.feed(']')),
{
    let after = s.feed(']');
    let top = s.open.len() - 1;
    let id = s.open.last();
    let op = close_boundary(id);
    assert(s.open[top] == id);
    assert(loop_is_open(s.ops, id, top));
    assert(after.ops == s.ops.push(op));
    assert(boundary_id(op) == Some((-id) as i128));
    lemma_level_of_push(s.ops, op, s.ops.len() as int);
    lemma_resolve_of_push(s.ops, op, id as i128);
    lemma_resolve_of_push(s.ops, op, (-id) as i128);
    let opening = resolve(s.ops, id as i128)->Some_0;
    lemma_level_of_push(s.ops, op, opening);
    assert(loop_is_closed(after.ops, id)) by {
        assert forall|q: int| opening < q <= s.ops.len() implies #[trigger] level(after.ops, q)
            > level(after.ops, opening) by {
            lemma_level_of_push(s.ops, op, q);
            assert(level(s.ops, q) > top);
        }
    }
    lemma_resolve_is_last(s.ops, (-id) as i128);
    assert forall|i: int| 0 <= i < after.ops.len() implies boundary_is_numbered(
        #[trigger] after.ops[i],
        after.next_id,
    ) && (boundary_id(after.ops[i]) matches Some(here) ==> resolve(after.ops, here) == Some(
        i,
    )) by {
        if i < s.ops.len() {
            assert(after.ops[i] == s.ops[i]);
            assert(boundary_is_numbered(s.ops[i], s.next_id));
            if let Some(here) = boundary_id(s.ops[i]) {
                lemma_resolve_of_push(s.ops, op, here);
            }
        }
    }
    assert forall|t: int| 0 <= t < after.open.len() implies 1 <= #[trigger] after.open[t]
        < after.next_id && loop_is_open(after.ops, after.open[t], t) by {
        assert(after.open[t] == s.open[t]);
        assert(loop_is_open(s.ops, s.open[t], t));
        lemma_push_keeps_open(s.ops, op, s.open[t], t);
    }
    assert forall|other: int| 1 <= other < after.next_id implies #[trigger] loop_is_closed(
        after.ops,
        other,
    ) || after.open.contains(other) by {
        if other == id {
        } else if loop_is_closed(s.ops, other) {
            lemma_push_keeps_closed(s.ops, op, other);
        } else {
            let t = choose|t: int| 0 <= t < s.open.len() && s.open[t] == other;
            assert(after.open[t] == other);
        }
    }
}

/// Every character keeps the pairing of a scan.
pub proof fn lemma_feed_keeps_pairing(s: Scan, c: char)
    requires
        well_paired(s),
        s.ops.len() <= usize::MAX,
    ensures
        well_paired(s.feed(c)),
{
    if s.failed {
    } else if c == '+' {
        lemma_plain_keeps_pairing(s, Op::Add(1));
    } else if c == '-' {
        lemma_plain_keeps_pairing(s, Op::Sub(1));
    } else if c == '>' {
        lemma_plain_keeps_pairing(s, Op::Move(1));
    } else if c == '<' {
        lemma_plain_keeps_pairing(s, Op::Move(-1isize));
    } else if c == '.' {
        lemma_plain_keeps_pairing(s, Op::Output);
    } else if c == ',' {
        lemma_plain_keeps_pairing(s, Op::Input);
    } else if c == '[' {
        lemma_open_keeps_pairing(s);
    } else if c == ']' {
        if s.open.len() > 0 {
            lemma_close_keeps_pairing(s);
        }
    }
}

/// A scan is well paired as long as its instructions fit in memory.
pub proof fn lemma_scan_is_well_paired(source: Seq<char>)
    requires
        scan(source).ops.len() <= usize::MAX,
    ensures
        well_paired(scan(source)),
    decreases source.len(),
{
    if source.len() > 0 {
        lemma_scan_is_well_paired(source.drop_last());
        lemma_feed_keeps_pairing(scan(source.drop_last()), source.last());
    }
}

/// The instructions at `opening` and `closing` are the two boundaries of one
/// loop: each names the other, each is found under the identifier the other
/// jumps to, and the instructions between them open no loop that they do
/// not close, so that `closing` is the first position behind `opening` at
/// which the loops open are those open before it.
pub open spec fn is_pair(program: Seq<Op>, opening: int, closing: int) -> bool {
    &&& 0 <= opening < closing < program.len()
    &&& program[opening] matches Op::JumpIfZero(first)
    &&& program[closing] matches Op::JumpIfNonZero(second)
    &&& first.jump_to == second.here
    &&& second.jump_to == first.here
    &&& resolve(program, first.jump_to) == Some(closing)
    &&& resolve(program, second.jump_to) == Some(opening)
    &&& level(program, closing + 1) == level(program, opening)
    &&& forall|q: int| opening < q <= closing ==> #[trigger] level(program, q) > level(
        program,
        opening,
    )
}

/// Every jump of `program` names a boundary that some instruction carries.
pub open spec fn jumps_resolved(program: Seq<Op>) -> bool {
    forall|i: int|
        0 <= i < program.len() ==> match #[trigger] program[i] {
            Op::JumpIfZero(jump) => resolve(program, jump.jump_to) is Some,
            Op::JumpIfNonZero(jump) => resolve(program, jump.jump_to) is Some,
            _ => true,
        }
}

/// In a parsed program every opening boundary has its partner: the
/// jump table leads from it to the closing boundary of the same loop and
/// back.
pub proof fn lemma_opening_has_partner(source: Seq<char>, opening: int)
    requires
        parsed(source) is Ok,
        parsed(source)->Ok_0.len() <= usize::MAX,
        0 <= opening < parsed(source)->Ok_0.len(),
        parsed(source)->Ok_0[opening] is JumpIfZero,
    ensures
        is_pair(
            parsed(source)->Ok_0,
            opening,
            resolve(
                parsed(source)->Ok_0,
                parsed(source)->Ok_0[opening]->JumpIfZero_0.jump_to,
            )->Some_0,
        ),
{
    let s = scan(source);
    lemma_scan_is_well_paired(source);
    let id = s.ops[opening]->JumpIfZero_0.here as int;
    assert(boundary_is_numbered(s.ops[opening], s.next_id));
    assert(loop_is_closed(s.ops, id) || s.open.contains(id));
}

/// In a parsed program every closing boundary has its partner: the
/// jump table leads from it to the opening boundary of the same loop and
/// back.
pub proof fn lemma_closing_has_partner(source: Seq<char>, closing: int)
    requires
        parsed(source) is Ok,
        parsed(source)->Ok_0.len() <= usize::MAX,
        0 <= closing < parsed(source)->Ok_0.len(),
        parsed(source)->Ok_0[closing] is JumpIfNonZero,
    ensures
        is_pair(
            parsed(source)->Ok_0,
            resolve(
                parsed(source)->Ok_0,
                parsed(source)->Ok_0[closing]->JumpIfNonZero_0.jump_to,
            )->Some_0,
            closing,
        ),
{
    let s = scan(source);
    lemma_scan_is_well_paired(source);
    let id = s.ops[closing]->JumpIfNonZero_0.jump_to as int;
    assert(boundary_is_numbered(s.ops[closing], s.next_id));
    assert(loop_is_closed(s.ops, id) || s.open.contains(id));
}

/// No two boundaries of a parsed program carry the same identifier.
pub proof fn lemma_identifiers_are_unique(source: Seq<char>, i: int, j: int)
    requires
        parsed(source) is Ok,
        parsed(source)->Ok_0.len() <= usize::MAX,
        0 <= i < j < parsed(source)->Ok_0.len(),
        boundary_id(parsed(source)->Ok_0[i]) is Some,
    ensures
        boundary_id(parsed(source)->Ok_0[i]) != boundary_id(parsed(source)->Ok_0[j]),
{
    let s = scan(source);
    lemma_scan_is_well_paired(source);
    assert(boundary_is_numbered(s.ops[i], s.next_id));
    assert(boundary_is_numbered(s.ops[j], s.next_id));
}

/// Every jump of a parsed program names a boundary that the program
/// holds.
pub proof fn lemma_parsed_jumps_are_resolved(source: Seq<char>)
    requires
        parsed(source) is Ok,
        parsed(source)->Ok_0.len() <= usize::MAX,
    ensures
        jumps_resolved(parsed(source)->Ok_0),
{
    let program = parsed(source)->Ok_0;
    assert forall|i: int| 0 <= i < program.len() implies match #[trigger] program[i] {
        Op::JumpIfZero(jump) => resolve(program, jump.jump_to) is Some,
        Op::JumpIfNonZero(jump) => resolve(program, jump.jump_to) is Some,
        _ => true,
    } by {
        if program[i] is JumpIfZero {
            lemma_opening_has_partner(source, i);
        } else if program[i] is JumpIfNonZero {
            lemma_closing_has_partner(source, i);
        }
    }
}

} // verus!
