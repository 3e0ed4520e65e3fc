use crate::fault::Fault;
use crate::op::Op;
use crate::parse::{is_symbol, lemma_scan_identifiers, open_boundary, parsed, scan};
use vstd::prelude::*;

verus! {

/// The number of loops left open by `source`: its opening brackets less its
/// closing brackets.
pub open spec fn depth(source: Seq<char>) -> int
    decreases source.len(),
{
    if source.len() == 0 {
        0
    } else if source.last() == '[' {
        depth(source.drop_last()) + 1
    } else if source.last() == ']' {
        depth(source.drop_last()) - 1
    } else {
        depth(source.drop_last())
    }
}

/// Some closing bracket of `source` comes when no loop is open.
pub open spec fn closes_too_often(source: Seq<char>) -> bool {
    exists|k: int| 0 <= k <= source.len() && depth(#[trigger] source.take(k)) < 0
}

/// A scan fails exactly when some closing bracket comes with no loop open,
/// and a scan that has not failed has as many loops open as the brackets
/// read so far leave open.
pub proof fn lemma_scan_follows_depth(source: Seq<char>)
    ensures
        scan(source).failed == closes_too_often(source),
        !scan(source).failed ==> scan(source).open.len() == depth(source),
    decreases source.len(),
{
    if source.len() == 0 {
        assert forall|k: int| 0 <= k <= source.len() implies depth(#[trigger] source.take(k))
            >= 0 by {
            assert(source.take(k) == source);
        }
    } else {
        let front = source.drop_last();
        lemma_scan_follows_depth(front);
        assert(source.take(source.len() as int) == source);
        assert forall|k: int| 0 <= k <= front.len() implies #[trigger] source.take(k)
            == front.take(k) by {}
        if scan(front).failed {
            let k = choose|k: int| 0 <= k <= front.len() && depth(#[trigger] front.take(k)) < 0;
            assert(source.take(k) == front.take(k));
        } else {
            assert forall|k: int| 0 <= k <= front.len() implies depth(#[trigger] source.take(k))
                >= 0 by {
                assert(source.take(k) == front.take(k));
            }
        }
    }
}

/// A source is accepted exactly when its brackets are balanced: no
/// closing bracket comes with no loop open, and no loop is open at the end.
/// Every other source is rejected as an unmatched bracket, and nothing is
/// produced for it.
pub proof fn lemma_unbalanced_is_rejected(source: Seq<char>)
    ensures
        parsed(source) is Ok <==> !closes_too_often(source) && depth(source) == 0,
        parsed(source) is Err <==> closes_too_often(source) || depth(source) != 0,
        parsed(source) is Err ==> parsed(source) == Err::<Seq<Op>, Fault>(
            Fault::UnmatchedBracket,
        ),
{
    lemma_scan_follows_depth(source);
}

/// A closing bracket with no loop open makes the parse fail, whatever
/// stands before the brackets that lead up to it and whatever follows.
pub proof fn lemma_unmatched_close_is_rejected(source: Seq<char>, k: int)
    requires
        0 <= k <= source.len(),
        depth(source.take(k)) < 0,
    ensures
        parsed(source) == Err::<Seq<Op>, Fault>(Fault::UnmatchedBracket),
{
    lemma_scan_follows_depth(source);
}

/// A parsed program has at most one instruction per character.
pub proof fn lemma_program_is_no_longer(source: Seq<char>)
    ensures
        parsed(source) matches Ok(program) ==> program.len() <= source.len(),
{
    lemma_scan_identifiers(source);
}

/// A character that is none of the eight symbols changes nothing, wherever
/// it stands in the source.
pub proof fn lemma_comment_is_skipped(front: Seq<char>, c: char, back: Seq<char>)
    requires
        !is_symbol(c),
    ensures
        scan(front.push(c) + back) == scan(front + back),
        parsed(front.push(c) + back) == parsed(front + back),
    decreases back.len(),
{
    if back.len() == 0 {
        assert(front.push(c) + back == front.push(c));
        assert(front + back == front);
        assert(front.push(c).drop_last() == front);
    } else {
        lemma_comment_is_skipped(front, c, back.drop_last());
        assert((front.push(c) + back).drop_last() == front.push(c) + back.drop_last());
        assert((front + back).drop_last() == front + back.drop_last());
    }
}

/// A source and the same source with everything but the eight symbols
/// taken out parse alike.
pub proof fn lemma_only_symbols_count(source: Seq<char>)
    ensures
        scan(source.filter(|c: char| is_symbol(c))) == scan(source),
        parsed(source.filter(|c: char| is_symbol(c))) == parsed(source),
    decreases source.len(),
{
    reveal(Seq::filter);
    let symbols = |c: char| is_symbol(c);
    if source.len() > 0 {
        lemma_only_symbols_count(source.drop_last());
        if is_symbol(source.last()) {
            assert(source.drop_last().filter(symbols).push(source.last()).drop_last()
                == source.drop_last().filter(symbols));
        }
    }
}

/// A source without any of the eight symbols parses to the empty
/// program.
pub proof fn lemma_commentary_gives_no_instruction(source: Seq<char>)
    requires
        forall|i: int| 0 <= i < source.len() ==> !is_symbol(#[trigger] source[i]),
    ensures
        scan(source).ops.len() == 0,
        parsed(source) == Ok::<Seq<Op>, Fault>(Seq::empty()),
    decreases source.len(),
{
    if source.len() > 0 {
        lemma_commentary_gives_no_instruction(source.drop_last());
    }
}

/// The number of opening brackets in `source`.
pub open spec fn opens(source: Seq<char>) -> int
    decreases source.len(),
{
    if source.len() == 0 {
        0
    } else if source.last() == '[' {
        opens(source.drop_last()) + 1
    } else {
        opens(source.drop_last())
    }
}

/// `op` is the instruction that the symbol at `position` of `source` stands
/// for. An opening bracket stands for the opening boundary of the loop
/// whose number is one more than the number of opening brackets before it.
pub open spec fn stands_for(source: Seq<char>, position: int, op: Op) -> bool {
    match source[position] {
        '+' => op == Op::Add(1),
        '-' => op == Op::Sub(1),
        '>' => op == Op::Move(1),
        '<' => op == Op::Move(-1isize),
        '.' => op == Op::Output,
        ',' => op == Op::Input,
        '[' => op == open_boundary(1 + opens(source.take(position))),
        ']' => op is JumpIfNonZero,
        _ => false,
    }
}

/// A scan that has not failed has numbered one loop for every opening
/// bracket read.
pub proof fn lemma_loops_are_counted(source: Seq<char>)
    requires
        !scan(source).failed,
    ensures
        scan(source).next_id == 1 + opens(source),
    decreases source.len(),
{
    if source.len() > 0 {
        lemma_loops_are_counted(source.drop_last());
    }
}

/// In the scan of a source that holds nothing but symbols, the
/// instructions stand one for one, and in order, for the symbols.
pub proof fn lemma_instruction_per_symbol(source: Seq<char>)
    requires
        forall|i: int| 0 <= i < source.len() ==> is_symbol(#[trigger] source[i]),
        !scan(source).failed,
    ensures
        scan(source).ops.len() == source.len(),
        forall|k: int|
            0 <= k < source.len() ==> stands_for(source, k, #[trigger] scan(source).ops[k]),
    decreases source.len(),
{
    if source.len() > 0 {
        let front = source.drop_last();
        let last = front.len() as int;
        lemma_instruction_per_symbol(front);
        lemma_loops_are_counted(front);
        assert(is_symbol(source[last]));
        assert forall|k: int| 0 <= k < source.len() implies stands_for(
            source,
            k,
            #[trigger] scan(source).ops[k],
        ) by {
            if k < last {
                assert(source.take(k) == front.take(k));
                assert(scan(source).ops[k] == scan(front).ops[k]);
                assert(stands_for(front, k, scan(front).ops[k]));
            } else {
                assert(source.take(k) == front);
            }
        }
    }
}

} // verus!
