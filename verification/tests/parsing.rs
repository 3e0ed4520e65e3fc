use tape_machine::fault::Fault;
use tape_machine::jump_map::create_jump_map;
use tape_machine::op::{Jump, Op};
use tape_machine::parse::parse;

#[test]
fn each_symbol_gives_its_instruction() {
    let program = parse("+-><.,[]").unwrap();
    assert_eq!(
        program,
        vec![
            Op::Add(1),
            Op::Sub(1),
            Op::Move(1),
            Op::Move(-1),
            Op::Output,
            Op::Input,
            Op::JumpIfZero(Jump { here: 1, jump_to: -1 }),
            Op::JumpIfNonZero(Jump { here: -1, jump_to: 1 }),
        ]
    );
}

#[test]
fn empty_source_gives_empty_program() {
    assert_eq!(parse(""), Ok(vec![]));
}

#[test]
fn loops_are_numbered_in_opening_order() {
    let program = parse("[[][]]").unwrap();
    assert_eq!(
        program,
        vec![
            Op::JumpIfZero(Jump { here: 1, jump_to: -1 }),
            Op::JumpIfZero(Jump { here: 2, jump_to: -2 }),
            Op::JumpIfNonZero(Jump { here: -2, jump_to: 2 }),
            Op::JumpIfZero(Jump { here: 3, jump_to: -3 }),
            Op::JumpIfNonZero(Jump { here: -3, jump_to: 3 }),
            Op::JumpIfNonZero(Jump { here: -1, jump_to: 1 }),
        ]
    );
}

#[test]
fn lone_closing_bracket_is_rejected() {
    assert_eq!(parse("]"), Err(Fault::UnmatchedBracket));
}

#[test]
fn surplus_closing_bracket_is_rejected() {
    assert_eq!(parse("[]]"), Err(Fault::UnmatchedBracket));
    assert_eq!(parse("+[-]]+[-]"), Err(Fault::UnmatchedBracket));
    assert_eq!(parse("][" ), Err(Fault::UnmatchedBracket));
}

#[test]
fn loop_left_open_is_rejected() {
    assert_eq!(parse("["), Err(Fault::UnmatchedBracket));
    assert_eq!(parse("+[[-]"), Err(Fault::UnmatchedBracket));
}

#[test]
fn commentary_is_skipped() {
    let plain = parse("+[-]").unwrap();
    let annotated = parse("add one + then [ count - down ] done\n").unwrap();
    assert_eq!(annotated.len(), plain.len());
    assert_eq!(annotated, plain);
}

#[test]
fn commentary_alone_gives_no_instruction() {
    assert_eq!(parse("hello world 123 \t\n"), Ok(vec![]));
    assert_eq!(parse("\u{e9}\u{4e16}\u{1f600}"), Ok(vec![]));
}

#[test]
fn program_is_no_longer_than_source() {
    let source = "a+b-c[d>e<f]g.h,";
    let program = parse(source).unwrap();
    assert_eq!(program.len(), 8);
    assert!(program.len() <= source.chars().count());
}

#[test]
fn jump_map_of_nested_loops() {
    let program = parse("[[]]").unwrap();
    let jump_map = create_jump_map(&program);
    assert_eq!(jump_map.len(), 4);
    assert_eq!(jump_map.get(&1), Some(&0));
    assert_eq!(jump_map.get(&2), Some(&1));
    assert_eq!(jump_map.get(&-2), Some(&2));
    assert_eq!(jump_map.get(&-1), Some(&3));
}

#[test]
fn jump_map_skips_other_instructions() {
    let program = parse("+>[-<]>.").unwrap();
    let jump_map = create_jump_map(&program);
    assert_eq!(jump_map.len(), 2);
    assert_eq!(jump_map.get(&1), Some(&2));
    assert_eq!(jump_map.get(&-1), Some(&5));
    assert_eq!(jump_map.get(&2), None);
}

#[test]
fn jump_map_keeps_last_position_of_repeated_identifier() {
    let program = vec![
        Op::JumpIfZero(Jump { here: 7, jump_to: -7 }),
        Op::Add(1),
        Op::JumpIfNonZero(Jump { here: 7, jump_to: 7 }),
    ];
    let jump_map = create_jump_map(&program);
    assert_eq!(jump_map.len(), 1);
    assert_eq!(jump_map.get(&7), Some(&2));
}

#[test]
fn jump_map_of_empty_program_is_empty() {
    assert!(create_jump_map(&[]).is_empty());
}
