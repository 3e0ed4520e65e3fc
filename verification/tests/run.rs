use tape_machine::fault::Fault;
use tape_machine::jump_map::create_jump_map;
use tape_machine::op::{Jump, Op};
use tape_machine::parse::parse;
use tape_machine::program_state::ProgramState;

fn run(source: &str, input: &[u8], max_ops: isize) -> (ProgramState, Result<(), Fault>) {
    let program = parse(source).unwrap();
    let mut machine = ProgramState::default();
    let result = machine.interpret(&program, input, max_ops);
    (machine, result)
}

#[test]
fn fresh_machine_has_one_zero_cell() {
    let machine = ProgramState::default();
    assert_eq!(machine.tape(), &vec![0u8]);
    assert_eq!(machine.tape_ptr(), 0);
    assert_eq!(machine.inst_ptr(), 0);
    assert_eq!(machine.input_ptr(), 0);
    assert!(machine.output().is_empty());
    assert!(!machine.halted());
}

#[test]
fn echo_returns_its_input() {
    let (machine, result) = run(",+[-.,+]", b"abc", -1);
    assert_eq!(result, Ok(()));
    assert_eq!(machine.output(), &b"abc".to_vec());
    assert_eq!(machine.input_ptr(), 3);
    assert!(machine.halted());
}

#[test]
fn echo_of_longer_text() {
    let (machine, result) = run(",+[-.,+]", b"cool cat :3", -1);
    assert_eq!(result, Ok(()));
    assert_eq!(machine.output(), &b"cool cat :3".to_vec());
}

#[test]
fn decrement_of_zero_wraps_to_255_and_back() {
    let (machine, result) = run("-", &[], -1);
    assert_eq!(result, Ok(()));
    assert_eq!(machine.tape(), &vec![255u8]);
    let (machine, result) = run("-+", &[], -1);
    assert_eq!(result, Ok(()));
    assert_eq!(machine.tape(), &vec![0u8]);
}

#[test]
fn add_and_sub_wrap_modulo_256() {
    let program = vec![Op::Add(100), Op::Add(200), Op::Output, Op::Sub(45), Op::Output];
    let mut machine = ProgramState::default();
    assert_eq!(machine.interpret(&program, &[], -1), Ok(()));
    assert_eq!(machine.output(), &vec![44u8, 255u8]);
}

#[test]
fn counting_loop_runs_three_times() {
    let (machine, result) = run("+++[-]", &[], -1);
    assert_eq!(result, Ok(()));
    assert_eq!(machine.tape(), &vec![0u8]);
    assert_eq!(machine.inst_ptr(), 6);
    assert!(machine.halted());
    // three increments, the loop entry, and three rounds of `-` and `]`
    let (_, exact) = run("+++[-]", &[], 10);
    assert_eq!(exact, Ok(()));
    let (short, early) = run("+++[-]", &[], 9);
    assert_eq!(early, Err(Fault::StepBudgetExceeded));
    assert_eq!(short.inst_ptr(), 5);
    assert_eq!(short.tape(), &vec![0u8]);
}

#[test]
fn loop_body_output_counts_the_rounds() {
    let (machine, result) = run("+++[.-]", &[], -1);
    assert_eq!(result, Ok(()));
    assert_eq!(machine.output(), &vec![3u8, 2u8, 1u8]);
}

#[test]
fn loop_on_zero_cell_is_skipped() {
    let (machine, result) = run("[+.]+", &[], -1);
    assert_eq!(result, Ok(()));
    assert!(machine.output().is_empty());
    assert_eq!(machine.tape(), &vec![1u8]);
    assert_eq!(machine.inst_ptr(), 5);
}

#[test]
fn moving_right_extends_the_tape_with_zero_cells() {
    let (machine, result) = run("+>>>", &[], -1);
    assert_eq!(result, Ok(()));
    assert_eq!(machine.tape(), &vec![1u8, 0, 0, 0]);
    assert_eq!(machine.tape_ptr(), 3);
}

#[test]
fn moving_back_keeps_the_tape() {
    let (machine, result) = run(">+>+<<", &[], -1);
    assert_eq!(result, Ok(()));
    assert_eq!(machine.tape(), &vec![0u8, 1, 1]);
    assert_eq!(machine.tape_ptr(), 0);
}

#[test]
fn long_moves_extend_and_return() {
    let program = vec![Op::Add(9), Op::Move(5), Op::Add(1), Op::Move(-2), Op::Move(1)];
    let mut machine = ProgramState::default();
    assert_eq!(machine.interpret(&program, &[], -1), Ok(()));
    assert_eq!(machine.tape(), &vec![9u8, 0, 0, 0, 0, 1]);
    assert_eq!(machine.tape_ptr(), 4);
}

#[test]
fn moving_left_of_cell_zero_is_a_fault() {
    let (machine, result) = run("+.<+.", &[], -1);
    assert_eq!(result, Err(Fault::PointerUnderflow));
    assert_eq!(machine.output(), &vec![1u8]);
    assert_eq!(machine.inst_ptr(), 2);
    assert_eq!(machine.tape_ptr(), 0);
    assert_eq!(machine.tape(), &vec![1u8]);
    assert!(!machine.halted());
}

#[test]
fn long_move_left_of_cell_zero_is_a_fault() {
    let program = vec![Op::Move(3), Op::Move(-4)];
    let mut machine = ProgramState::default();
    assert_eq!(machine.interpret(&program, &[], -1), Err(Fault::PointerUnderflow));
    assert_eq!(machine.tape_ptr(), 3);
    assert_eq!(machine.inst_ptr(), 1);
    let program = vec![Op::Move(isize::MIN)];
    let mut machine = ProgramState::default();
    assert_eq!(machine.interpret(&program, &[], -1), Err(Fault::PointerUnderflow));
}

#[test]
fn exhausted_input_reads_as_255() {
    let (machine, result) = run(",", &[], -1);
    assert_eq!(result, Ok(()));
    assert_eq!(machine.tape(), &vec![255u8]);
    assert_eq!(machine.input_ptr(), 0);
    let (machine, result) = run(",.,.,.", &[7], -1);
    assert_eq!(result, Ok(()));
    assert_eq!(machine.output(), &vec![7u8, 255, 255]);
    assert_eq!(machine.input_ptr(), 1);
}

#[test]
fn endless_loop_stops_at_the_step_budget() {
    let (machine, result) = run("+[]", &[], 1000);
    assert_eq!(result, Err(Fault::StepBudgetExceeded));
    assert_eq!(machine.inst_ptr(), 2);
    assert_eq!(machine.tape(), &vec![1u8]);
    assert!(!machine.halted());
}

#[test]
fn step_budget_is_spent_exactly() {
    // every instruction of the loop leaves a trace in the state
    let source = "+[.>+]";
    let program = parse(source).unwrap();
    let jump_map = create_jump_map(&program);
    let mut stepped = ProgramState::default();
    let mut before_last = stepped.clone();
    for _ in 0..1000 {
        before_last = stepped.clone();
        assert_eq!(stepped.step(&program, &jump_map, &[]), Ok(()));
    }
    let mut one_more = stepped.clone();
    assert_eq!(one_more.step(&program, &jump_map, &[]), Ok(()));
    let (machine, result) = run(source, &[], 1000);
    assert_eq!(result, Err(Fault::StepBudgetExceeded));
    assert_eq!(machine, stepped);
    assert_ne!(machine, before_last);
    assert_ne!(machine, one_more);
    // 2 instructions lead into the loop, 4 make one round: 249 rounds and 2 instructions
    assert_eq!(machine.output().len(), 250);
    assert_eq!(machine.tape_ptr(), 250);
    assert_eq!(machine.inst_ptr(), 4);
}

#[test]
fn budget_that_suffices_lets_the_run_halt() {
    let (machine, result) = run("+++", &[], 3);
    assert_eq!(result, Ok(()));
    assert!(machine.halted());
    let (machine, result) = run("+++", &[], 2);
    assert_eq!(result, Err(Fault::StepBudgetExceeded));
    assert_eq!(machine.tape(), &vec![2u8]);
    assert_eq!(machine.inst_ptr(), 2);
}

#[test]
fn zero_budget_executes_nothing() {
    let (machine, result) = run("+", &[], 0);
    assert_eq!(result, Err(Fault::StepBudgetExceeded));
    assert_eq!(machine.tape(), &vec![0u8]);
    assert_eq!(machine.inst_ptr(), 0);
    let (machine, result) = run("", &[], 0);
    assert_eq!(result, Ok(()));
    assert!(machine.halted());
}

#[test]
fn negative_budget_does_not_bound_the_run() {
    let (machine, result) = run("-[-]", &[], -1);
    assert_eq!(result, Ok(()));
    assert_eq!(machine.tape(), &vec![0u8]);
    let (_, result) = run("-[-]", &[], isize::MIN);
    assert_eq!(result, Ok(()));
}

#[test]
fn run_resumes_where_the_budget_ended() {
    let program = parse(",+[-.,+]").unwrap();
    let mut machine = ProgramState::default();
    let mut rounds = 0;
    while machine.interpret(&program, b"abc", 1) == Err(Fault::StepBudgetExceeded) {
        rounds += 1;
        assert!(rounds < 1000);
    }
    assert_eq!(machine.output(), &b"abc".to_vec());
    assert!(machine.halted());
    let (whole, _) = run(",+[-.,+]", b"abc", -1);
    assert_eq!(machine, whole);
}

#[test]
fn jump_to_missing_boundary_is_a_fault() {
    let program = vec![Op::Output, Op::JumpIfZero(Jump { here: 1, jump_to: -1 }), Op::Add(1)];
    let mut machine = ProgramState::default();
    assert_eq!(machine.interpret(&program, &[], -1), Err(Fault::UnmatchedBracket));
    assert_eq!(machine.inst_ptr(), 1);
    assert_eq!(machine.output(), &vec![0u8]);
    let program = vec![Op::Add(1), Op::JumpIfNonZero(Jump { here: -1, jump_to: 1 })];
    let mut machine = ProgramState::default();
    assert_eq!(machine.interpret(&program, &[], -1), Err(Fault::UnmatchedBracket));
}

#[test]
fn jump_not_taken_needs_no_partner() {
    let program = vec![Op::Add(1), Op::JumpIfZero(Jump { here: 1, jump_to: -1 }), Op::Output];
    let mut machine = ProgramState::default();
    assert_eq!(machine.interpret(&program, &[], -1), Ok(()));
    assert_eq!(machine.output(), &vec![1u8]);
}

#[test]
fn single_step_executes_one_instruction() {
    let program = parse("+>.").unwrap();
    let jump_map = create_jump_map(&program);
    let mut machine = ProgramState::default();
    assert_eq!(machine.step(&program, &jump_map, &[]), Ok(()));
    assert_eq!(machine.inst_ptr(), 1);
    assert_eq!(machine.tape(), &vec![1u8]);
    assert_eq!(machine.step(&program, &jump_map, &[]), Ok(()));
    assert_eq!(machine.inst_ptr(), 2);
    assert_eq!(machine.tape(), &vec![1u8, 0]);
    assert_eq!(machine.tape_ptr(), 1);
    assert_eq!(machine.step(&program, &jump_map, &[]), Ok(()));
    assert_eq!(machine.inst_ptr(), 3);
    assert_eq!(machine.output(), &vec![0u8]);
}

#[test]
fn nested_loops_multiply() {
    let (machine, result) = run("++++++++[->++++++++<]>+.", &[], -1);
    assert_eq!(result, Ok(()));
    assert_eq!(machine.output(), &vec![65u8]);
}

#[test]
fn greeting_program_prints_its_text() {
    let source = ">>>>>+[-->-[>>+ >-----<<]< --<---]>-.>>>+.>>..+++[.>]<<<<.+++.------.<<-.>>>>+.";
    let (machine, result) = run(source, &[], -1);
    assert_eq!(result, Ok(()));
    assert_eq!(machine.output(), &b"Hello, World!".to_vec());
}

#[test]
fn faulting_step_changes_nothing() {
    let program = vec![Op::Add(3), Op::Move(-1)];
    let jump_map = create_jump_map(&program);
    let mut machine = ProgramState::default();
    assert_eq!(machine.step(&program, &jump_map, &[]), Ok(()));
    let before = machine.clone();
    assert_eq!(machine.step(&program, &jump_map, &[]), Err(Fault::PointerUnderflow));
    assert_eq!(machine, before);
}

#[test]
fn input_byte_255_reads_like_the_end_of_input() {
    let (machine, result) = run(",.,.", &[255, 1], -1);
    assert_eq!(result, Ok(()));
    assert_eq!(machine.output(), &vec![255u8, 1]);
    assert_eq!(machine.input_ptr(), 2);
}

#[test]
fn halted_flag_follows_the_last_run() {
    let first = parse("+").unwrap();
    let longer = parse("+<").unwrap();
    let mut machine = ProgramState::default();
    assert_eq!(machine.interpret(&first, &[], -1), Ok(()));
    assert!(machine.halted());
    assert_eq!(machine.interpret(&longer, &[], -1), Err(Fault::PointerUnderflow));
    assert!(!machine.halted());
    assert_eq!(machine.inst_ptr(), 1);
    assert_eq!(machine.tape(), &vec![1u8]);
}

#[test]
fn run_on_a_halted_machine_does_nothing() {
    let program = parse("+.").unwrap();
    let mut machine = ProgramState::default();
    assert_eq!(machine.interpret(&program, &[], -1), Ok(()));
    let before = machine.clone();
    assert_eq!(machine.interpret(&program, &[], 0), Ok(()));
    assert_eq!(machine, before);
}

#[test]
fn taken_jumps_land_behind_the_partner() {
    // the outer loop is skipped on the zero cell, inner brackets and all
    let (machine, result) = run("[>[+]<]+.", &[], 3);
    assert_eq!(result, Ok(()));
    assert_eq!(machine.output(), &vec![1u8]);
    // the closing boundary leads back to the first instruction of the body
    let (machine, result) = run("++[.-]", &[], -1);
    assert_eq!(result, Ok(()));
    assert_eq!(machine.output(), &vec![2u8, 1]);
    assert_eq!(machine.inst_ptr(), 6);
}
