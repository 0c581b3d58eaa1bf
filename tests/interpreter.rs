use std::collections::HashMap;

use brainfuck::{bf_jumps, bf_step, parse, tokenize, Action, BFState, Interpreter, InvalidProgramError};

/// Runs a program that does no input or output to its end.
fn run_to_end(program: &str, mem_size: usize) -> Vec<u32> {
    let program = program.as_bytes();
    let jumps = bf_jumps(program).unwrap();
    let mut state = BFState::new(mem_size);
    let mut pc = 0usize;
    loop {
        match bf_step(program, &jumps, &mut state, pc) {
            Action::Continue(next) => pc = next,
            Action::Halt => break,
            other => panic!("unexpected action {:?}", other),
        }
    }
    state.cells().to_vec()
}

#[test]
fn test_execution_produces_expected_mem_contents() {
    let program = "+++>+++>+++--<-";
    let tokens = tokenize(&program.chars().collect());
    assert!(parse(&tokens).is_ok());
    let result = run_to_end(program, 30000);
    let expected = [3, 2, 1];

    assert_eq!(result[0..3], expected);
}

#[test]
fn jumps_of_nested_loops() {
    let expected: HashMap<usize, usize> = [(0, 3), (1, 2), (2, 1), (3, 0)].into_iter().collect();
    assert_eq!(bf_jumps("[[]]".as_bytes()).unwrap(), expected);
}

#[test]
fn jumps_fail_on_extra_close() {
    assert_eq!(
        bf_jumps("[[]]]".as_bytes()),
        Err(InvalidProgramError::UnexpectedClosingBracket(4))
    );
}

#[test]
fn jumps_fail_on_extra_open() {
    assert_eq!(
        bf_jumps("-=[[[[]]]".as_bytes()),
        Err(InvalidProgramError::ExcessiveOpeningBrackets(2))
    );
    assert_eq!(
        bf_jumps("[[][[]".as_bytes()),
        Err(InvalidProgramError::ExcessiveOpeningBrackets(3))
    );
}

#[test]
fn jumps_of_empty_program() {
    assert!(bf_jumps(&[]).unwrap().is_empty());
}

#[test]
fn eval_leaves_expected_cells() {
    assert_eq!(run_to_end("+++>+++>+++", 3), vec![3, 3, 3]);
    assert_eq!(run_to_end("+++>+++>+++--<-", 3), vec![3, 2, 1]);
}

#[test]
fn eval_runs_loops() {
    // Moves five into the second cell.
    assert_eq!(run_to_end("+++++[->+<]", 2), vec![0, 5]);
    // A loop over a zero cell is skipped.
    assert_eq!(run_to_end("[+]+", 1), vec![1]);
}

#[test]
fn cell_arithmetic_wraps() {
    assert_eq!(run_to_end("-", 1), vec![u32::MAX]);
    let mut state = BFState::new(1);
    state.write(u32::MAX);
    state.inc();
    assert_eq!(state.read(), 0);
}

#[test]
fn step_reports_io_and_faults() {
    let jumps = HashMap::new();
    let mut state = BFState::new(1);
    assert_eq!(bf_step(".".as_bytes(), &jumps, &mut state, 0), Action::Output(1));
    assert_eq!(bf_step(",".as_bytes(), &jumps, &mut state, 0), Action::Input(1));
    assert_eq!(bf_step("<".as_bytes(), &jumps, &mut state, 0), Action::Fault);
    assert_eq!(bf_step("x".as_bytes(), &jumps, &mut state, 0), Action::Continue(1));
    assert_eq!(bf_step("x".as_bytes(), &jumps, &mut state, 1), Action::Halt);
    // A loop open on a zero cell needs its partner in the map.
    assert_eq!(bf_step("[]".as_bytes(), &jumps, &mut state, 0), Action::Fault);
    let mut state = BFState::new(1);
    assert_eq!(bf_step(">".as_bytes(), &jumps, &mut state, 0), Action::Continue(1));
    assert!(!state.pointer_in_bounds());
    assert_eq!(bf_step("+".as_bytes(), &jumps, &mut state, 0), Action::Fault);
}

#[test]
fn state_moves_and_writes() {
    let mut state = BFState::new(3);
    assert_eq!(state.cells(), &[0, 0, 0]);
    state.fwd();
    state.inc();
    state.inc();
    state.fwd();
    state.write(7);
    state.dec();
    state.bwd();
    assert_eq!(state.read(), 2);
    assert_eq!(state.cells(), &[0, 2, 6]);
}

#[test]
fn interpreter_runs_to_the_end() {
    let mut interpreter = Interpreter::new("++[>+++<-]>.".as_bytes(), 4).unwrap();
    let mut outputs = Vec::new();
    loop {
        match interpreter.step() {
            Action::Continue(_) => (),
            Action::Output(_) => outputs.push(interpreter.read()),
            Action::Halt => break,
            other => panic!("unexpected action {:?}", other),
        }
    }
    assert_eq!(outputs, vec![6]);
    assert_eq!(interpreter.state().cells(), &[0, 6, 0, 0]);
}

#[test]
fn interpreter_takes_input_from_the_caller() {
    let mut interpreter = Interpreter::new(",+".as_bytes(), 1).unwrap();
    assert_eq!(interpreter.step(), Action::Input(1));
    interpreter.write(65);
    assert_eq!(interpreter.step(), Action::Continue(2));
    assert_eq!(interpreter.step(), Action::Halt);
    assert_eq!(interpreter.read(), 66);
}

#[test]
fn interpreter_refuses_unbalanced_programs() {
    assert_eq!(
        Interpreter::new("-=[[[[]]]".as_bytes(), 5).err(),
        Some(InvalidProgramError::ExcessiveOpeningBrackets(2))
    );
    assert_eq!(
        Interpreter::new("]".as_bytes(), 5).err(),
        Some(InvalidProgramError::UnexpectedClosingBracket(0))
    );
}
