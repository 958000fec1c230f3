use brainfuck_search::data::{BfInstruction, CompressedBF};
use brainfuck_search::util::preprocess_input;

const TAPE_SIZE: usize = 30000;

/// Tests preprocessing an empty program.
#[test]
fn test_empty_input() {
    let result = preprocess_input("", TAPE_SIZE);
    assert!(result.is_ok());
    let info = result.unwrap();
    assert_eq!(info.code.size(), 0);
    assert_eq!(info.jump_table, Vec::<i64>::new());
    assert_eq!(info.current_paren_count, 0);
}

/// Tests a program with valid instructions but no loops.
#[test]
fn test_no_loops() {
    let input = "+-<>,.";
    let result = preprocess_input(input, TAPE_SIZE);
    assert!(result.is_ok());
    let info = result.unwrap();

    let expected_code = CompressedBF::from_string(input);
    assert_eq!(info.code, expected_code);

    let expected_jump_table = vec![-1, -1, -1, -1, -1, -1];
    assert_eq!(info.jump_table, expected_jump_table);

    assert_eq!(info.current_paren_count, 0);
}

/// Tests a program with a single, simple loop.
#[test]
fn test_simple_loop() {
    let input = "+[]";
    let result = preprocess_input(input, TAPE_SIZE);
    assert!(result.is_ok());
    let info = result.unwrap();

    let expected_jump_table = vec![-1, 3, 2];
    assert_eq!(info.jump_table, expected_jump_table);
    assert_eq!(info.current_paren_count, 0);
}

/// Tests a program with nested loops.
#[test]
fn test_nested_loops() {
    let input = "[[]]";
    let result = preprocess_input(input, TAPE_SIZE);
    assert!(result.is_ok());
    let info = result.unwrap();

    let expected_jump_table = vec![4, 3, 2, 1];
    assert_eq!(info.jump_table, expected_jump_table);
    assert_eq!(info.current_paren_count, 0);
}

/// Tests for an unclosed loop start bracket '['.
#[test]
fn test_unmatched_loop_start() {
    let input = "[.";
    let result = preprocess_input(input, TAPE_SIZE);
    assert!(result.is_err());
    assert_eq!(result.unwrap_err().message(), "Unmatched loop in the input.");
}

/// Tests for a loop end bracket ']' without a matching start.
#[test]
fn test_unmatched_loop_end() {
    let input = ".]";
    let result = preprocess_input(input, TAPE_SIZE);
    assert!(result.is_err());
    assert_eq!(result.unwrap_err().message(), "Loop end without matching loop start.");
}

/// Tests for mismatched brackets where ']' appears before '['.
#[test]
fn test_mismatched_loops() {
    let input = "][.";
    let result = preprocess_input(input, TAPE_SIZE);
    assert!(result.is_err());
    assert_eq!(result.unwrap_err().message(), "Loop end without matching loop start.");
}

/// Verifies that the initial state of the program is set correctly.
#[test]
fn test_initial_continue_state() {
    let result = preprocess_input("+", TAPE_SIZE).unwrap();
    let state = result.continue_state;

    assert_eq!(state.resume_pc, 0);
    assert_eq!(state.resume_output_ind, 0);
    assert_eq!(state.program_state.tape_head, 0);
    // Ensure the tape is initialized to all zeros.
    assert!(state.program_state.tape.iter().all(|&x| x == 0));
}

/// Verifies that the generated jump table is the correct size.
#[test]
fn test_jump_table_size() {
    let input = "+[]";
    let result = preprocess_input(input, TAPE_SIZE);
    assert!(result.is_ok());
    let info = result.unwrap();

    assert_eq!(info.jump_table.len(), info.code.size());
}

/// Verifies that only jump characters have valid jump targets and that
/// all other jump table values are -1.  There should be absolutely no -2
/// values.
#[test]
fn test_jump_table_values() {
    let input = ">++++++++[<+++++++++>-]<.>++++[<+++++++>-]<+.+++++++..+++.>>++++++[<+++++++>-]<++.------------.>++++++[<+++++++++>-]<+.<.+++.------.--------.>>>++++[<++++++++>-]<+.";
    let result = preprocess_input(input, TAPE_SIZE);
    assert!(result.is_ok());
    let info = result.unwrap();

    for (i, &value) in info.jump_table.iter().enumerate() {
        if info.code.get(i) == Some(BfInstruction::LoopStart)
            || info.code.get(i) == Some(BfInstruction::LoopEnd)
        {
            assert!(value != -2);
        } else {
            assert_eq!(value, -1);
        }
    }
}
