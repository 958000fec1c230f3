use brainfuck_search::run::{
    get_max_steps_reached, plain_step, run_program_fragment, run_program_fragment_without_states,
    BfRunResult, PlainStepOutcome, Workspace,
};
use brainfuck_search::util::preprocess_input;

const W: usize = 4;

/// Drive the plain interpreter to completion, feeding it the given
/// input bytes and collecting what it emits.
fn run_plain(program: &str, mut inputs: Vec<u8>) -> Vec<u8> {
    let info = preprocess_input(program, W).unwrap();
    let mut state = info.continue_state.clone();
    let mut emitted = Vec::new();
    let mut pending: Option<u8> = None;
    loop {
        match plain_step(&info, &mut state, pending.take()) {
            PlainStepOutcome::Continued => {}
            PlainStepOutcome::Emitted(b) => emitted.push(b),
            PlainStepOutcome::NeedsInput => {
                pending = Some(if inputs.is_empty() { 0 } else { inputs.remove(0) });
            }
            PlainStepOutcome::Halted => return emitted,
            other => panic!("unexpected plain step outcome: {:?}", other),
        }
    }
}

/// The plain interpreter runs a multiplication loop to completion.
#[test]
fn test_plain_run_emits_product() {
    assert_eq!(run_plain("++[>+++<-]>.", vec![]), vec![6]);
}

/// The plain interpreter consumes input bytes and echoes them.
#[test]
fn test_plain_run_consumes_input() {
    assert_eq!(run_plain(",+.,+.", vec![10, 20]), vec![11, 21]);
}

/// A program that emits exactly the target halts with `Success`.
#[test]
fn test_run_success() {
    let mut ws = Workspace::new();
    let info = preprocess_input("+++.", W).unwrap();
    let result = run_program_fragment_without_states(&mut ws, &info, &[3]);
    assert_eq!(result, BfRunResult::Success);
}

/// Emitting a byte that differs from the target is a mismatch.
#[test]
fn test_run_target_mismatch() {
    let mut ws = Workspace::new();
    let info = preprocess_input("+.", W).unwrap();
    let result = run_program_fragment_without_states(&mut ws, &info, &[5]);
    assert_eq!(result, BfRunResult::TargetMismatchError);
}

/// Emitting past the end of the target is a mismatch as well.
#[test]
fn test_run_output_past_target() {
    let mut ws = Workspace::new();
    let info = preprocess_input("..", W).unwrap();
    let result = run_program_fragment_without_states(&mut ws, &info, &[0]);
    assert_eq!(result, BfRunResult::TargetMismatchError);
}

/// Moving left at cell zero hits the tape head bound.
#[test]
fn test_run_tape_head_bound() {
    let mut ws = Workspace::new();
    let info = preprocess_input("<", W).unwrap();
    let result = run_program_fragment_without_states(&mut ws, &info, &[]);
    assert_eq!(result, BfRunResult::TapeHeadBoundError);
}

/// Moving right off the far edge of the tape is out of memory.
#[test]
fn test_run_oom() {
    let mut ws = Workspace::new();
    let info = preprocess_input(">>>>", W).unwrap();
    let result = run_program_fragment_without_states(&mut ws, &info, &[]);
    assert_eq!(result, BfRunResult::OOMError);
}

/// The search interpreter rejects the input token.
#[test]
fn test_run_input_token() {
    let mut ws = Workspace::new();
    let info = preprocess_input(",", W).unwrap();
    let result = run_program_fragment_without_states(&mut ws, &info, &[]);
    assert_eq!(result, BfRunResult::InputTokenError);
}

/// A program that halts without having emitted the whole target suspends
/// with output progress captured.
#[test]
fn test_run_incomplete_output() {
    let mut ws = Workspace::new();
    let info = preprocess_input("+.", W).unwrap();
    match run_program_fragment_without_states(&mut ws, &info, &[1, 2]) {
        BfRunResult::IncompleteOutputSuccess(cs) => {
            assert_eq!(cs.resume_pc, 2);
            assert_eq!(cs.resume_output_ind, 1);
            assert_eq!(cs.program_state.tape, vec![1, 0, 0, 0]);
            assert_eq!(cs.program_state.tape_head, 0);
        },
        other => panic!("unexpected classification: {:?}", other),
    }
}

/// An empty loop body with a nonzero cell loops forever: the tracking
/// interpreter detects the state recurrence.
#[test]
fn test_tracking_detects_infinite_loop() {
    let mut ws = Workspace::new();
    let info = preprocess_input("+[]", W).unwrap();
    let result = run_program_fragment(&mut ws, &info, &[]);
    assert_eq!(result, BfRunResult::InfiniteLoopError);
}

/// The fast mode falls back to tracking, so it classifies the same
/// endless program as an infinite loop.
#[test]
fn test_fast_mode_falls_back_on_infinite_loop() {
    let mut ws = Workspace::new();
    let info = preprocess_input("+[]", W).unwrap();
    let result = run_program_fragment_without_states(&mut ws, &info, &[]);
    assert_eq!(result, BfRunResult::InfiniteLoopError);
}

/// For a program that halts within the step cap, tracking mode returns
/// the same outcome as fast mode: no false infinite loop.
#[test]
fn test_tracking_agrees_with_fast_on_halting_program() {
    let mut ws = Workspace::new();
    let info = preprocess_input("++[>+++<-]>.", W).unwrap();
    let fast = run_program_fragment_without_states(&mut ws, &info, &[6]);
    let tracking = run_program_fragment(&mut ws, &info, &[6]);
    assert_eq!(fast, BfRunResult::Success);
    assert_eq!(tracking, fast);
}

/// Running the same seed against the same target twice yields identical
/// results, resume state included.
#[test]
fn test_interpreter_determinism() {
    let mut ws = Workspace::new();
    let info = preprocess_input("++[>+<-]>", W).unwrap();
    let first = run_program_fragment_without_states(&mut ws, &info, &[9, 9]);
    let second = run_program_fragment_without_states(&mut ws, &info, &[9, 9]);
    assert_eq!(first, second);
    let third = run_program_fragment(&mut ws, &info, &[9, 9]);
    assert_eq!(third, first);
}

/// The workspace records the highest step count a fast run reached.
#[test]
fn test_max_steps_recorded() {
    let mut ws = Workspace::new();
    assert_eq!(get_max_steps_reached(&ws), 0);
    let info = preprocess_input("+++.", W).unwrap();
    let result = run_program_fragment_without_states(&mut ws, &info, &[3]);
    assert_eq!(result, BfRunResult::Success);
    assert_eq!(get_max_steps_reached(&ws), 4);
}
