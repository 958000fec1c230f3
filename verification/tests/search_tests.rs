use brainfuck_search::data::BfInstruction;
use brainfuck_search::run::{
    run_program_fragment_without_states, BfRunResult, RunningProgramInfo, Workspace,
};
use brainfuck_search::search::{expand_seed, find_program, handle_run_result, SearchError};
use brainfuck_search::tracker::ConfigSet;
use brainfuck_search::util::preprocess_input;
use brainfuck_search::MAX_TAPE_SIZE;

const MAX_SIZE: usize = 16;

/// Run a found program through the interpreter against the target: the
/// oracle is independent of which program the search chose.
fn emits_exactly(program: &[BfInstruction], target: &[u8]) -> bool {
    let mut text = String::new();
    for &i in program {
        text.push(i.symbol());
    }
    let info = preprocess_input(&text, MAX_TAPE_SIZE).unwrap();
    let mut ws = Workspace::new();
    run_program_fragment_without_states(&mut ws, &info, target) == BfRunResult::Success
}

fn no_forbidden_adjacency(program: &[BfInstruction]) -> bool {
    program.windows(2).all(|p| {
        !matches!(
            (p[0], p[1]),
            (BfInstruction::Inc, BfInstruction::Dec)
                | (BfInstruction::Dec, BfInstruction::Inc)
                | (BfInstruction::Left, BfInstruction::Right)
                | (BfInstruction::Right, BfInstruction::Left)
                | (BfInstruction::LoopStart, BfInstruction::LoopEnd)
        )
    })
}

/// An empty target is solved by the empty program at length zero.
#[test]
fn test_search_empty_target() {
    let mut ws = Workspace::new();
    let result = find_program(&mut ws, &[], "", MAX_TAPE_SIZE, MAX_SIZE);
    assert_eq!(result, Ok(vec![]));
}

/// The shortest program that emits one zero byte is a single output.
#[test]
fn test_search_single_zero() {
    let mut ws = Workspace::new();
    let result = find_program(&mut ws, &[0], "", MAX_TAPE_SIZE, MAX_SIZE);
    assert_eq!(result, Ok(vec![BfInstruction::Output]));
}

/// The shortest program for one byte of value one.
#[test]
fn test_search_single_one() {
    let mut ws = Workspace::new();
    let result = find_program(&mut ws, &[1], "", MAX_TAPE_SIZE, MAX_SIZE);
    assert_eq!(result, Ok(vec![BfInstruction::Inc, BfInstruction::Output]));
}

/// Three increments then an output for a byte of value three.
#[test]
fn test_search_single_three() {
    let mut ws = Workspace::new();
    let result = find_program(&mut ws, &[3], "", MAX_TAPE_SIZE, MAX_SIZE);
    assert_eq!(
        result,
        Ok(vec![
            BfInstruction::Inc,
            BfInstruction::Inc,
            BfInstruction::Inc,
            BfInstruction::Output
        ])
    );
}

/// The program found for a byte of value fifteen executes to exactly
/// that byte, and contains no forbidden adjacency.  The search is seeded
/// with a loop prefix: the full breadth-first enumeration from the empty
/// program out to this length runs far past this test's time budget.
#[test]
fn test_search_fifteen() {
    let mut ws = Workspace::new();
    let result = find_program(&mut ws, &[15], "+++[>+++++<-]", MAX_TAPE_SIZE, MAX_SIZE);
    let program = result.expect("a short completion of the seed exists");
    assert!(program.len() <= 16);
    assert!(emits_exactly(&program, &[15]));
    assert!(no_forbidden_adjacency(&program));
}

/// The program found for two bytes of value two executes to exactly
/// those bytes.
#[test]
fn test_search_two_twos() {
    let mut ws = Workspace::new();
    let result = find_program(&mut ws, &[2, 2], "", MAX_TAPE_SIZE, MAX_SIZE);
    let program = result.expect("a short program exists");
    assert!(emits_exactly(&program, &[2, 2]));
    assert!(no_forbidden_adjacency(&program));
}

/// Every found program is free of the pruned adjacencies.
#[test]
fn test_search_results_are_canonical() {
    for target in [[4u8], [7u8], [9u8]] {
        let mut ws = Workspace::new();
        let program = find_program(&mut ws, &target, "", MAX_TAPE_SIZE, MAX_SIZE).unwrap();
        assert!(no_forbidden_adjacency(&program));
        assert!(emits_exactly(&program, &target));
    }
}

/// An unbalanced starting program is rejected.
#[test]
fn test_search_rejects_unbalanced_start() {
    let mut ws = Workspace::new();
    let result = find_program(&mut ws, &[1], "[", MAX_TAPE_SIZE, MAX_SIZE);
    assert_eq!(result, Err(SearchError::UnmatchedParens));
    assert_eq!(
        result.unwrap_err().message(),
        "Starting program has unmatched parentheses."
    );
    let mut ws2 = Workspace::new();
    let result2 = find_program(&mut ws2, &[1], "]", MAX_TAPE_SIZE, MAX_SIZE);
    assert_eq!(result2, Err(SearchError::UnmatchedParens));
}

/// A target no short program reaches exhausts the length cap.
#[test]
fn test_search_length_limit() {
    let mut ws = Workspace::new();
    let result = find_program(&mut ws, &[200], "", MAX_TAPE_SIZE, 3);
    assert_eq!(result, Err(SearchError::LengthLimit));
}

/// A starting program that already solves the target is returned itself.
#[test]
fn test_search_returns_solving_start() {
    let mut ws = Workspace::new();
    let result = find_program(&mut ws, &[2], "++.", MAX_TAPE_SIZE, 16);
    assert_eq!(
        result,
        Ok(vec![BfInstruction::Inc, BfInstruction::Inc, BfInstruction::Output])
    );
}

/// The classifier returns the program exactly on a success; every error
/// classification leaves frontier and filter unchanged.
#[test]
fn test_handle_run_result_success_iff() {
    let mut ws = Workspace::new();
    let mut frontier: Vec<RunningProgramInfo> = Vec::new();
    let mut filter = ConfigSet::new();

    let info = preprocess_input("+.", MAX_TAPE_SIZE).unwrap();
    let res = run_program_fragment_without_states(&mut ws, &info, &[1]);
    let solution = handle_run_result(res, info, &mut frontier, &mut filter, &[1]);
    assert_eq!(solution, Some(vec![BfInstruction::Inc, BfInstruction::Output]));
    assert!(frontier.is_empty());

    let info2 = preprocess_input("<", MAX_TAPE_SIZE).unwrap();
    let res2 = run_program_fragment_without_states(&mut ws, &info2, &[]);
    assert_eq!(res2, BfRunResult::TapeHeadBoundError);
    assert!(handle_run_result(res2, info2, &mut frontier, &mut filter, &[]).is_none());
    assert!(frontier.is_empty());
}

/// A pure-output suspension is promoted once: a second seed reaching the
/// same (configuration, output cursor) pair is dropped by the dedup
/// filter.
#[test]
fn test_dedup_filter_drops_repeated_state() {
    let mut ws = Workspace::new();
    let mut frontier: Vec<RunningProgramInfo> = Vec::new();
    let mut filter = ConfigSet::new();
    let target = [1u8, 2u8];

    // "+." suspends with tape [1,0,0,0], head 0, one byte emitted
    let info1 = preprocess_input("+.", MAX_TAPE_SIZE).unwrap();
    let res1 = run_program_fragment_without_states(&mut ws, &info1, &target);
    assert!(matches!(res1, BfRunResult::IncompleteOutputSuccess(_)));
    assert!(handle_run_result(res1, info1, &mut frontier, &mut filter, &target).is_none());
    assert_eq!(frontier.len(), 1);

    // "+><." reaches the same configuration and output progress
    let info2 = preprocess_input("+><.", MAX_TAPE_SIZE).unwrap();
    let res2 = run_program_fragment_without_states(&mut ws, &info2, &target);
    assert!(matches!(res2, BfRunResult::IncompleteOutputSuccess(_)));
    assert!(handle_run_result(res2, info2, &mut frontier, &mut filter, &target).is_none());
    assert_eq!(frontier.len(), 1);
}

/// Expanding a parent seed returns the solving extension when one of the
/// allowed one-instruction extensions solves the target.
#[test]
fn test_expand_seed_finds_solving_extension() {
    let mut ws = Workspace::new();
    let mut frontier: Vec<RunningProgramInfo> = Vec::new();
    let mut filter = ConfigSet::new();
    let target = [1u8];

    // the parent "+" suspends; its extension "+." solves the target
    let parent_run = preprocess_input("+", MAX_TAPE_SIZE).unwrap();
    let res = run_program_fragment_without_states(&mut ws, &parent_run, &target);
    let mut level0: Vec<RunningProgramInfo> = Vec::new();
    assert!(handle_run_result(res, parent_run, &mut level0, &mut filter, &target).is_none());
    assert_eq!(level0.len(), 1);

    let solution = expand_seed(&mut ws, &level0[0], &target, &mut frontier, &mut filter);
    assert_eq!(solution, Some(vec![BfInstruction::Inc, BfInstruction::Output]));
}
