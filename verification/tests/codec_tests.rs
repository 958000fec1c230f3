use brainfuck_search::codec::{decode_seed, encode_seed};
use brainfuck_search::run::{run_program_fragment_without_states, BfRunResult, Workspace};
use brainfuck_search::util::preprocess_input;

const W: usize = 4;

/// Writing a seed and reading it back yields an equal seed.
#[test]
fn test_seed_round_trip() {
    let info = preprocess_input("+[-]>", W).unwrap();
    let bytes = encode_seed(&info);
    assert_eq!(bytes.len(), 9 * 5 + W + 25);
    let back = decode_seed(&bytes, 0, 5, W).expect("a written record must parse");
    assert_eq!(back.code.to_vec(), info.code.to_vec());
    assert_eq!(back.jump_table, info.jump_table);
    assert_eq!(back.current_paren_count, info.current_paren_count);
    assert_eq!(back.continue_state, info.continue_state);
}

/// Round trip of several records laid out back to back, as the frontier
/// file stores them.
#[test]
fn test_frontier_round_trip() {
    let seeds = vec![
        preprocess_input("+++", W).unwrap(),
        preprocess_input("[-]", W).unwrap(),
        preprocess_input(".>.", W).unwrap(),
    ];
    let mut bytes: Vec<u8> = Vec::new();
    for seed in &seeds {
        bytes.extend_from_slice(&encode_seed(seed));
    }
    let record = 9 * 3 + W + 25;
    for (i, seed) in seeds.iter().enumerate() {
        let back = decode_seed(&bytes, i * record, 3, W).expect("record must parse");
        assert_eq!(back.code.to_vec(), seed.code.to_vec());
        assert_eq!(back.jump_table, seed.jump_table);
        assert_eq!(back.current_paren_count, seed.current_paren_count);
        assert_eq!(back.continue_state, seed.continue_state);
    }
}

/// A corrupt record does not parse: an invalid instruction byte.
#[test]
fn test_decode_rejects_bad_instruction() {
    let info = preprocess_input("+++", W).unwrap();
    let mut bytes = encode_seed(&info);
    bytes[0] = 9;
    assert!(decode_seed(&bytes, 0, 3, W).is_none());
}

/// A corrupt record does not parse: a jump table that does not match the
/// code.
#[test]
fn test_decode_rejects_bad_jump_table() {
    let info = preprocess_input("+[]", W).unwrap();
    let mut bytes = encode_seed(&info);
    // first jump entry: -1 for the leading '+'; forge it
    bytes[3] = 7;
    assert!(decode_seed(&bytes, 0, 3, W).is_none());
}

/// A truncated buffer does not parse.
#[test]
fn test_decode_rejects_short_buffer() {
    let info = preprocess_input("+++", W).unwrap();
    let mut bytes = encode_seed(&info);
    bytes.pop();
    assert!(decode_seed(&bytes, 0, 3, W).is_none());
}

/// A decoded partial seed (an outstanding open bracket whose entry is
/// still -2) runs: the unmatched opener on a zero cell classifies as a
/// no-op error.
#[test]
fn test_decoded_partial_seed_runs_to_noop() {
    let mut bytes: Vec<u8> = Vec::new();
    bytes.push(4); // '[' by ordinal
    bytes.extend_from_slice(&(-2i64).to_le_bytes());
    bytes.extend_from_slice(&[0u8; W]); // tape
    bytes.push(0); // head
    bytes.extend_from_slice(&0u64.to_le_bytes()); // pc
    bytes.extend_from_slice(&0u64.to_le_bytes()); // output cursor
    bytes.extend_from_slice(&1u64.to_le_bytes()); // open count
    let seed = decode_seed(&bytes, 0, 1, W).expect("partial record must parse");
    assert_eq!(seed.current_paren_count, 1);
    let mut ws = Workspace::new();
    let result = run_program_fragment_without_states(&mut ws, &seed, &[]);
    assert_eq!(result, BfRunResult::NOOPError);
}
