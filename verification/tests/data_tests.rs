use brainfuck_search::data::{BfInstruction, CompressedBF};

#[test]
fn test_new_and_size() {
    let bf = CompressedBF::new(10, 10);
    assert_eq!(bf.size(), 10);
    assert!(bf.to_vec().iter().all(|&x| x == BfInstruction::Inc)); // default is not initialized
}

#[test]
fn test_set_and_get() {
    let mut bf = CompressedBF::new(5, 5);
    let sequence = [
        BfInstruction::Inc,
        BfInstruction::Dec,
        BfInstruction::Left,
        BfInstruction::Right,
        BfInstruction::LoopStart,
    ];
    for (i, &instr) in sequence.iter().enumerate() {
        bf.set(i, instr);
    }
    for (i, &instr) in sequence.iter().enumerate() {
        assert_eq!(bf.get(i), Some(instr));
    }
}

#[test]
fn test_append_and_get() {
    let mut bf = CompressedBF::new(0, 0);
    let sequence = [
        BfInstruction::Input,
        BfInstruction::Output,
        BfInstruction::LoopEnd,
        BfInstruction::LoopStart,
    ];
    for &instr in &sequence {
        bf.append(instr);
    }
    assert_eq!(bf.size(), sequence.len());
    for (i, &instr) in sequence.iter().enumerate() {
        assert_eq!(bf.get(i), Some(instr));
    }
}

#[test]
fn test_to_vec() {
    let mut bf = CompressedBF::new(3, 3);
    bf.set(0, BfInstruction::Left);
    bf.set(1, BfInstruction::Right);
    bf.set(2, BfInstruction::Dec);
    assert_eq!(
        bf.to_vec(),
        vec![BfInstruction::Left, BfInstruction::Right, BfInstruction::Dec]
    );
}

#[test]
fn test_to_string() {
    let mut bf = CompressedBF::new(4, 4);
    bf.set(0, BfInstruction::Inc);
    bf.set(1, BfInstruction::Dec);
    bf.set(2, BfInstruction::LoopStart);
    bf.set(3, BfInstruction::LoopEnd);
    assert_eq!(bf.to_string(), "+-[]");
}

#[test]
fn test_clone() {
    let mut bf = CompressedBF::new(2, 2);
    bf.set(0, BfInstruction::Input);
    bf.set(1, BfInstruction::Output);
    let clone = bf.clone();
    assert_eq!(clone.get(0), Some(BfInstruction::Input));
    assert_eq!(clone.get(1), Some(BfInstruction::Output));
    assert_eq!(clone.size(), bf.size());
    assert_eq!(clone.to_vec(), bf.to_vec());
}

/// Packing a symbol string and printing it back is the identity on the
/// canonical symbols.
#[test]
fn test_from_string_to_string_round_trip() {
    let bf = CompressedBF::from_string("+-<>[],.");
    assert_eq!(bf.size(), 8);
    assert_eq!(bf.to_string(), "+-<>[],.");
}

/// Unknown characters are ignored when packing a string.
#[test]
fn test_from_string_ignores_unknown() {
    let bf = CompressedBF::from_string("a+ b- c.");
    assert_eq!(bf.to_vec(), vec![BfInstruction::Inc, BfInstruction::Dec, BfInstruction::Output]);
}

/// The ordinal round trip over every instruction.
#[test]
fn test_ordinal_round_trip() {
    let all = [
        BfInstruction::Inc,
        BfInstruction::Dec,
        BfInstruction::Left,
        BfInstruction::Right,
        BfInstruction::LoopStart,
        BfInstruction::LoopEnd,
        BfInstruction::Input,
        BfInstruction::Output,
    ];
    for (i, &instr) in all.iter().enumerate() {
        assert_eq!(instr.to_u8(), i as u8);
        assert_eq!(BfInstruction::from_u8(i as u8), Some(instr));
    }
    assert_eq!(BfInstruction::from_u8(8), None);
    assert_eq!(BfInstruction::from_u8(255), None);
}
