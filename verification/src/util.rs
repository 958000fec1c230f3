//! The preprocessor: it parses a program string, builds the jump table in
//! one pass, and rejects programs with unmatched brackets.

use vstd::prelude::*;
use crate::data::{BfInstruction, CompressedBF, instrs_of_bytes};
use crate::brackets::{
    depth,
    prefix_ok,
    matched,
    unmatched_open,
    unm_stack,
    jt_build,
    lemma_depth_prefix,
    lemma_build_props,
    lemma_matched_unique_close,
    lemma_matched_unique_open,
};
use crate::run::{ProgramState, ContinueState, RunningProgramInfo};

verus! {

use vstd::string::StringSliceAdditionalSpecFns;

/// Some prefix of the program closes a bracket that was never opened.
pub open spec fn has_close_violation(code: Seq<BfInstruction>) -> bool {
    exists|k: int| 0 <= k <= code.len() && depth(code, k) < 0
}

/// Why the preprocessor rejected a program.
#[derive(Debug, Clone, Copy, PartialEq, Eq, Structural)]
pub enum PreprocessError {
    /// A close bracket appeared before any open bracket matching it.
    UnmatchedClose,
    /// An open bracket was never closed.
    UnmatchedOpen,
}

impl PreprocessError {
    /// The diagnostic text of this error.
    pub fn message(&self) -> (r: &'static str)
        ensures
            *self is UnmatchedClose ==> r@ == "Loop end without matching loop start."@,
            *self is UnmatchedOpen ==> r@ == "Unmatched loop in the input."@,
    {
        match self {
            PreprocessError::UnmatchedClose => "Loop end without matching loop start.",
            PreprocessError::UnmatchedOpen => "Unmatched loop in the input.",
        }
    }
}

/// The position past the rightmost `-2` entry, if any.
pub(crate) fn rightmost_open(jump_table: &Vec<i64>) -> (r: Option<usize>)
    ensures
        match r {
            Some(k) => k < jump_table@.len() && jump_table@[k as int] == -2 && forall|l: int|
                k < l < jump_table@.len() ==> jump_table@[l] != -2,
            None => forall|l: int| 0 <= l < jump_table@.len() ==> jump_table@[l] != -2,
        },
{
    let mut k = jump_table.len();
    while k > 0
        invariant
            k <= jump_table@.len(),
            forall|l: int| k <= l < jump_table@.len() ==> jump_table@[l] != -2,
        decreases k,
    {
        k = k - 1;
        if jump_table[k] == -2 {
            return Some(k);
        }
    }
    None
}

/// Parse a program string and build its seed: the packed code, the jump
/// table of its matched brackets, and the all-zero starting state on a
/// tape of `tape_size` cells.  The program must be closed: a close
/// bracket with no opener is `UnmatchedClose`, a trailing unclosed open
/// bracket is `UnmatchedOpen`.
///
/// For a closed program, every matched pair `(i, j)` has jump entries
/// `j + 1` at `i` and `i + 1` at `j`, no `-2` remains, and every
/// non-bracket entry is `-1`.
pub fn preprocess_input(input: &str, tape_size: usize) -> (r: Result<
    RunningProgramInfo,
    PreprocessError,
>)
    requires
        1 <= tape_size,
        input.spec_bytes().len() < 0x7fff_ffff_ffff_ffff,
    ensures
        (r matches Err(e) && e is UnmatchedClose) <==> has_close_violation(
            instrs_of_bytes(input.spec_bytes()),
        ),
        (r matches Err(e) && e is UnmatchedOpen) <==> (!has_close_violation(
            instrs_of_bytes(input.spec_bytes()),
        ) && depth(
            instrs_of_bytes(input.spec_bytes()),
            instrs_of_bytes(input.spec_bytes()).len() as int,
        ) != 0),
        r matches Ok(info) ==> {
            let code = instrs_of_bytes(input.spec_bytes());
            &&& info.wf()
            &&& info.code@ == code
            &&& prefix_ok(code)
            &&& depth(code, code.len() as int) == 0
            &&& info.current_paren_count == 0
            &&& info.jump_table@ == jt_build(code)
            &&& info.jump_table@.len() == code.len()
            &&& forall|i: int, j: int|
                #[trigger] matched(code, i, j) ==> info.jump_table@[i] == j + 1
                    && info.jump_table@[j] == i + 1
            &&& forall|i: int| 0 <= i < code.len() ==> #[trigger] info.jump_table@[i] != -2
            &&& forall|i: int|
                0 <= i < code.len() && !(code[i] is LoopStart) && !(code[i] is LoopEnd)
                    ==> #[trigger] info.jump_table@[i] == -1
            &&& info.continue_state.resume_pc == 0
            &&& info.continue_state.resume_output_ind == 0
            &&& info.continue_state.program_state.tape_head == 0
            &&& info.continue_state.program_state.tape@ == Seq::new(
                tape_size as nat,
                |i: int| 0u8,
            )
        },
{
    let ghost instrs = instrs_of_bytes(input.spec_bytes());
    let program_code = CompressedBF::from_string(input);
    proof {
        crate::data::lemma_instrs_of_bytes_len(input.spec_bytes());
    }
    let built = build_jump_table(&program_code);
    let (jump_table, current_paren_count) = match built {
        Some(p) => p,
        None => {
            return Err(PreprocessError::UnmatchedClose);
        },
    };
    let ghost full = instrs;

    if current_paren_count != 0 {
        proof {
            lemma_build_props(full);
            assert(depth(full, full.len() as int) == unm_stack(full).len());
        }
        return Err(PreprocessError::UnmatchedOpen);
    }

    let mut tape: Vec<u8> = Vec::new();
    for t in 0..tape_size
        invariant
            tape@.len() == t,
            forall|q: int| 0 <= q < t ==> tape@[q] == 0u8,
    {
        tape.push(0u8);
    }
    proof {
        assert(tape@ =~= Seq::new(tape_size as nat, |i: int| 0u8));
    }

    let continue_state = ContinueState {
        resume_pc: 0,
        resume_output_ind: 0,
        program_state: ProgramState { tape, tape_head: 0 },
    };

    let info = RunningProgramInfo {
        code: program_code,
        current_paren_count,
        jump_table,
        continue_state,
    };
    proof {
        lemma_build_props(full);
        assert(depth(full, full.len() as int) == unm_stack(full).len());
        assert(info.wf());
        // every matched pair reads its partner from the table
        assert forall|i: int, j: int| #[trigger] matched(full, i, j) implies info.jump_table@[i] == j
            + 1 && info.jump_table@[j] == i + 1 by {
            assert(full[j] is LoopEnd);
            assert(matched(full, info.jump_table@[j] - 1, j));
            lemma_matched_unique_open(full, i, info.jump_table@[j] - 1, j);
            assert(full[i] is LoopStart);
            assert(info.jump_table@[i] != -2) by {
                if info.jump_table@[i] == -2 {
                    assert(unmatched_open(full, i));
                    assert(unm_stack(full).contains(i));
                }
            }
            assert(matched(full, i, info.jump_table@[i] - 1));
            lemma_matched_unique_close(full, i, info.jump_table@[i] - 1, j);
        }
        assert forall|i: int| 0 <= i < full.len() implies #[trigger] info.jump_table@[i] != -2 by {
            if info.jump_table@[i] == -2 {
                assert(unmatched_open(full, i));
                assert(unm_stack(full).contains(i));
            }
        }
    }
    Ok(info)
}

/// Build a partial program's jump table in one pass, together with its
/// outstanding open bracket count.  Fails exactly when a close bracket
/// has no outstanding open bracket to match.
pub fn build_jump_table(program_code: &CompressedBF) -> (r: Option<(Vec<i64>, usize)>)
    requires
        program_code.wf(),
        program_code@.len() < 0x7fff_ffff_ffff_ffff,
    ensures
        r matches Some(p) ==> prefix_ok(program_code@) && p.0@ == jt_build(program_code@) && p.1
            == unm_stack(program_code@).len(),
        r is None <==> has_close_violation(program_code@),
{
    let ghost instrs = program_code@;
    let n = program_code.size();
    proof {
        assert(instrs.take(0) =~= Seq::<BfInstruction>::empty());
    }

    let mut jump_table: Vec<i64> = Vec::new();
    let mut current_paren_count: usize = 0;

    for i in 0..n
        invariant
            program_code.wf(),
            program_code@ == instrs,
            n == instrs.len() < 0x7fff_ffff_ffff_ffff,
            prefix_ok(instrs.take(i as int)),
            jump_table@ == jt_build(instrs.take(i as int)),
            jump_table@.len() == i,
            current_paren_count == unm_stack(instrs.take(i as int)).len(),
            current_paren_count <= i,
    {
        let ghost pre = instrs.take(i as int);
        proof {
            lemma_build_props(pre);
            assert(instrs.take(i + 1).drop_last() =~= pre);
            assert(instrs.take(i + 1).last() == instrs[i as int]);
            assert forall|k: int| 0 <= k <= pre.len() implies depth(instrs.take(i + 1), k) == depth(
                pre,
                k,
            ) by {
                lemma_depth_prefix(pre, instrs.take(i + 1), k);
            }
        }
        let instruction = program_code.get(i).unwrap();
        match instruction {
            BfInstruction::LoopStart => {
                jump_table.push(-2);
                current_paren_count = current_paren_count + 1;
                proof {
                    assert(jump_table@ =~= jt_build(instrs.take(i + 1)));
                }
            },
            BfInstruction::LoopEnd => {
                match rightmost_open(&jump_table) {
                    Some(loop_start_index) => {
                        proof {
                            // the rightmost -2 is the top of the open stack
                            let st = unm_stack(pre);
                            assert(unmatched_open(pre, loop_start_index as int));
                            assert(st.contains(loop_start_index as int));
                            let jj = choose|jj: int|
                                0 <= jj < st.len() && st[jj] == loop_start_index as int;
                            assert(st.len() > 0);
                            let top = st[st.len() - 1];
                            assert(unmatched_open(pre, top));
                            assert(jt_build(pre)[top] == -2);
                            assert(top == loop_start_index as int);
                        }
                        jump_table.set(loop_start_index, (i as i64) + 1);
                        jump_table.push((loop_start_index as i64) + 1);
                        current_paren_count = current_paren_count - 1;
                        proof {
                            assert(depth(instrs.take(i + 1), i + 1) == depth(pre, i as int) - 1);
                            assert(depth(pre, i as int) == unm_stack(pre).len());
                            assert(jump_table@ =~= jt_build(instrs.take(i + 1)));
                        }
                    },
                    None => {
                        proof {
                            // no -2 entry means no outstanding open bracket,
                            // so this close bracket dips below depth zero
                            let st = unm_stack(pre);
                            if st.len() > 0 {
                                assert(unmatched_open(pre, st[st.len() - 1]));
                                assert(jt_build(pre)[st[st.len() - 1]] == -2);
                                assert(false);
                            }
                            assert(st.len() == 0);
                            assert(depth(pre, i as int) == 0);
                            assert(depth(instrs.take(i + 1), i + 1) == depth(instrs.take(i + 1), (i
                                + 1) - 1) + crate::brackets::bracket_delta(
                                instrs.take(i + 1)[i as int],
                            ));
                            assert(depth(instrs.take(i + 1), i + 1) == -1);
                            lemma_depth_prefix(instrs.take(i + 1), instrs, i + 1);
                            assert(depth(instrs, i + 1) < 0);
                            assert(has_close_violation(instrs));
                        }
                        return None;
                    },
                }
            },
            _ => {
                jump_table.push(-1);
                proof {
                    assert(jump_table@ =~= jt_build(instrs.take(i + 1)));
                }
            },
        }
        proof {
            assert forall|k: int| 0 <= k <= i + 1 implies #[trigger] depth(instrs.take(i + 1), k)
                >= 0 by {
                if k <= i {
                    assert(depth(instrs.take(i + 1), k) == depth(pre, k));
                } else {
                    assert(depth(instrs.take(i + 1), k) == depth(instrs.take(i + 1), k - 1)
                        + crate::brackets::bracket_delta(instrs.take(i + 1)[k - 1]));
                    assert(depth(instrs.take(i + 1), k - 1) == depth(pre, i as int));
                    if instrs[i as int] is LoopEnd {
                        assert(unm_stack(pre).len() > 0);
                        assert(depth(pre, i as int) >= 1);
                    }
                }
            }
            assert(unm_stack(instrs.take(i + 1)) == (if instrs[i as int] is LoopStart {
                unm_stack(pre).push(i as int)
            } else if instrs[i as int] is LoopEnd {
                unm_stack(pre).drop_last()
            } else {
                unm_stack(pre)
            }));
        }
    }
    proof {
        assert(instrs.take(n as int) =~= instrs);
        // no prefix of a prefix-valid program violates depth
        assert forall|k: int| 0 <= k <= instrs.len() implies depth(instrs, k) >= 0 by {
            lemma_depth_prefix(instrs.take(k), instrs, k);
            assert(instrs.take(k) =~= instrs.take(n as int).take(k));
        }
    }
    Some((jump_table, current_paren_count))
}

} // verus!
