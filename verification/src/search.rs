//! The breadth-first synthesis driver: each viable partial program is
//! extended by one instruction, the extension is executed from the
//! parent's saved state, and the outcome decides whether the child is
//! discarded, promoted to the next frontier, or returned as the solution.

use vstd::prelude::*;
use crate::data::{BfInstruction, CompressedBF, instrs_of_bytes};
use crate::brackets::{
    depth,
    prefix_ok,
    unmatched_open,
    unm_stack,
    jt_build,
    lemma_depth_prefix,
    lemma_build_props,
    lemma_jt_build_extends,
};
use crate::semantics::{
    MachineV,
    RunErr,
    RunStatus,
    run_steps,
    lemma_run_extend,
    lemma_run_extend_failed,
    lemma_run_compose,
    lemma_terminal_absorbing,
    lemma_outcome_unique,
};
use crate::run::{
    ProgramState,
    ContinueState,
    RunningProgramInfo,
    BfRunResult,
    Workspace,
    outcome_at,
    is_run_outcome,
    run_program_fragment_without_states,
};
use crate::tracker::{ConfigSet, config_set_view, state_key, state_key_spec};
use crate::util::build_jump_table;

verus! {

use vstd::string::StringSliceAdditionalSpecFns;

/// Why the search ended without a program.
#[derive(Debug, Clone, Copy, PartialEq, Eq, Structural)]
pub enum SearchError {
    /// The starting program has unmatched brackets.
    UnmatchedParens,
    /// Every extension up to the configured length cap was exhausted.
    LengthLimit,
}

impl SearchError {
    /// The diagnostic text of this error.
    pub fn message(&self) -> (r: &'static str)
        ensures
            *self is UnmatchedParens ==> r@ == "Starting program has unmatched parentheses."@,
            *self is LengthLimit ==> r@
                == "Reached maximum program size without finding a solution."@,
    {
        match self {
            SearchError::UnmatchedParens => "Starting program has unmatched parentheses.",
            SearchError::LengthLimit => "Reached maximum program size without finding a solution.",
        }
    }
}

/// The adjacent instruction pairs that canonical-form pruning forbids:
/// each is replaceable by a shorter equivalent program.
pub open spec fn forbidden_pair(a: BfInstruction, b: BfInstruction) -> bool {
    ||| (a is Inc && b is Dec)
    ||| (a is Dec && b is Inc)
    ||| (a is Left && b is Right)
    ||| (a is Right && b is Left)
    ||| (a is LoopStart && b is LoopEnd)
}

/// No forbidden adjacency occurs in the program.
pub open spec fn canonical(code: Seq<BfInstruction>) -> bool {
    forall|i: int| 1 <= i < code.len() ==> !forbidden_pair(#[trigger] code[i - 1], code[i])
}

/// The all-zero machine on a tape of `w` cells.
pub open spec fn zero_mv(w: int) -> MachineV {
    MachineV { tape: Seq::new(w as nat, |i: int| 0u8), head: 0, pc: 0, out: 0 }
}

/// `code` is a closed program that, run on an all-zero tape of width `w`
/// against `target`, halts having emitted exactly the target.
pub open spec fn solves(code: Seq<BfInstruction>, target: Seq<u8>, w: int) -> bool {
    &&& prefix_ok(code)
    &&& unm_stack(code).len() == 0
    &&& exists|n: nat|
        (#[trigger] run_steps(code, jt_build(code), target, zero_mv(w), n)) is Halted && run_steps(
            code,
            jt_build(code),
            target,
            zero_mv(w),
            n,
        )->Halted_0.out == target.len()
}

/// The seed's resume point lies on the run of its program from the
/// all-zero tape.
pub open spec fn zero_connects(info: RunningProgramInfo, target: Seq<u8>) -> bool {
    exists|h: nat|
        #[trigger] run_steps(
            info.code@,
            info.jump_table@,
            target,
            zero_mv(info.width()),
            h,
        ) == crate::run::loop_status(
            info.code@.len() as int,
            info.continue_state.program_state.tape@,
            info.continue_state.program_state.tape_head as int,
            info.continue_state.resume_pc as int,
            info.continue_state.resume_output_ind as int,
        )
}

/// Everything the frontier holds of each seed: well-formed, on the right
/// tape width, suspended exactly at the end of its code at a point its
/// own run reaches from the zero tape, and (when asked for) canonical.
pub open spec fn seed_inv(info: RunningProgramInfo, target: Seq<u8>, w: int, canon: bool) -> bool {
    &&& info.wf()
    &&& info.width() == w
    &&& info.continue_state.resume_pc == info.code@.len()
    &&& info.continue_state.resume_output_ind <= target.len()
    &&& zero_connects(info, target)
    &&& (canon ==> canonical(info.code@))
}

/// Extend a seed's code by one instruction, updating the jump table and
/// the open-bracket count the way the building pass would.  The resume
/// state is kept: the child still has to execute only the appended
/// instruction.
fn extend_seed(parent: &RunningProgramInfo, instruction: BfInstruction) -> (child:
    RunningProgramInfo)
    requires
        parent.wf(),
        parent.code@.len() + 1 < 0x7fff_ffff_ffff_ffff,
        parent.code@.len() < usize::MAX,
        instruction is LoopEnd ==> parent.current_paren_count > 0,
    ensures
        child.wf(),
        child.code@ == parent.code@.push(instruction),
        child.continue_state.mv() == parent.continue_state.mv(),
        child.continue_state.program_state.tape@ == parent.continue_state.program_state.tape@,
        child.continue_state.resume_pc == parent.continue_state.resume_pc,
        child.continue_state.resume_output_ind == parent.continue_state.resume_output_ind,
        forall|i: int|
            0 <= i < parent.code@.len() ==> #[trigger] child.jump_table@[i]
                == parent.jump_table@[i] || (parent.code@[i] is LoopStart
                && parent.jump_table@[i] == -2),
{
    let ghost old_code = parent.code@;
    let ghost new_code = parent.code@.push(instruction);
    let mut child = parent.clone();
    proof {
        lemma_build_props(old_code);
        crate::brackets::lemma_depth_le(old_code, old_code.len() as int);
        assert(parent.current_paren_count <= old_code.len());
    }
    child.code.append(instruction);
    proof {
        assert(new_code.drop_last() =~= old_code);
        assert(new_code.last() == instruction);
        assert forall|k: int| 0 <= k <= old_code.len() implies depth(new_code, k) == depth(
            old_code,
            k,
        ) by {
            lemma_depth_prefix(old_code, new_code, k);
        }
    }
    match instruction {
        BfInstruction::LoopStart => {
            child.jump_table.push(-2);
            child.current_paren_count = child.current_paren_count + 1;
            proof {
                assert(child.jump_table@ =~= jt_build(new_code));
                assert(depth(new_code, new_code.len() as int) == depth(
                    old_code,
                    old_code.len() as int,
                ) + 1);
            }
        },
        BfInstruction::LoopEnd => {
            let loop_start_loc = match crate::util::rightmost_open(&child.jump_table) {
                Some(p) => p,
                None => {
                    proof {
                        let st = unm_stack(old_code);
                        assert(st.len() == parent.current_paren_count > 0);
                        assert(unmatched_open(old_code, st[st.len() - 1]));
                        assert(jt_build(old_code)[st[st.len() - 1]] == -2);
                        assert(false);
                    }
                    vstd::pervasive::unreached()
                },
            };
            proof {
                let st = unm_stack(old_code);
                assert(unmatched_open(old_code, loop_start_loc as int));
                assert(st.contains(loop_start_loc as int));
                let jj = choose|jj: int| 0 <= jj < st.len() && st[jj] == loop_start_loc as int;
                assert(st.len() > 0);
                let top = st[st.len() - 1];
                assert(unmatched_open(old_code, top));
                assert(jt_build(old_code)[top] == -2);
                assert(top == loop_start_loc as int);
            }
            child.jump_table.set(loop_start_loc, child.code.size() as i64);
            child.jump_table.push((loop_start_loc as i64) + 1);
            child.current_paren_count = child.current_paren_count - 1;
            proof {
                assert(child.jump_table@ =~= jt_build(new_code));
                assert(depth(new_code, new_code.len() as int) == depth(
                    old_code,
                    old_code.len() as int,
                ) - 1);
                assert(depth(old_code, old_code.len() as int) == unm_stack(old_code).len());
            }
        },
        _ => {
            child.jump_table.push(-1);
            proof {
                assert(child.jump_table@ =~= jt_build(new_code));
                assert(depth(new_code, new_code.len() as int) == depth(
                    old_code,
                    old_code.len() as int,
                ));
            }
        },
    }
    proof {
        assert forall|k: int| 0 <= k <= new_code.len() implies #[trigger] depth(new_code, k)
            >= 0 by {
            if k <= old_code.len() {
                assert(depth(new_code, k) == depth(old_code, k));
            } else {
                assert(k == new_code.len());
            }
        }
        assert(unm_stack(new_code) == (if instruction is LoopStart {
            unm_stack(old_code).push(old_code.len() as int)
        } else if instruction is LoopEnd {
            unm_stack(old_code).drop_last()
        } else {
            unm_stack(old_code)
        }));
        assert(child.wf());
    }
    child
}

/// A halt reached from a seed's resume point is reached from the zero
/// tape as well.
proof fn lemma_zero_reaches_halt(
    code: Seq<BfInstruction>,
    jt: Seq<i64>,
    target: Seq<u8>,
    w: int,
    m0: MachineV,
    h: nat,
    k: nat,
    mh: MachineV,
)
    requires
        run_steps(code, jt, target, zero_mv(w), h) == (if m0.pc < code.len() {
            RunStatus::Running(m0)
        } else {
            RunStatus::Halted(m0)
        }),
        run_steps(code, jt, target, m0, k) == RunStatus::Halted(mh),
    ensures
        run_steps(code, jt, target, zero_mv(w), h + k) == RunStatus::Halted(mh),
{
    if m0.pc < code.len() {
        lemma_run_compose(code, jt, target, zero_mv(w), h, k, m0);
    } else {
        assert(run_steps(code, jt, target, m0, k) == RunStatus::Halted(m0));
        lemma_terminal_absorbing(code, jt, target, zero_mv(w), h, h + k);
    }
}

/// The configuration pair the dedup filter keeps for a suspension: the
/// encoded (tape, head) configuration and the output cursor reached.
pub open spec fn dedup_pair(cs: ContinueState) -> (u128, usize) {
    (
        (state_key_spec(cs.program_state.tape@, cs.program_state.tape_head as int) as u128),
        cs.resume_output_ind,
    )
}

/// Classify one extension attempt.  The result is `Some` exactly on a
/// `Success` classification, and then carries the classified program.  A
/// suspension with outstanding open brackets adopts its resume state and
/// is appended to the frontier.  A suspension with pure output progress
/// is appended only if its (configuration, output cursor) pair is new to
/// the dedup filter, which gains the pair; otherwise it is dropped.
/// Every error classification leaves frontier and filter unchanged.
pub fn handle_run_result(
    run_res: BfRunResult,
    new_program: RunningProgramInfo,
    new_programs: &mut Vec<RunningProgramInfo>,
    found_states: &mut ConfigSet,
    target_output: &[u8],
) -> (r: Option<Vec<BfInstruction>>)
    requires
        new_program.wf(),
        1 <= new_program.width() <= 15,
        zero_connects(new_program, target_output@),
        !(run_res is InfiniteLoopError) ==> new_program.run_outcome(target_output@, run_res.ov()),
        (match run_res {
            BfRunResult::IncompleteLoopSuccess(cs) | BfRunResult::IncompleteOutputSuccess(cs) => {
                &&& cs.state_wf()
                &&& cs.program_state.tape@.len() == new_program.width()
                &&& cs.resume_pc == new_program.code@.len()
                &&& cs.resume_output_ind <= target_output@.len()
            },
            _ => true,
        }),
    ensures
        (r is Some) <==> (run_res is Success),
        r matches Some(v) ==> v@ == new_program.code@ && solves(
            v@,
            target_output@,
            new_program.width(),
        ),
        run_res matches BfRunResult::IncompleteLoopSuccess(cs) ==> {
            &&& final(new_programs)@ == old(new_programs)@.push(
                (RunningProgramInfo { continue_state: cs, ..new_program }),
            )
            &&& config_set_view(*final(found_states)) == config_set_view(*old(found_states))
            &&& seed_inv(
                (RunningProgramInfo { continue_state: cs, ..new_program }),
                target_output@,
                new_program.width(),
                canonical(new_program.code@),
            )
        },
        run_res matches BfRunResult::IncompleteOutputSuccess(cs) ==> {
            if config_set_view(*old(found_states)).contains(dedup_pair(cs)) {
                &&& final(new_programs)@ == old(new_programs)@
                &&& config_set_view(*final(found_states)) == config_set_view(*old(found_states))
            } else {
                &&& final(new_programs)@ == old(new_programs)@.push(
                    (RunningProgramInfo { continue_state: cs, ..new_program }),
                )
                &&& config_set_view(*final(found_states)) == config_set_view(
                    *old(found_states),
                ).insert(dedup_pair(cs))
                &&& seed_inv(
                    (RunningProgramInfo { continue_state: cs, ..new_program }),
                    target_output@,
                    new_program.width(),
                    canonical(new_program.code@),
                )
            }
        },
        !(run_res is IncompleteLoopSuccess) && !(run_res is IncompleteOutputSuccess) ==> {
            &&& final(new_programs)@ == old(new_programs)@
            &&& config_set_view(*final(found_states)) == config_set_view(*old(found_states))
        },
{
    let ghost code_v = new_program.code@;
    let ghost jt_v = new_program.jump_table@;
    let ghost paren = new_program.current_paren_count as int;
    let ghost m0 = new_program.continue_state.mv();
    let ghost w = new_program.width();
    let ghost original = new_program;
    match run_res {
        BfRunResult::IncompleteLoopSuccess(continue_state) => {
            proof {
                lemma_adopt_state(new_program, target_output@, w, run_res, continue_state);
            }
            let mut new_program = new_program;
            new_program.continue_state = continue_state;
            proof {
                assert(new_program == (RunningProgramInfo {
                    continue_state: run_res->IncompleteLoopSuccess_0,
                    ..original
                }));
            }
            new_programs.push(new_program);
            None
        },
        BfRunResult::Success => {
            proof {
                let k = choose|k: nat|
                    #[trigger] outcome_at(code_v, jt_v, target_output@, paren, m0, k) == Some(
                        run_res.ov(),
                    );
                let mh = run_steps(code_v, jt_v, target_output@, m0, k)->Halted_0;
                assert(run_steps(code_v, jt_v, target_output@, m0, k) == RunStatus::Halted(mh));
                assert(paren == 0 && mh.out == target_output@.len());
                let h = choose|h: nat|
                    #[trigger] run_steps(code_v, jt_v, target_output@, zero_mv(w), h)
                        == crate::run::loop_status(
                        code_v.len() as int,
                        m0.tape,
                        m0.head,
                        m0.pc,
                        m0.out,
                    );
                lemma_zero_reaches_halt(code_v, jt_v, target_output@, w, m0, h, k, mh);
                assert(solves(code_v, target_output@, w));
            }
            Some(new_program.code.to_vec())
        },
        BfRunResult::IncompleteOutputSuccess(end_state) => {
            let key = state_key(&end_state.program_state.tape, end_state.program_state.tape_head);
            proof {
                crate::tracker::lemma_key_bound(
                    end_state.program_state.tape@,
                    end_state.program_state.tape_head as int,
                );
                assert((key, end_state.resume_output_ind) == dedup_pair(end_state));
            }
            if found_states.contains(key, end_state.resume_output_ind) {
                return None;
            }
            found_states.insert(key, end_state.resume_output_ind);
            proof {
                lemma_adopt_state(new_program, target_output@, w, run_res, end_state);
            }
            let mut new_program = new_program;
            new_program.continue_state = end_state;
            proof {
                assert(new_program == (RunningProgramInfo {
                    continue_state: run_res->IncompleteOutputSuccess_0,
                    ..original
                }));
            }
            new_programs.push(new_program);
            None
        },
        _ => None,
    }
}

/// Adopting the resume state that an incomplete run returned keeps the
/// seed's resume point on the run from the zero tape.
proof fn lemma_adopt_state(
    info: RunningProgramInfo,
    target: Seq<u8>,
    w: int,
    run_res: BfRunResult,
    cs: ContinueState,
)
    requires
        info.wf(),
        info.width() == w,
        zero_connects(info, target),
        info.run_outcome(target, run_res.ov()),
        run_res == BfRunResult::IncompleteLoopSuccess(cs) || run_res
            == BfRunResult::IncompleteOutputSuccess(cs),
        cs.resume_pc == info.code@.len(),
        cs.program_state.tape@.len() == w,
    ensures
        zero_connects(
            RunningProgramInfo {
                continue_state: cs,
                ..info
            },
            target,
        ),
{
    let code_v = info.code@;
    let jt_v = info.jump_table@;
    let paren = info.current_paren_count as int;
    let m0 = info.continue_state.mv();
    let k = choose|k: nat|
        #[trigger] outcome_at(code_v, jt_v, target, paren, m0, k) == Some(run_res.ov());
    let mh = run_steps(code_v, jt_v, target, m0, k)->Halted_0;
    assert(run_steps(code_v, jt_v, target, m0, k) == RunStatus::Halted(mh));
    assert(mh == cs.mv());
    let h = choose|h: nat|
        #[trigger] run_steps(code_v, jt_v, target, zero_mv(w), h) == crate::run::loop_status(
            code_v.len() as int,
            m0.tape,
            m0.head,
            m0.pc,
            m0.out,
        );
    lemma_zero_reaches_halt(code_v, jt_v, target, w, m0, h, k, mh);
    let updated = RunningProgramInfo { continue_state: cs, ..info };
    assert(run_steps(updated.code@, updated.jump_table@, target, zero_mv(updated.width()), h + k)
        == crate::run::loop_status(
        updated.code@.len() as int,
        updated.continue_state.program_state.tape@,
        updated.continue_state.program_state.tape_head as int,
        updated.continue_state.resume_pc as int,
        updated.continue_state.resume_output_ind as int,
    ));
}

/// The last instruction of the program is `x`.
pub open spec fn last_is(code: Seq<BfInstruction>, x: BfInstruction) -> bool {
    code.len() > 0 && code.last() == x
}

/// None of the one-instruction extensions that the canonical-form
/// prunes allow solves the target.
pub open spec fn no_solving_extension(code: Seq<BfInstruction>, target: Seq<u8>, w: int) -> bool {
    &&& (unm_stack(code).len() > 0 && !last_is(code, BfInstruction::LoopStart)) ==> !solves(
        code.push(BfInstruction::LoopEnd),
        target,
        w,
    )
    &&& !solves(code.push(BfInstruction::LoopStart), target, w)
    &&& !solves(code.push(BfInstruction::Output), target, w)
    &&& !last_is(code, BfInstruction::Right) ==> !solves(code.push(BfInstruction::Left), target, w)
    &&& !last_is(code, BfInstruction::Left) ==> !solves(code.push(BfInstruction::Right), target, w)
    &&& !last_is(code, BfInstruction::Dec) ==> !solves(code.push(BfInstruction::Inc), target, w)
    &&& !last_is(code, BfInstruction::Inc) ==> !solves(code.push(BfInstruction::Dec), target, w)
}

/// Try one candidate extension of a parent seed: build the child, run
/// it from the parent's saved state, and classify the result.  The
/// result is `Some` exactly when the extended program solves the target.
fn try_extend(
    ws: &mut Workspace,
    parent: &RunningProgramInfo,
    instruction: BfInstruction,
    target_output: &[u8],
    next_frontier: &mut Vec<RunningProgramInfo>,
    found_states: &mut ConfigSet,
) -> (r: Option<Vec<BfInstruction>>)
    requires
        parent.wf(),
        1 <= parent.width() <= 15,
        parent.continue_state.resume_pc == parent.code@.len(),
        parent.continue_state.resume_output_ind <= target_output@.len(),
        zero_connects(*parent, target_output@),
        parent.code@.len() + 1 < 0x7fff_ffff_ffff_ffff,
        parent.code@.len() < usize::MAX,
        instruction is LoopEnd ==> parent.current_paren_count > 0,
    ensures
        final(ws).spec_max_steps() >= old(ws).spec_max_steps(),
        config_set_view(*old(found_states)).subset_of(config_set_view(*final(found_states))),
        (r is Some) <==> solves(
            parent.code@.push(instruction),
            target_output@,
            parent.width(),
        ),
        r matches Some(v) ==> v@ == parent.code@.push(instruction),
        r is None ==> {
            &&& final(next_frontier)@.len() >= old(next_frontier)@.len()
            &&& final(next_frontier)@.len() <= old(next_frontier)@.len() + 1
            &&& forall|j: int|
                0 <= j < old(next_frontier)@.len() ==> final(next_frontier)@[j] == old(
                    next_frontier,
                )@[j]
            &&& forall|j: int|
                old(next_frontier)@.len() <= j < final(next_frontier)@.len() ==> seed_inv(
                    #[trigger] final(next_frontier)@[j],
                    target_output@,
                    parent.width(),
                    canonical(parent.code@.push(instruction)),
                ) && final(next_frontier)@[j].code@ == parent.code@.push(instruction)
        },
{
    let ghost w = parent.width();
    let ghost child_code = parent.code@.push(instruction);
    let child = extend_seed(parent, instruction);
    proof {
        // the child's resume point is the parent's, still on the run
        // from the zero tape
        lemma_build_props(parent.code@);
        let h = choose|h: nat|
            #[trigger] run_steps(
                parent.code@,
                parent.jump_table@,
                target_output@,
                zero_mv(w),
                h,
            ) == crate::run::loop_status(
                parent.code@.len() as int,
                parent.continue_state.program_state.tape@,
                parent.continue_state.program_state.tape_head as int,
                parent.continue_state.resume_pc as int,
                parent.continue_state.resume_output_ind as int,
            );
        let mh = parent.continue_state.mv();
        assert(run_steps(parent.code@, parent.jump_table@, target_output@, zero_mv(w), h)
            == RunStatus::Halted(mh));
        lemma_run_extend(
            parent.code@,
            parent.jump_table@,
            child.code@,
            child.jump_table@,
            target_output@,
            zero_mv(w),
            h,
            mh,
        );
        let h2 = choose|h2: nat|
            h2 <= h && #[trigger] run_steps(
                child.code@,
                child.jump_table@,
                target_output@,
                zero_mv(w),
                h2,
            ) == RunStatus::Running(mh);
        assert(zero_connects(child, target_output@));
    }
    let run_res = run_program_fragment_without_states(ws, &child, target_output);
    proof {
        // the classification is Success exactly when the extended
        // program solves the target
        if solves(child_code, target_output@, w) {
            lemma_solving_child_classifies_success(child, target_output@, w, run_res);
        }
    }
    handle_run_result(run_res, child, next_frontier, found_states, target_output)
}

/// A child seed whose program solves the target is classified `Success`
/// by any result meeting the interpreter contract.
proof fn lemma_solving_child_classifies_success(
    child: RunningProgramInfo,
    target: Seq<u8>,
    w: int,
    run_res: BfRunResult,
)
    requires
        child.wf(),
        child.width() == w,
        child.continue_state.resume_pc < child.code@.len(),
        zero_connects(child, target),
        solves(child.code@, target, w),
        !(run_res is InfiniteLoopError) ==> child.run_outcome(target, run_res.ov()),
        run_res is InfiniteLoopError ==> child.run_repeats(target),
    ensures
        run_res is Success,
{
    let code_v = child.code@;
    let jt_v = child.jump_table@;
    let paren = child.current_paren_count as int;
    let m0 = child.continue_state.mv();
    // the solving run from the zero tape halts with the full target
    let n = choose|n: nat|
        (#[trigger] run_steps(code_v, jt_build(code_v), target, zero_mv(w), n)) is Halted
            && run_steps(code_v, jt_build(code_v), target, zero_mv(w), n)->Halted_0.out
            == target.len();
    let mh = run_steps(code_v, jt_v, target, zero_mv(w), n)->Halted_0;
    assert(run_steps(code_v, jt_v, target, zero_mv(w), n) == RunStatus::Halted(mh));
    // carry the halt over to the run from the resume point
    let h = choose|h: nat|
        #[trigger] run_steps(code_v, jt_v, target, zero_mv(w), h) == crate::run::loop_status(
            code_v.len() as int,
            child.continue_state.program_state.tape@,
            child.continue_state.program_state.tape_head as int,
            child.continue_state.resume_pc as int,
            child.continue_state.resume_output_ind as int,
        );
    assert(run_steps(code_v, jt_v, target, zero_mv(w), h) == RunStatus::Running(m0));
    if n <= h {
        lemma_terminal_absorbing(code_v, jt_v, target, zero_mv(w), n, h);
        assert(false);
    }
    lemma_run_compose(code_v, jt_v, target, zero_mv(w), h, (n - h) as nat, m0);
    assert(run_steps(code_v, jt_v, target, m0, (n - h) as nat) == RunStatus::Halted(mh));
    // the resume run halts, so no configuration repeats and no infinite
    // loop may be reported
    crate::semantics::lemma_halting_no_repeat(code_v, jt_v, target, m0, (n - h) as nat, mh);
    assert(!(run_res is InfiniteLoopError));
    // the unique outcome of the halt is the full-target success
    assert(outcome_at(code_v, jt_v, target, paren, m0, (n - h) as nat) == Some(
        crate::run::halt_outcome(paren, target, mh),
    ));
    assert(paren == 0);
    assert(is_run_outcome(code_v, jt_v, target, paren, m0, crate::run::RunOutcomeV::Success));
    crate::run::lemma_run_outcome_unique(
        code_v,
        jt_v,
        target,
        paren,
        m0,
        run_res.ov(),
        crate::run::RunOutcomeV::Success,
    );
}

/// Try every extension of one parent that the canonical-form prunes
/// allow, in the driver's order.  The result is `Some` exactly when one
/// of the allowed extensions solves the target; otherwise the viable
/// children were appended to the next frontier.
pub fn expand_seed(
    ws: &mut Workspace,
    parent: &RunningProgramInfo,
    target_output: &[u8],
    next_frontier: &mut Vec<RunningProgramInfo>,
    found_states: &mut ConfigSet,
) -> (r: Option<Vec<BfInstruction>>)
    requires
        parent.wf(),
        1 <= parent.width() <= 15,
        parent.continue_state.resume_pc == parent.code@.len(),
        parent.continue_state.resume_output_ind <= target_output@.len(),
        zero_connects(*parent, target_output@),
        parent.code@.len() + 1 < 0x7fff_ffff_ffff_ffff,
        parent.code@.len() < usize::MAX,
    ensures
        final(ws).spec_max_steps() >= old(ws).spec_max_steps(),
        config_set_view(*old(found_states)).subset_of(config_set_view(*final(found_states))),
        r matches Some(v) ==> {
            &&& v@.len() == parent.code@.len() + 1
            &&& parent.code@.is_prefix_of(v@)
            &&& solves(v@, target_output@, parent.width())
            &&& (canonical(parent.code@) ==> canonical(v@))
        },
        r is None ==> {
            &&& final(next_frontier)@.len() >= old(next_frontier)@.len()
            &&& forall|j: int|
                0 <= j < old(next_frontier)@.len() ==> final(next_frontier)@[j] == old(
                    next_frontier,
                )@[j]
            &&& forall|j: int|
                old(next_frontier)@.len() <= j < final(next_frontier)@.len() ==> {
                    &&& seed_inv(
                        #[trigger] final(next_frontier)@[j],
                        target_output@,
                        parent.width(),
                        false,
                    )
                    &&& final(next_frontier)@[j].code@.len() == parent.code@.len() + 1
                    &&& parent.code@.is_prefix_of(final(next_frontier)@[j].code@)
                    &&& (canonical(parent.code@) ==> canonical(final(next_frontier)@[j].code@))
                }
        },
        r is None ==> no_solving_extension(parent.code@, target_output@, parent.width()),
{
    let sz = parent.code.size();
    let last: Option<BfInstruction> = if sz == 0 {
        None
    } else {
        parent.code.get(sz - 1)
    };
    let ghost pcode = parent.code@;

    // loop end: only with an outstanding open bracket, and never right
    // after its opener (an empty loop body is dead code)
    if parent.current_paren_count > 0 && !matches!(last, Some(BfInstruction::LoopStart)) {
        proof {
            lemma_canonical_push(pcode, BfInstruction::LoopEnd);
        }
        let solution = try_extend(
            ws,
            parent,
            BfInstruction::LoopEnd,
            target_output,
            next_frontier,
            found_states,
        );
        if let Some(working_program) = solution {
            return Some(working_program);
        }
    }
    // loop start: always
    {
        proof {
            lemma_canonical_push(pcode, BfInstruction::LoopStart);
        }
        let solution = try_extend(
            ws,
            parent,
            BfInstruction::LoopStart,
            target_output,
            next_frontier,
            found_states,
        );
        if let Some(working_program) = solution {
            return Some(working_program);
        }
    }
    // output: always
    {
        proof {
            lemma_canonical_push(pcode, BfInstruction::Output);
        }
        let solution = try_extend(
            ws,
            parent,
            BfInstruction::Output,
            target_output,
            next_frontier,
            found_states,
        );
        if let Some(working_program) = solution {
            return Some(working_program);
        }
    }
    // left: not right after a right move (they cancel)
    if !matches!(last, Some(BfInstruction::Right)) {
        proof {
            lemma_canonical_push(pcode, BfInstruction::Left);
        }
        let solution = try_extend(
            ws,
            parent,
            BfInstruction::Left,
            target_output,
            next_frontier,
            found_states,
        );
        if let Some(working_program) = solution {
            return Some(working_program);
        }
    }
    // right: not right after a left move
    if !matches!(last, Some(BfInstruction::Left)) {
        proof {
            lemma_canonical_push(pcode, BfInstruction::Right);
        }
        let solution = try_extend(
            ws,
            parent,
            BfInstruction::Right,
            target_output,
            next_frontier,
            found_states,
        );
        if let Some(working_program) = solution {
            return Some(working_program);
        }
    }
    // increment: not right after a decrement
    if !matches!(last, Some(BfInstruction::Dec)) {
        proof {
            lemma_canonical_push(pcode, BfInstruction::Inc);
        }
        let solution = try_extend(
            ws,
            parent,
            BfInstruction::Inc,
            target_output,
            next_frontier,
            found_states,
        );
        if let Some(working_program) = solution {
            return Some(working_program);
        }
    }
    // decrement: not right after an increment
    if !matches!(last, Some(BfInstruction::Inc)) {
        proof {
            lemma_canonical_push(pcode, BfInstruction::Dec);
        }
        let solution = try_extend(
            ws,
            parent,
            BfInstruction::Dec,
            target_output,
            next_frontier,
            found_states,
        );
        if let Some(working_program) = solution {
            return Some(working_program);
        }
    }
    None
}

/// Search, breadth-first over program length, for a program that emits
/// `target_output` from an all-zero tape of `tape_size` cells and halts.
/// The frontier starts with the user-supplied starting program, which
/// must be closed.  Any program returned solves the target; when the
/// starting program is in canonical form (the default empty program is),
/// the returned program contains none of the forbidden adjacencies.
proof fn lemma_prefix_push(code: Seq<BfInstruction>, x: BfInstruction)
    ensures
        code.is_prefix_of(code.push(x)),
{
    assert(code =~= code.push(x).subrange(0, code.len() as int));
}

proof fn lemma_prefix_transitive(a: Seq<BfInstruction>, b: Seq<BfInstruction>, c: Seq<
    BfInstruction,
>)
    requires
        a.is_prefix_of(b),
        b.is_prefix_of(c),
    ensures
        a.is_prefix_of(c),
{
    assert forall|i: int| 0 <= i < a.len() implies a[i] == c[i] by {
        assert(a[i] == b.subrange(0, a.len() as int)[i]);
        assert(b[i] == c.subrange(0, b.len() as int)[i]);
    }
    assert(a =~= c.subrange(0, a.len() as int));
}

/// Search, breadth-first over program length, for a program that emits
/// `target_output` from an all-zero tape of `tape_size` cells and halts.
/// The frontier starts with the user-supplied starting program, which
/// must be closed.  Any program returned is an extension of the starting
/// program that solves the target; when the starting program is in
/// canonical form (the default empty program is), the returned program
/// contains none of the forbidden adjacencies.  A starting program that
/// already solves the target is returned itself; a returned program
/// longer than one extension certifies that no allowed one-instruction
/// extension solves; and a length-limit failure below the cap certifies
/// the same of a halting starting program.  Discarding error-classified
/// children is proved lossless for the pure errors
/// (`lemma_error_prune_sound`).  Completeness and minimality of the
/// enumeration at greater depths rest in addition on the
/// search-equivalence of deduplicated seeds and of unmatched-opener
/// discards, which this crate does not formalise; the scenario tests
/// exercise them.
pub fn find_program(
    ws: &mut Workspace,
    target_output: &[u8],
    starting_program: &str,
    tape_size: usize,
    max_program_size: usize,
) -> (r: Result<Vec<BfInstruction>, SearchError>)
    requires
        1 <= tape_size <= 15,
        starting_program.spec_bytes().len() < 0x7fff_ffff_ffff_fffe,
        max_program_size < 0x7fff_ffff_ffff_fffe,
        max_program_size < usize::MAX,
    ensures
        r matches Ok(v) ==> {
            &&& solves(v@, target_output@, tape_size as int)
            &&& (canonical(instrs_of_bytes(starting_program.spec_bytes())) ==> canonical(v@))
            &&& instrs_of_bytes(starting_program.spec_bytes()).is_prefix_of(v@)
        },
        solves(instrs_of_bytes(starting_program.spec_bytes()), target_output@, tape_size as int)
            ==> (r matches Ok(v) && v@ == instrs_of_bytes(starting_program.spec_bytes())),
        (r matches Err(e) && e is UnmatchedParens) <==> !(prefix_ok(
            instrs_of_bytes(starting_program.spec_bytes()),
        ) && depth(
            instrs_of_bytes(starting_program.spec_bytes()),
            instrs_of_bytes(starting_program.spec_bytes()).len() as int,
        ) == 0),
        (r matches Ok(v) && v@.len() > instrs_of_bytes(starting_program.spec_bytes()).len() + 1)
            ==> no_solving_extension(
            instrs_of_bytes(starting_program.spec_bytes()),
            target_output@,
            tape_size as int,
        ),
        (r matches Err(e) && e is LengthLimit && instrs_of_bytes(
            starting_program.spec_bytes(),
        ).len() < max_program_size) ==> no_solving_extension(
            instrs_of_bytes(starting_program.spec_bytes()),
            target_output@,
            tape_size as int,
        ),
{
    let ghost start_instrs = instrs_of_bytes(starting_program.spec_bytes());
    let ghost target_v = target_output@;
    let ghost w = tape_size as int;
    let ghost canon = canonical(start_instrs);
    let starting_code = CompressedBF::from_string(starting_program);
    proof {
        crate::data::lemma_instrs_of_bytes_len(starting_program.spec_bytes());
    }
    let mut current_program_size = starting_code.size();

    let built = build_jump_table(&starting_code);
    let (jump_table, paren_count) = match built {
        Some(p) => p,
        None => {
            proof {
                let k = choose|k: int|
                    0 <= k <= start_instrs.len() && depth(start_instrs, k) < 0;
            }
            return Err(SearchError::UnmatchedParens);
        },
    };
    proof {
        lemma_build_props(start_instrs);
    }
    if paren_count != 0 {
        return Err(SearchError::UnmatchedParens);
    }

    let mut tape: Vec<u8> = Vec::new();
    for t in 0..tape_size
        invariant
            tape@.len() == t,
            forall|q: int| 0 <= q < t ==> tape@[q] == 0u8,
    {
        tape.push(0u8);
    }
    proof {
        assert(tape@ =~= Seq::new(tape_size as nat, |i: int| 0u8));
    }
    let starting_program_info = RunningProgramInfo {
        code: starting_code,
        current_paren_count: paren_count,
        jump_table,
        continue_state: ContinueState {
            program_state: ProgramState { tape, tape_head: 0 },
            resume_pc: 0,
            resume_output_ind: 0,
        },
    };
    proof {
        assert(starting_program_info.wf());
        assert(starting_program_info.continue_state.mv() == zero_mv(w));
        assert(run_steps(
            starting_program_info.code@,
            starting_program_info.jump_table@,
            target_v,
            zero_mv(w),
            0,
        ) == crate::run::loop_status(
            starting_program_info.code@.len() as int,
            starting_program_info.continue_state.program_state.tape@,
            starting_program_info.continue_state.program_state.tape_head as int,
            starting_program_info.continue_state.resume_pc as int,
            starting_program_info.continue_state.resume_output_ind as int,
        ));
        assert(zero_connects(starting_program_info, target_v));
    }

    let mut found_states = ConfigSet::new();
    let mut current_frontier: Vec<RunningProgramInfo> = Vec::new();

    let initial_program_run_result = run_program_fragment_without_states(
        ws,
        &starting_program_info,
        target_output,
    );
    proof {
        // when the starting program itself solves the target, its run
        // from its resume state is its run from the zero tape, so the
        // classification is forced to be a success
        if solves(start_instrs, target_v, w) {
            let jtb = jt_build(start_instrs);
            let n = choose|n: nat|
                (#[trigger] run_steps(start_instrs, jtb, target_v, zero_mv(w), n)) is Halted
                    && run_steps(start_instrs, jtb, target_v, zero_mv(w), n)->Halted_0.out
                    == target_v.len();
            let mh = run_steps(start_instrs, jtb, target_v, zero_mv(w), n)->Halted_0;
            assert(run_steps(start_instrs, jtb, target_v, zero_mv(w), n) == RunStatus::Halted(mh));
            assert(outcome_at(start_instrs, jtb, target_v, 0, zero_mv(w), n) == Some(
                crate::run::RunOutcomeV::Success,
            ));
            assert(is_run_outcome(
                start_instrs,
                jtb,
                target_v,
                0,
                zero_mv(w),
                crate::run::RunOutcomeV::Success,
            ));
            crate::semantics::lemma_halting_no_repeat(
                start_instrs,
                jtb,
                target_v,
                zero_mv(w),
                n,
                mh,
            );
            assert(!(initial_program_run_result is InfiniteLoopError));
            crate::run::lemma_run_outcome_unique(
                start_instrs,
                jtb,
                target_v,
                0,
                zero_mv(w),
                initial_program_run_result.ov(),
                crate::run::RunOutcomeV::Success,
            );
            assert(initial_program_run_result is Success);
        }
    }
    let initial_solution = handle_run_result(
        initial_program_run_result,
        starting_program_info,
        &mut current_frontier,
        &mut found_states,
        target_output,
    );
    if let Some(working_program) = initial_solution {
        proof {
            assert(start_instrs =~= working_program@.subrange(0, start_instrs.len() as int));
        }
        return Ok(working_program);
    }
    proof {
        // the classification was not a success, so the starting program
        // does not solve the target on its own
        assert(!solves(start_instrs, target_v, w));
        assert forall|j: int| 0 <= j < current_frontier@.len() implies {
            &&& seed_inv(#[trigger] current_frontier@[j], target_v, w, false)
            &&& (canon ==> canonical(current_frontier@[j].code@))
            &&& current_frontier@[j].code@.len() == current_program_size
            &&& start_instrs.is_prefix_of(current_frontier@[j].code@)
        } by {
            assert(current_frontier@[j].code@ == start_instrs);
            assert(start_instrs =~= start_instrs.subrange(0, start_instrs.len() as int));
        }
        // when the starting program's run halts without solving, it was
        // classified as output progress against an empty dedup filter,
        // so it seeds the frontier
        // a starting program whose run never halts has no solving
        // extension at all: a pure-error stop replays in every extension,
        // and a forever-running start is replayed forever
        if !(exists|n: nat|
            (#[trigger] run_steps(start_instrs, jt_build(start_instrs), target_v, zero_mv(w), n))
                is Halted) {
            let jtb = jt_build(start_instrs);
            lemma_build_props(start_instrs);
            assert forall|i: int| 0 <= i < start_instrs.len() implies #[trigger] jtb[i] != -2 by {
                if jtb[i] == -2 {
                    assert(unmatched_open(start_instrs, i));
                    assert(unm_stack(start_instrs).contains(i));
                }
            }
            if exists|n: nat|
                !((#[trigger] run_steps(start_instrs, jtb, target_v, zero_mv(w), n)) is Running) {
                let n = choose|n: nat|
                    !((#[trigger] run_steps(start_instrs, jtb, target_v, zero_mv(w), n))
                        is Running);
                let e = run_steps(start_instrs, jtb, target_v, zero_mv(w), n)->Failed_0;
                assert(run_steps(start_instrs, jtb, target_v, zero_mv(w), n) == RunStatus::Failed(
                    e,
                ));
                crate::semantics::lemma_no_noop_without_open_entries(
                    start_instrs,
                    jtb,
                    target_v,
                    zero_mv(w),
                    n,
                );
                assert(!(e is Noop));
                assert forall|x: BfInstruction| !solves(
                    #[trigger] start_instrs.push(x),
                    target_v,
                    w,
                ) by {
                    lemma_error_prune_sound(start_instrs, start_instrs.push(x), target_v, w, n, e);
                }
            } else {
                assert forall|x: BfInstruction| !solves(
                    #[trigger] start_instrs.push(x),
                    target_v,
                    w,
                ) by {
                    if solves(start_instrs.push(x), target_v, w) {
                        let ext = start_instrs.push(x);
                        let n2 = choose|n2: nat|
                            (#[trigger] run_steps(ext, jt_build(ext), target_v, zero_mv(w), n2))
                                is Halted && run_steps(
                                ext,
                                jt_build(ext),
                                target_v,
                                zero_mv(w),
                                n2,
                            )->Halted_0.out == target_v.len();
                        lemma_jt_build_extends(start_instrs, ext);
                        assert(run_steps(start_instrs, jtb, target_v, zero_mv(w), n2) is Running);
                        crate::semantics::lemma_run_extend_running(
                            start_instrs,
                            jtb,
                            ext,
                            jt_build(ext),
                            target_v,
                            zero_mv(w),
                            n2,
                        );
                        assert(false);
                    }
                }
            }
            assert(no_solving_extension(start_instrs, target_v, w));
        }
        if exists|n: nat|
            (#[trigger] run_steps(start_instrs, jt_build(start_instrs), target_v, zero_mv(w), n))
                is Halted {
            let jtb = jt_build(start_instrs);
            let n = choose|n: nat|
                (#[trigger] run_steps(start_instrs, jtb, target_v, zero_mv(w), n)) is Halted;
            let mh = run_steps(start_instrs, jtb, target_v, zero_mv(w), n)->Halted_0;
            assert(run_steps(start_instrs, jtb, target_v, zero_mv(w), n) == RunStatus::Halted(mh));
            crate::semantics::lemma_halting_no_repeat(
                start_instrs,
                jtb,
                target_v,
                zero_mv(w),
                n,
                mh,
            );
            assert(!(initial_program_run_result is InfiniteLoopError));
            if mh.out == target_v.len() {
                assert(solves(start_instrs, target_v, w));
                assert(false);
            }
            assert(outcome_at(start_instrs, jtb, target_v, 0, zero_mv(w), n) == Some(
                crate::run::RunOutcomeV::IncompleteOutput(mh),
            ));
            assert(is_run_outcome(
                start_instrs,
                jtb,
                target_v,
                0,
                zero_mv(w),
                crate::run::RunOutcomeV::IncompleteOutput(mh),
            ));
            crate::run::lemma_run_outcome_unique(
                start_instrs,
                jtb,
                target_v,
                0,
                zero_mv(w),
                initial_program_run_result.ov(),
                crate::run::RunOutcomeV::IncompleteOutput(mh),
            );
            assert(initial_program_run_result is IncompleteOutputSuccess);
            assert(current_frontier@.len() == 1);
        }
    }

    while current_program_size < max_program_size
        invariant
            1 <= tape_size <= 15,
            w == tape_size,
            target_v == target_output@,
            canon == canonical(start_instrs),
            start_instrs == instrs_of_bytes(starting_program.spec_bytes()),
            prefix_ok(start_instrs),
            depth(start_instrs, start_instrs.len() as int) == 0,
            !solves(start_instrs, target_v, w),
            max_program_size < 0x7fff_ffff_ffff_fffe,
            max_program_size < usize::MAX,
            current_program_size >= start_instrs.len(),
            (current_program_size == start_instrs.len() && (exists|n: nat|
                (#[trigger] run_steps(
                    start_instrs,
                    jt_build(start_instrs),
                    target_v,
                    zero_mv(w),
                    n,
                )) is Halted)) ==> current_frontier@.len()
                >= 1,
            current_program_size > start_instrs.len() ==> ((exists|n: nat|
                (#[trigger] run_steps(
                    start_instrs,
                    jt_build(start_instrs),
                    target_v,
                    zero_mv(w),
                    n,
                )) is Halted) ==> no_solving_extension(
                start_instrs,
                target_v,
                w,
            )),
            (current_program_size > start_instrs.len() && current_frontier@.len() > 0)
                ==> no_solving_extension(start_instrs, target_v, w),
            (!(exists|n: nat|
                (#[trigger] run_steps(
                    start_instrs,
                    jt_build(start_instrs),
                    target_v,
                    zero_mv(w),
                    n,
                )) is Halted)) ==> no_solving_extension(start_instrs, target_v, w),
            forall|j: int|
                0 <= j < current_frontier@.len() ==> {
                    &&& seed_inv(#[trigger] current_frontier@[j], target_v, w, false)
                    &&& (canon ==> canonical(current_frontier@[j].code@))
                    &&& current_frontier@[j].code@.len() == current_program_size
                    &&& start_instrs.is_prefix_of(current_frontier@[j].code@)
                },
        decreases max_program_size - current_program_size,
    {
        let mut next_frontier: Vec<RunningProgramInfo> = Vec::new();
        let parents_len = current_frontier.len();
        for pi in 0..parents_len
            invariant
                1 <= tape_size <= 15,
                w == tape_size,
                target_v == target_output@,
                canon == canonical(start_instrs),
                start_instrs == instrs_of_bytes(starting_program.spec_bytes()),
                prefix_ok(start_instrs),
                depth(start_instrs, start_instrs.len() as int) == 0,
                !solves(start_instrs, target_v, w),
                parents_len == current_frontier@.len(),
                current_program_size < max_program_size < usize::MAX,
                max_program_size < 0x7fff_ffff_ffff_fffe,
                current_program_size >= start_instrs.len(),
                (current_program_size == start_instrs.len() && pi >= 1) ==> no_solving_extension(
                    start_instrs,
                    target_v,
                    w,
                ),
                current_program_size > start_instrs.len() ==> ((exists|n: nat|
                    (#[trigger] run_steps(
                        start_instrs,
                        jt_build(start_instrs),
                        target_v,
                        zero_mv(w),
                        n,
                    )) is Halted) ==> no_solving_extension(
                    start_instrs,
                    target_v,
                    w,
                )),
                forall|j: int|
                    0 <= j < current_frontier@.len() ==> {
                        &&& seed_inv(#[trigger] current_frontier@[j], target_v, w, false)
                        &&& (canon ==> canonical(current_frontier@[j].code@))
                        &&& current_frontier@[j].code@.len() == current_program_size
                        &&& start_instrs.is_prefix_of(current_frontier@[j].code@)
                    },
                (current_program_size > start_instrs.len() && parents_len > 0)
                    ==> no_solving_extension(start_instrs, target_v, w),
                (!(exists|n: nat|
                    (#[trigger] run_steps(
                        start_instrs,
                        jt_build(start_instrs),
                        target_v,
                        zero_mv(w),
                        n,
                    )) is Halted)) ==> no_solving_extension(start_instrs, target_v, w),
                next_frontier@.len() > 0 ==> no_solving_extension(start_instrs, target_v, w),
                forall|j: int|
                    0 <= j < next_frontier@.len() ==> {
                        &&& seed_inv(#[trigger] next_frontier@[j], target_v, w, false)
                        &&& (canon ==> canonical(next_frontier@[j].code@))
                        &&& next_frontier@[j].code@.len() == current_program_size + 1
                        &&& start_instrs.is_prefix_of(next_frontier@[j].code@)
                    },
        {
            let ghost pcode = current_frontier@[pi as int].code@;
            let ghost pre_next = next_frontier@;
            let solution = expand_seed(
                ws,
                &current_frontier[pi],
                target_output,
                &mut next_frontier,
                &mut found_states,
            );
            if let Some(working_program) = solution {
                proof {
                    lemma_prefix_transitive(start_instrs, pcode, working_program@);
                    // a solution longer than one extension is only
                    // returned after the starting length's extensions
                    // were all certified unsolving
                    if working_program@.len() > start_instrs.len() + 1 {
                        assert(current_program_size > start_instrs.len());
                        assert(no_solving_extension(start_instrs, target_v, w));
                    }
                }
                return Ok(working_program);
            }
            proof {
                assert forall|j: int|
                    pre_next.len() <= j < next_frontier@.len() implies start_instrs.is_prefix_of(
                    #[trigger] next_frontier@[j].code@,
                ) by {
                    lemma_prefix_transitive(start_instrs, pcode, next_frontier@[j].code@);
                }
                // at the starting length the parent is the starting
                // program itself, so none of its allowed extensions
                // solves the target
                if current_program_size == start_instrs.len() {
                    assert(start_instrs =~= pcode);
                    assert(no_solving_extension(start_instrs, target_v, w));
                }
                if next_frontier@.len() > 0 && pre_next.len() == 0 {
                    if current_program_size > start_instrs.len() {
                        assert(no_solving_extension(start_instrs, target_v, w));
                    }
                }
            }
        }
        proof {
            if current_program_size == start_instrs.len() && (exists|n: nat|
                (#[trigger] run_steps(
                    start_instrs,
                    jt_build(start_instrs),
                    target_v,
                    zero_mv(w),
                    n,
                )) is Halted) {
                assert(parents_len >= 1);
                assert(no_solving_extension(start_instrs, target_v, w));
            }
        }
        current_frontier = next_frontier;
        current_program_size = current_program_size + 1;
    }
    Err(SearchError::LengthLimit)
}

/// Discarding a child whose run from the zero tape stops with a pure
/// error — a target mismatch, a tape bound, or the input token — loses
/// no solution: no extension of such a program solves the target its run
/// failed against.  This is the soundness of the driver's error
/// discards for those classifications.
pub proof fn lemma_error_prune_sound(
    code1: Seq<BfInstruction>,
    code2: Seq<BfInstruction>,
    target: Seq<u8>,
    w: int,
    n: nat,
    e: RunErr,
)
    requires
        prefix_ok(code1),
        code1.len() <= code2.len() <= 0x7fff_ffff_ffff_ffff,
        forall|i: int| 0 <= i < code1.len() ==> code1[i] == code2[i],
        run_steps(code1, jt_build(code1), target, zero_mv(w), n) == RunStatus::Failed(e),
        !(e is Noop),
    ensures
        !solves(code2, target, w),
{
    if solves(code2, target, w) {
        lemma_build_props(code1);
        lemma_build_props(code2);
        lemma_jt_build_extends(code1, code2);
        lemma_run_extend_failed(
            code1,
            jt_build(code1),
            code2,
            jt_build(code2),
            target,
            zero_mv(w),
            n,
            e,
        );
        let n2 = choose|n2: nat|
            (#[trigger] run_steps(code2, jt_build(code2), target, zero_mv(w), n2)) is Halted
                && run_steps(code2, jt_build(code2), target, zero_mv(w), n2)->Halted_0.out
                == target.len();
        lemma_outcome_unique(code2, jt_build(code2), target, zero_mv(w), n, n2);
        assert(false);
    }
}

/// Appending an instruction that passes the adjacency guard keeps the
/// program canonical.
proof fn lemma_canonical_push(code: Seq<BfInstruction>, x: BfInstruction)
    requires
        code.len() > 0 ==> !forbidden_pair(code.last(), x),
    ensures
        canonical(code) ==> canonical(code.push(x)),
{
    if canonical(code) {
        let ext = code.push(x);
        assert forall|i: int| 1 <= i < ext.len() implies !forbidden_pair(
            #[trigger] ext[i - 1],
            ext[i],
        ) by {
            if i < code.len() {
                assert(ext[i - 1] == code[i - 1] && ext[i] == code[i]);
                assert(!forbidden_pair(code[i - 1], code[i]));
            } else {
                assert(ext[i - 1] == code.last() && ext[i] == x);
            }
        }
    }
}

} // verus!
