//! The resumable interpreter, in its two modes: a fast step-capped run,
//! and a tracking run that detects infinite loops by recording every
//! (program counter, tape, head) configuration it passes through.

use vstd::prelude::*;
use crate::data::{BfInstruction, CompressedBF};
use crate::brackets::{prefix_ok, jt_build, unm_stack, lemma_build_props};
use crate::semantics::{
    MachineV,
    RunErr,
    StepRes,
    RunStatus,
    spec_step,
    run_steps,
    wrap_inc,
    wrap_dec,
    pure_eq,
    has_state_repeat,
    lemma_advance,
    lemma_fail,
    lemma_halting_no_repeat,
    lemma_outcome_unique,
    lemma_terminal_absorbing,
    lemma_running_prefix,
};
use crate::tracker::{
    ConfigSet,
    config_set_view,
    state_key,
    state_key_spec,
    lemma_state_key_injective,
    key_bound,
    pair_index,
    lemma_key_bound,
    lemma_pair_index_injective,
};
use vstd::set_lib::{set_int_range, lemma_int_range, lemma_len_subset};

verus! {

/// Tape contents and head position of a suspended machine.
#[derive(Debug, PartialEq, Eq, Hash)]
pub struct ProgramState {
    pub tape: Vec<u8>,
    pub tape_head: u8,
}

impl Clone for ProgramState {
    /// A clone carries the same tape and head.
    fn clone(&self) -> (r: Self)
        ensures
            r.tape@ == self.tape@,
            r.tape_head == self.tape_head,
    {
        let r = ProgramState { tape: self.tape.clone(), tape_head: self.tape_head };
        proof {
            assert(r.tape@ =~= self.tape@);
        }
        r
    }
}

/// The point a partial program's run was suspended at: machine state,
/// program counter and output cursor.
#[derive(Debug, PartialEq, Eq)]
pub struct ContinueState {
    pub program_state: ProgramState,
    pub resume_pc: usize,
    pub resume_output_ind: usize,
}

impl ContinueState {
    /// The mathematical machine state this resume point denotes.
    pub open spec fn mv(&self) -> MachineV {
        MachineV {
            tape: self.program_state.tape@,
            head: self.program_state.tape_head as int,
            pc: self.resume_pc as int,
            out: self.resume_output_ind as int,
        }
    }

    /// The head is on the tape.
    pub open spec fn state_wf(&self) -> bool {
        (self.program_state.tape_head as int) < self.program_state.tape@.len()
    }
}

impl Clone for ContinueState {
    /// A clone denotes the same resume point.
    fn clone(&self) -> (r: Self)
        ensures
            r.mv() == self.mv(),
            r.program_state.tape@ == self.program_state.tape@,
            r.program_state.tape_head == self.program_state.tape_head,
            r.resume_pc == self.resume_pc,
            r.resume_output_ind == self.resume_output_ind,
    {
        ContinueState {
            program_state: self.program_state.clone(),
            resume_pc: self.resume_pc,
            resume_output_ind: self.resume_output_ind,
        }
    }
}

/// A seed: a partial program, its jump table, its outstanding open
/// bracket count, and the state to resume it from.
#[derive(Debug)]
pub struct RunningProgramInfo {
    pub code: CompressedBF,
    pub current_paren_count: usize,
    pub jump_table: Vec<i64>,
    pub continue_state: ContinueState,
}

impl RunningProgramInfo {
    /// Well-formedness: the packed code is valid and small enough for
    /// 64-bit jump entries, no prefix closes an unopened bracket, the
    /// jump table is exactly what the building pass produces, the open
    /// count matches the outstanding brackets, the head is on the tape,
    /// and the resume point is inside or just past the code.
    pub open spec fn wf(&self) -> bool {
        &&& self.code.wf()
        &&& self.code@.len() < 0x7fff_ffff_ffff_ffff
        &&& prefix_ok(self.code@)
        &&& self.jump_table@ == jt_build(self.code@)
        &&& self.current_paren_count == unm_stack(self.code@).len()
        &&& self.continue_state.state_wf()
        &&& self.continue_state.resume_pc <= self.code@.len()
    }

    /// The tape width this seed runs on.
    pub open spec fn width(&self) -> int {
        self.continue_state.program_state.tape@.len() as int
    }

    /// `o` is the outcome that the semantics assigns to running this seed
    /// against `target` from its resume point.
    pub open spec fn run_outcome(&self, target: Seq<u8>, o: RunOutcomeV) -> bool {
        is_run_outcome(
            self.code@,
            self.jump_table@,
            target,
            self.current_paren_count as int,
            self.continue_state.mv(),
            o,
        )
    }

    /// The run from this seed's resume point revisits a configuration.
    pub open spec fn run_repeats(&self, target: Seq<u8>) -> bool {
        has_state_repeat(self.code@, self.jump_table@, target, self.continue_state.mv())
    }
}

impl Clone for RunningProgramInfo {
    /// A clone denotes the same seed.  The jump table is rebuilt with
    /// room for one more entry, so extending the clone by one
    /// instruction does not reallocate.
    fn clone(&self) -> (r: Self)
        ensures
            r.code@ == self.code@,
            self.code.wf() ==> r.code.wf(),
            r.current_paren_count == self.current_paren_count,
            r.jump_table@ == self.jump_table@,
            r.continue_state.mv() == self.continue_state.mv(),
            r.continue_state.program_state.tape@ == self.continue_state.program_state.tape@,
            r.continue_state.program_state.tape_head == self.continue_state.program_state.tape_head,
            r.continue_state.resume_pc == self.continue_state.resume_pc,
            r.continue_state.resume_output_ind == self.continue_state.resume_output_ind,
            self.wf() ==> r.wf(),
    {
        let n = self.jump_table.len();
        let room: usize = if n < usize::MAX {
            n + 1
        } else {
            n
        };
        let mut jt: Vec<i64> = Vec::with_capacity(room);
        jt.extend_from_slice(self.jump_table.as_slice());
        proof {
            assert(jt@ =~= self.jump_table@);
        }
        RunningProgramInfo {
            code: self.code.clone(),
            current_paren_count: self.current_paren_count,
            jump_table: jt,
            continue_state: self.continue_state.clone(),
        }
    }
}

/// Classification of one interpreter run.
#[derive(Debug, PartialEq, Eq)]
pub enum BfRunResult {
    NOOPError,
    TargetMismatchError,
    TapeHeadBoundError,
    OOMError,
    InfiniteLoopError,
    InputTokenError,
    IncompleteLoopSuccess(ContinueState),
    IncompleteOutputSuccess(ContinueState),
    Success,
}

/// The mathematical view of a run classification.
pub enum RunOutcomeV {
    Noop,
    TargetMismatch,
    TapeHeadBound,
    Oom,
    InfiniteLoop,
    InputToken,
    IncompleteLoop(MachineV),
    IncompleteOutput(MachineV),
    Success,
}

impl BfRunResult {
    /// The view of this classification.
    pub open spec fn ov(&self) -> RunOutcomeV {
        match self {
            BfRunResult::NOOPError => RunOutcomeV::Noop,
            BfRunResult::TargetMismatchError => RunOutcomeV::TargetMismatch,
            BfRunResult::TapeHeadBoundError => RunOutcomeV::TapeHeadBound,
            BfRunResult::OOMError => RunOutcomeV::Oom,
            BfRunResult::InfiniteLoopError => RunOutcomeV::InfiniteLoop,
            BfRunResult::InputTokenError => RunOutcomeV::InputToken,
            BfRunResult::IncompleteLoopSuccess(cs) => RunOutcomeV::IncompleteLoop(cs.mv()),
            BfRunResult::IncompleteOutputSuccess(cs) => RunOutcomeV::IncompleteOutput(cs.mv()),
            BfRunResult::Success => RunOutcomeV::Success,
        }
    }
}

/// The outcome an error stop maps to.
pub open spec fn err_outcome(e: RunErr) -> RunOutcomeV {
    match e {
        RunErr::Noop => RunOutcomeV::Noop,
        RunErr::TargetMismatch => RunOutcomeV::TargetMismatch,
        RunErr::TapeHeadBound => RunOutcomeV::TapeHeadBound,
        RunErr::Oom => RunOutcomeV::Oom,
        RunErr::InputToken => RunOutcomeV::InputToken,
    }
}

/// The outcome of reaching the end of the code in state `m` with `paren`
/// open brackets outstanding.
pub open spec fn halt_outcome(paren: int, target: Seq<u8>, m: MachineV) -> RunOutcomeV {
    if paren != 0 {
        RunOutcomeV::IncompleteLoop(m)
    } else if m.out != target.len() {
        RunOutcomeV::IncompleteOutput(m)
    } else {
        RunOutcomeV::Success
    }
}

/// The outcome, if any, that the run has settled on within `n` steps.
pub open spec fn outcome_at(
    code: Seq<BfInstruction>,
    jt: Seq<i64>,
    target: Seq<u8>,
    paren: int,
    m0: MachineV,
    n: nat,
) -> Option<RunOutcomeV> {
    match run_steps(code, jt, target, m0, n) {
        RunStatus::Halted(m) => Some(halt_outcome(paren, target, m)),
        RunStatus::Failed(e) => Some(err_outcome(e)),
        RunStatus::Running(_) => None,
    }
}

/// `o` is the outcome the semantics assigns to the run.
pub open spec fn is_run_outcome(
    code: Seq<BfInstruction>,
    jt: Seq<i64>,
    target: Seq<u8>,
    paren: int,
    m0: MachineV,
    o: RunOutcomeV,
) -> bool {
    exists|n: nat| #[trigger] outcome_at(code, jt, target, paren, m0, n) == Some(o)
}

/// Interpreter determinism: the semantics assigns at most one outcome to
/// a run, so any two results that meet the interpreters' contracts are
/// equal, resume states included.
pub proof fn lemma_run_outcome_unique(
    code: Seq<BfInstruction>,
    jt: Seq<i64>,
    target: Seq<u8>,
    paren: int,
    m0: MachineV,
    o1: RunOutcomeV,
    o2: RunOutcomeV,
)
    requires
        is_run_outcome(code, jt, target, paren, m0, o1),
        is_run_outcome(code, jt, target, paren, m0, o2),
    ensures
        o1 == o2,
{
    let n1 = choose|n: nat| outcome_at(code, jt, target, paren, m0, n) == Some(o1);
    let n2 = choose|n: nat| outcome_at(code, jt, target, paren, m0, n) == Some(o2);
    lemma_outcome_unique(code, jt, target, m0, n1, n2);
}

/// Cycle-detector soundness: when the run halts — reaches the end of its
/// code — the tracking interpreter cannot report an infinite loop, so any
/// results meeting the two interpreters' contracts agree.
pub proof fn lemma_cycle_detector_sound(
    code: Seq<BfInstruction>,
    jt: Seq<i64>,
    target: Seq<u8>,
    paren: int,
    m0: MachineV,
    n: nat,
    mh: MachineV,
    r_tracking: RunOutcomeV,
    r_fast: RunOutcomeV,
)
    requires
        run_steps(code, jt, target, m0, n) == RunStatus::Halted(mh),
        r_tracking is InfiniteLoop ==> has_state_repeat(code, jt, target, m0),
        !(r_tracking is InfiniteLoop) ==> is_run_outcome(code, jt, target, paren, m0, r_tracking),
        is_run_outcome(code, jt, target, paren, m0, r_fast),
    ensures
        r_tracking == r_fast,
{
    lemma_halting_no_repeat(code, jt, target, m0, n, mh);
    lemma_run_outcome_unique(code, jt, target, paren, m0, r_tracking, r_fast);
}

/// Per-worker interpreter scratch: the visited-configuration store of the
/// tracking mode, and the highest step count the fast mode has reached.
pub struct Workspace {
    visited: ConfigSet,
    max_steps: usize,
}

impl Workspace {
    /// The highest step count the fast interpreter has reached so far.
    pub closed spec fn spec_max_steps(&self) -> usize {
        self.max_steps
    }

    /// A fresh scratch space.
    pub fn new() -> (ws: Workspace)
        ensures
            ws.spec_max_steps() == 0,
    {
        Workspace { visited: ConfigSet::new(), max_steps: 0 }
    }
}

/// The highest step count the fast interpreter has reached in this
/// workspace.
pub fn get_max_steps_reached(ws: &Workspace) -> (r: usize)
    ensures
        r == ws.spec_max_steps(),
{
    ws.max_steps
}

/// Step cap of the fast interpreter mode.
pub const MAX_STEPS: usize = 131066;

/// Interpreter determinism: both interpreter modes report an infinite
/// loop under an exact condition on the run and otherwise report the
/// run's unique semantic outcome, so any two results that meet one
/// mode's contract for the same seed and target are equal, resume
/// states included.
pub proof fn lemma_interpreter_deterministic(
    code: Seq<BfInstruction>,
    jt: Seq<i64>,
    target: Seq<u8>,
    paren: int,
    m0: MachineV,
    loop_detected: bool,
    o1: RunOutcomeV,
    o2: RunOutcomeV,
)
    requires
        (o1 is InfiniteLoop) == loop_detected,
        (o2 is InfiniteLoop) == loop_detected,
        !(o1 is InfiniteLoop) ==> is_run_outcome(code, jt, target, paren, m0, o1),
        !(o2 is InfiniteLoop) ==> is_run_outcome(code, jt, target, paren, m0, o2),
    ensures
        o1 == o2,
{
    if !loop_detected {
        lemma_run_outcome_unique(code, jt, target, paren, m0, o1, o2);
    }
}

/// The configuration pair the visited store keeps for a running state.
pub open spec fn visited_pair(m: MachineV) -> (u128, usize) {
    ((state_key_spec(m.tape, m.head) as u128), (m.pc as usize))
}

/// When the trace up to the current step is repeat-free, the store holds
/// every earlier configuration, and the current configuration is absent
/// from the store, a run that stops on the very next step has no
/// configuration repeat at all.
proof fn lemma_error_exit_no_repeat(
    code: Seq<BfInstruction>,
    jt: Seq<i64>,
    target: Seq<u8>,
    m0: MachineV,
    steps_g: nat,
    cur: MachineV,
    vset: Set<(u128, usize)>,
)
    requires
        run_steps(code, jt, target, m0, steps_g) == RunStatus::Running(cur),
        !(run_steps(code, jt, target, m0, steps_g + 1) is Running),
        forall|j: nat|
            (j < steps_g && (#[trigger] run_steps(code, jt, target, m0, j)) is Running)
                ==> vset.contains(visited_pair(run_steps(code, jt, target, m0, j)->Running_0)),
        forall|j1: nat, j2: nat|
            (j1 < j2 && j2 < steps_g && (#[trigger] run_steps(code, jt, target, m0, j1)) is Running
                && (#[trigger] run_steps(code, jt, target, m0, j2)) is Running) ==> !pure_eq(
                run_steps(code, jt, target, m0, j1)->Running_0,
                run_steps(code, jt, target, m0, j2)->Running_0,
            ),
        !vset.contains(visited_pair(cur)),
    ensures
        !has_state_repeat(code, jt, target, m0),
{
    if has_state_repeat(code, jt, target, m0) {
        let (n1, n2, m1, m2) = choose|n1: nat, n2: nat, m1: MachineV, m2: MachineV|
            n1 < n2 && run_steps(code, jt, target, m0, n1) == RunStatus::Running(m1) && run_steps(
                code,
                jt,
                target,
                m0,
                n2,
            ) == RunStatus::Running(m2) && pure_eq(m1, m2);
        if n2 > steps_g {
            lemma_terminal_absorbing(code, jt, target, m0, steps_g + 1, n2);
            assert(false);
        } else if n2 == steps_g {
            assert(m2 == cur);
            assert(vset.contains(visited_pair(m1)));
            assert(state_key_spec(m1.tape, m1.head) == state_key_spec(cur.tape, cur.head));
            assert(visited_pair(m1) == visited_pair(cur));
            assert(false);
        } else {
            assert(!pure_eq(m1, m2));
            assert(false);
        }
    }
}

/// A repeat-free trace up to a stopping step has no configuration
/// repeat at all.
proof fn lemma_halt_exit_no_repeat(
    code: Seq<BfInstruction>,
    jt: Seq<i64>,
    target: Seq<u8>,
    m0: MachineV,
    steps_g: nat,
)
    requires
        !(run_steps(code, jt, target, m0, steps_g) is Running),
        forall|j1: nat, j2: nat|
            (j1 < j2 && j2 < steps_g && (#[trigger] run_steps(code, jt, target, m0, j1)) is Running
                && (#[trigger] run_steps(code, jt, target, m0, j2)) is Running) ==> !pure_eq(
                run_steps(code, jt, target, m0, j1)->Running_0,
                run_steps(code, jt, target, m0, j2)->Running_0,
            ),
    ensures
        !has_state_repeat(code, jt, target, m0),
{
    if has_state_repeat(code, jt, target, m0) {
        let (n1, n2, m1, m2) = choose|n1: nat, n2: nat, m1: MachineV, m2: MachineV|
            n1 < n2 && run_steps(code, jt, target, m0, n1) == RunStatus::Running(m1) && run_steps(
                code,
                jt,
                target,
                m0,
                n2,
            ) == RunStatus::Running(m2) && pure_eq(m1, m2);
        if n2 >= steps_g {
            lemma_terminal_absorbing(code, jt, target, m0, steps_g, n2);
            assert(false);
        } else {
            assert(!pure_eq(m1, m2));
            assert(false);
        }
    }
}

/// The status the loop of an interpreter has reached: still running
/// inside the code, or halted just past it.
pub open spec fn loop_status(code_len: int, tape: Seq<u8>, head: int, pc: int, out: int) -> RunStatus {
    let m = MachineV { tape: tape, head: head, pc: pc, out: out };
    if pc < code_len {
        RunStatus::Running(m)
    } else {
        RunStatus::Halted(m)
    }
}

/// Run a seed against a target from its resume point, recording every
/// (configuration, program counter) pair passed through and classifying
/// a revisit as an infinite loop.  Apart from possibly reporting
/// `InfiniteLoopError`, the result is exactly the semantic outcome of
/// the run; `InfiniteLoopError` is reported only when the run really
/// revisited a configuration.  The visited store encodes a configuration
/// into one machine word, which limits the search interpreters to tapes
/// of at most 15 cells.
pub fn run_program_fragment(
    ws: &mut Workspace,
    program_fragment: &RunningProgramInfo,
    target_output: &[u8],
) -> (r: BfRunResult)
    requires
        program_fragment.wf(),
        1 <= program_fragment.width() <= 15,
        program_fragment.continue_state.resume_output_ind <= target_output@.len(),
    ensures
        final(ws).spec_max_steps() == old(ws).spec_max_steps(),
        !(r is InfiniteLoopError) ==> program_fragment.run_outcome(target_output@, r.ov()),
        r is InfiniteLoopError <==> program_fragment.run_repeats(target_output@),
        (match r {
            BfRunResult::IncompleteLoopSuccess(cs) | BfRunResult::IncompleteOutputSuccess(cs) => {
                &&& cs.state_wf()
                &&& cs.program_state.tape@.len() == program_fragment.width()
                &&& cs.resume_pc == program_fragment.code@.len()
                &&& cs.resume_output_ind <= target_output@.len()
            },
            _ => true,
        }),
{
    ws.visited.clear();
    let ghost code_v = program_fragment.code@;
    let ghost jt_v = program_fragment.jump_table@;
    let ghost target_v = target_output@;
    let ghost m0 = program_fragment.continue_state.mv();
    let ghost paren = program_fragment.current_paren_count as int;
    let ghost width = program_fragment.width();
    proof {
        lemma_build_props(code_v);
    }

    let mut tape: Vec<u8> = program_fragment.continue_state.program_state.tape.clone();
    let mut tape_head: u8 = program_fragment.continue_state.program_state.tape_head;
    let mut pc: usize = program_fragment.continue_state.resume_pc;
    let mut output_ind: usize = program_fragment.continue_state.resume_output_ind;
    let code_size = program_fragment.code.size();
    let ghost mut steps_g: nat = 0;
    let ghost mut seen_idx: Set<int> = Set::empty();

    while pc < code_size
        invariant
            program_fragment.wf(),
            code_v == program_fragment.code@,
            jt_v == program_fragment.jump_table@,
            target_v == target_output@,
            paren == program_fragment.current_paren_count as int,
            m0 == program_fragment.continue_state.mv(),
            width == program_fragment.width(),
            1 <= width <= 15,
            code_size == code_v.len(),
            jt_v.len() == code_v.len(),
            tape@.len() == width,
            (tape_head as int) < width,
            output_ind <= target_v.len(),
            pc <= code_size,
            run_steps(code_v, jt_v, target_v, m0, steps_g) == loop_status(
                code_v.len() as int,
                tape@,
                tape_head as int,
                pc as int,
                output_ind as int,
            ),
            ws.spec_max_steps() == old(ws).spec_max_steps(),
            forall|k: u128, p: usize|
                #[trigger] config_set_view(ws.visited).contains((k, p)) ==> exists|j: nat|
                    {
                        &&& j < steps_g
                        &&& #[trigger] run_steps(code_v, jt_v, target_v, m0, j) is Running
                        &&& run_steps(code_v, jt_v, target_v, m0, j)->Running_0.pc == p as int
                        &&& run_steps(code_v, jt_v, target_v, m0, j)->Running_0.tape.len() == width
                        &&& run_steps(code_v, jt_v, target_v, m0, j)->Running_0.head >= 0
                        &&& state_key_spec(
                            run_steps(code_v, jt_v, target_v, m0, j)->Running_0.tape,
                            run_steps(code_v, jt_v, target_v, m0, j)->Running_0.head,
                        ) == k
                    },
            forall|k: u128, p: usize|
                #[trigger] config_set_view(ws.visited).contains((k, p)) ==> k < key_bound() && (
                p as int) < code_size as int,
            forall|v: int|
                #[trigger] seen_idx.contains(v) ==> exists|k: u128, p: usize|
                    #[trigger] config_set_view(ws.visited).contains((k, p)) && v == pair_index(
                        k,
                        p,
                    ),
            seen_idx.finite(),
            seen_idx.len() == steps_g,
            steps_g <= (code_size as int) * key_bound(),
            forall|j: nat|
                (j < steps_g && (#[trigger] run_steps(code_v, jt_v, target_v, m0, j)) is Running)
                    ==> config_set_view(ws.visited).contains(
                    visited_pair(run_steps(code_v, jt_v, target_v, m0, j)->Running_0),
                ),
            forall|j1: nat, j2: nat|
                (j1 < j2 && j2 < steps_g && (#[trigger] run_steps(
                    code_v,
                    jt_v,
                    target_v,
                    m0,
                    j1,
                )) is Running && (#[trigger] run_steps(code_v, jt_v, target_v, m0, j2)) is Running)
                    ==> !pure_eq(
                    run_steps(code_v, jt_v, target_v, m0, j1)->Running_0,
                    run_steps(code_v, jt_v, target_v, m0, j2)->Running_0,
                ),
        decreases (code_size as int) * key_bound() - steps_g,
    {
        proof {
            lemma_build_props(code_v);
        }
        let ghost cur = MachineV {
            tape: tape@,
            head: tape_head as int,
            pc: pc as int,
            out: output_ind as int,
        };
        let key = state_key(&tape, tape_head);
        if ws.visited.contains(key, pc) {
            proof {
                let j: nat = choose|j: nat|
                    {
                        &&& j < steps_g
                        &&& #[trigger] run_steps(code_v, jt_v, target_v, m0, j) is Running
                        &&& run_steps(code_v, jt_v, target_v, m0, j)->Running_0.pc == pc as int
                        &&& run_steps(code_v, jt_v, target_v, m0, j)->Running_0.tape.len() == width
                        &&& run_steps(code_v, jt_v, target_v, m0, j)->Running_0.head >= 0
                        &&& state_key_spec(
                            run_steps(code_v, jt_v, target_v, m0, j)->Running_0.tape,
                            run_steps(code_v, jt_v, target_v, m0, j)->Running_0.head,
                        ) == key
                    };
                let mj = run_steps(code_v, jt_v, target_v, m0, j)->Running_0;
                lemma_state_key_injective(mj.tape, mj.head, cur.tape, cur.head);
                assert(pure_eq(mj, cur));
                assert(run_steps(code_v, jt_v, target_v, m0, steps_g) == RunStatus::Running(cur));
                assert(run_steps(code_v, jt_v, target_v, m0, j) == RunStatus::Running(mj));
                assert(has_state_repeat(code_v, jt_v, target_v, m0)) by {
                    assert(j < steps_g && run_steps(code_v, jt_v, target_v, m0, j)
                        == RunStatus::Running(mj) && run_steps(code_v, jt_v, target_v, m0, steps_g)
                        == RunStatus::Running(cur) && pure_eq(mj, cur));
                }
            }
            return BfRunResult::InfiniteLoopError;
        }
        let ghost pre_visited = config_set_view(ws.visited);
        let ghost pre_seen = seen_idx;
        ws.visited.insert(key, pc);
        proof {
            // the freshly inserted pair folds to a fresh index, so the
            // index set grows by one, and it stays inside a finite range:
            // that bounds the number of iterations
            lemma_key_bound(cur.tape, cur.head);
            let v = pair_index(key, pc);
            if pre_seen.contains(v) {
                let (k2, p2): (u128, usize) = choose|k2: u128, p2: usize|
                    #[trigger] pre_visited.contains((k2, p2)) && v == pair_index(k2, p2);
                lemma_pair_index_injective(key, pc, k2, p2);
                assert(false);
            }
            vstd::set::axiom_set_insert_finite(pre_seen, v);
            vstd::set::axiom_set_insert_len(pre_seen, v);
            seen_idx = pre_seen.insert(v);
            assert(config_set_view(ws.visited) == pre_visited.insert((key, pc)));
            assert forall|w: int| seen_idx.contains(w) implies exists|k2: u128, p2: usize|
                #[trigger] config_set_view(ws.visited).contains((k2, p2)) && w == pair_index(
                    k2,
                    p2,
                ) by {
                if w == v {
                    assert(config_set_view(ws.visited).contains((key, pc)) && w == pair_index(
                        key,
                        pc,
                    ));
                } else {
                    let (k2, p2): (u128, usize) = choose|k2: u128, p2: usize|
                        #[trigger] pre_visited.contains((k2, p2)) && w == pair_index(k2, p2);
                    assert(config_set_view(ws.visited).contains((k2, p2)));
                }
            }
            let bound = (code_size as int) * key_bound();
            assert forall|w: int| seen_idx.contains(w) implies set_int_range(0, bound).contains(
                w,
            ) by {
                let (k2, p2): (u128, usize) = choose|k2: u128, p2: usize|
                    #[trigger] config_set_view(ws.visited).contains((k2, p2)) && w == pair_index(
                        k2,
                        p2,
                    );
                assert((p2 as int) * key_bound() + k2 < (code_size as int) * key_bound())
                    by (nonlinear_arith)
                    requires
                        0 <= (p2 as int) < code_size as int,
                        0 <= k2 < key_bound(),
                ;
                assert((p2 as int) * key_bound() >= 0) by (nonlinear_arith)
                    requires
                        0 <= (p2 as int),
                        key_bound() > 0,
                ;
            }
            lemma_int_range(0, bound);
            lemma_len_subset(seen_idx, set_int_range(0, bound));
            // the trace up to and including this step is now stored,
            // and it is repeat-free: a repeat would have been found by
            // the membership test above
            assert(run_steps(code_v, jt_v, target_v, m0, steps_g) == RunStatus::Running(cur));
            assert(visited_pair(cur) == (key, pc));
            assert(!pre_visited.contains(visited_pair(cur)));
            assert forall|j: nat|
                (j < steps_g + 1 && (#[trigger] run_steps(code_v, jt_v, target_v, m0, j))
                    is Running) implies config_set_view(ws.visited).contains(
                visited_pair(run_steps(code_v, jt_v, target_v, m0, j)->Running_0),
            ) by {
                if j < steps_g {
                    assert(pre_visited.contains(
                        visited_pair(run_steps(code_v, jt_v, target_v, m0, j)->Running_0),
                    ));
                } else {
                    assert(run_steps(code_v, jt_v, target_v, m0, j)->Running_0 == cur);
                }
            }
            assert forall|j1: nat, j2: nat|
                (j1 < j2 && j2 < steps_g + 1 && (#[trigger] run_steps(
                    code_v,
                    jt_v,
                    target_v,
                    m0,
                    j1,
                )) is Running && (#[trigger] run_steps(code_v, jt_v, target_v, m0, j2))
                    is Running) implies !pure_eq(
                run_steps(code_v, jt_v, target_v, m0, j1)->Running_0,
                run_steps(code_v, jt_v, target_v, m0, j2)->Running_0,
            ) by {
                if j2 == steps_g {
                    let mj1 = run_steps(code_v, jt_v, target_v, m0, j1)->Running_0;
                    if pure_eq(mj1, cur) {
                        assert(pre_visited.contains(visited_pair(mj1)));
                        assert(state_key_spec(mj1.tape, mj1.head) == state_key_spec(
                            cur.tape,
                            cur.head,
                        ));
                        assert(visited_pair(mj1) == visited_pair(cur));
                        assert(false);
                    }
                }
            }
        }
        let instruction = program_fragment.code.get(pc).unwrap();
        proof {
            assert(code_v[pc as int] == instruction);
        }
        match instruction {
            BfInstruction::Inc => {
                let h = tape_head as usize;
                let cell = tape[h];
                tape.set(h, cell.wrapping_add(1));
                proof {
                    let next = MachineV { tape: tape@, pc: cur.pc + 1, ..cur };
                    assert(tape@ == cur.tape.update(cur.head, wrap_inc(cell)));
                    assert(spec_step(code_v, jt_v, target_v, cur) == StepRes::Step(next));
                    lemma_advance(code_v, jt_v, target_v, m0, steps_g, cur, next);
                    steps_g = steps_g + 1;
                }
            },
            BfInstruction::Dec => {
                let h = tape_head as usize;
                let cell = tape[h];
                tape.set(h, cell.wrapping_sub(1));
                proof {
                    let next = MachineV { tape: tape@, pc: cur.pc + 1, ..cur };
                    assert(tape@ == cur.tape.update(cur.head, wrap_dec(cell)));
                    assert(spec_step(code_v, jt_v, target_v, cur) == StepRes::Step(next));
                    lemma_advance(code_v, jt_v, target_v, m0, steps_g, cur, next);
                    steps_g = steps_g + 1;
                }
            },
            BfInstruction::Left => {
                if tape_head == 0 {
                    proof {
                        lemma_fail(code_v, jt_v, target_v, m0, steps_g, cur, RunErr::TapeHeadBound);
                        assert(outcome_at(code_v, jt_v, target_v, paren, m0, steps_g + 1) == Some(
                            err_outcome(RunErr::TapeHeadBound),
                        ));
                        lemma_error_exit_no_repeat(code_v, jt_v, target_v, m0, steps_g, cur, pre_visited);
                    }
                    return BfRunResult::TapeHeadBoundError;
                }
                tape_head = tape_head - 1;
                proof {
                    let next = MachineV { head: cur.head - 1, pc: cur.pc + 1, ..cur };
                    assert(spec_step(code_v, jt_v, target_v, cur) == StepRes::Step(next));
                    lemma_advance(code_v, jt_v, target_v, m0, steps_g, cur, next);
                    steps_g = steps_g + 1;
                }
            },
            BfInstruction::Right => {
                if tape_head as usize + 1 == tape.len() {
                    proof {
                        lemma_fail(code_v, jt_v, target_v, m0, steps_g, cur, RunErr::Oom);
                        assert(outcome_at(code_v, jt_v, target_v, paren, m0, steps_g + 1) == Some(
                            err_outcome(RunErr::Oom),
                        ));
                        lemma_error_exit_no_repeat(code_v, jt_v, target_v, m0, steps_g, cur, pre_visited);
                    }
                    return BfRunResult::OOMError;
                }
                tape_head = tape_head + 1;
                proof {
                    let next = MachineV { head: cur.head + 1, pc: cur.pc + 1, ..cur };
                    assert(spec_step(code_v, jt_v, target_v, cur) == StepRes::Step(next));
                    lemma_advance(code_v, jt_v, target_v, m0, steps_g, cur, next);
                    steps_g = steps_g + 1;
                }
            },
            BfInstruction::LoopStart => {
                let h = tape_head as usize;
                if tape[h] == 0 {
                    let j = program_fragment.jump_table[pc];
                    if j == -2 {
                        proof {
                            lemma_fail(code_v, jt_v, target_v, m0, steps_g, cur, RunErr::Noop);
                            assert(outcome_at(code_v, jt_v, target_v, paren, m0, steps_g + 1)
                                == Some(err_outcome(RunErr::Noop)));
                        lemma_error_exit_no_repeat(code_v, jt_v, target_v, m0, steps_g, cur, pre_visited);
                        }
                        return BfRunResult::NOOPError;
                    }
                    proof {
                        assert(1 <= j <= code_v.len());
                        let next = MachineV { pc: j as int, ..cur };
                        assert(spec_step(code_v, jt_v, target_v, cur) == StepRes::Step(next));
                        lemma_advance(code_v, jt_v, target_v, m0, steps_g, cur, next);
                        steps_g = steps_g + 1;
                    }
                    pc = j as usize;
                    continue ;
                }
                proof {
                    let next = MachineV { pc: cur.pc + 1, ..cur };
                    assert(spec_step(code_v, jt_v, target_v, cur) == StepRes::Step(next));
                    lemma_advance(code_v, jt_v, target_v, m0, steps_g, cur, next);
                    steps_g = steps_g + 1;
                }
            },
            BfInstruction::LoopEnd => {
                let h = tape_head as usize;
                if tape[h] != 0 {
                    let j = program_fragment.jump_table[pc];
                    proof {
                        assert(1 <= j <= code_v.len());
                        let next = MachineV { pc: j as int, ..cur };
                        assert(spec_step(code_v, jt_v, target_v, cur) == StepRes::Step(next));
                        lemma_advance(code_v, jt_v, target_v, m0, steps_g, cur, next);
                        steps_g = steps_g + 1;
                    }
                    pc = j as usize;
                    continue ;
                }
                proof {
                    let next = MachineV { pc: cur.pc + 1, ..cur };
                    assert(spec_step(code_v, jt_v, target_v, cur) == StepRes::Step(next));
                    lemma_advance(code_v, jt_v, target_v, m0, steps_g, cur, next);
                    steps_g = steps_g + 1;
                }
            },
            BfInstruction::Output => {
                let h = tape_head as usize;
                let cell = tape[h];
                if output_ind == target_output.len() {
                    proof {
                        lemma_fail(code_v, jt_v, target_v, m0, steps_g, cur, RunErr::TargetMismatch);
                        assert(outcome_at(code_v, jt_v, target_v, paren, m0, steps_g + 1) == Some(
                            err_outcome(RunErr::TargetMismatch),
                        ));
                        lemma_error_exit_no_repeat(code_v, jt_v, target_v, m0, steps_g, cur, pre_visited);
                    }
                    return BfRunResult::TargetMismatchError;
                }
                if target_output[output_ind] != cell {
                    proof {
                        lemma_fail(code_v, jt_v, target_v, m0, steps_g, cur, RunErr::TargetMismatch);
                        assert(outcome_at(code_v, jt_v, target_v, paren, m0, steps_g + 1) == Some(
                            err_outcome(RunErr::TargetMismatch),
                        ));
                        lemma_error_exit_no_repeat(code_v, jt_v, target_v, m0, steps_g, cur, pre_visited);
                    }
                    return BfRunResult::TargetMismatchError;
                }
                output_ind = output_ind + 1;
                proof {
                    let next = MachineV { out: cur.out + 1, pc: cur.pc + 1, ..cur };
                    assert(spec_step(code_v, jt_v, target_v, cur) == StepRes::Step(next));
                    lemma_advance(code_v, jt_v, target_v, m0, steps_g, cur, next);
                    steps_g = steps_g + 1;
                }
            },
            BfInstruction::Input => {
                proof {
                    lemma_fail(code_v, jt_v, target_v, m0, steps_g, cur, RunErr::InputToken);
                    assert(outcome_at(code_v, jt_v, target_v, paren, m0, steps_g + 1) == Some(
                        err_outcome(RunErr::InputToken),
                    ));
                        lemma_error_exit_no_repeat(code_v, jt_v, target_v, m0, steps_g, cur, pre_visited);
                }
                return BfRunResult::InputTokenError;
            },
        }
        pc = pc + 1;
    }
    let ghost mh = MachineV {
        tape: tape@,
        head: tape_head as int,
        pc: pc as int,
        out: output_ind as int,
    };
    proof {
        assert(run_steps(code_v, jt_v, target_v, m0, steps_g) == RunStatus::Halted(mh));
        lemma_halt_exit_no_repeat(code_v, jt_v, target_v, m0, steps_g);
    }
    let cs = ContinueState {
        program_state: ProgramState { tape, tape_head },
        resume_pc: pc,
        resume_output_ind: output_ind,
    };
    proof {
        assert(cs.mv() == mh);
    }
    if program_fragment.current_paren_count != 0 {
        proof {
            assert(outcome_at(code_v, jt_v, target_v, paren, m0, steps_g) == Some(
                halt_outcome(paren, target_v, mh),
            ));
        }
        return BfRunResult::IncompleteLoopSuccess(cs);
    }
    if output_ind != target_output.len() {
        proof {
            assert(outcome_at(code_v, jt_v, target_v, paren, m0, steps_g) == Some(
                halt_outcome(paren, target_v, mh),
            ));
        }
        BfRunResult::IncompleteOutputSuccess(cs)
    } else {
        proof {
            assert(outcome_at(code_v, jt_v, target_v, paren, m0, steps_g) == Some(
                halt_outcome(paren, target_v, mh),
            ));
        }
        BfRunResult::Success
    }
}

/// Run a seed against a target from its resume point in fast mode: no
/// state history, bounded by a step cap.  When the cap is reached, the
/// run restarts from the resume state in tracking mode, which is the
/// safety net against infinite loops.  The result contract is the same
/// as the tracking mode's; in addition the highest step count reached is
/// recorded in the workspace.
pub fn run_program_fragment_without_states(
    ws: &mut Workspace,
    program_fragment: &RunningProgramInfo,
    target_output: &[u8],
) -> (r: BfRunResult)
    requires
        program_fragment.wf(),
        1 <= program_fragment.width() <= 15,
        program_fragment.continue_state.resume_output_ind <= target_output@.len(),
    ensures
        final(ws).spec_max_steps() >= old(ws).spec_max_steps(),
        final(ws).spec_max_steps() <= (if old(ws).spec_max_steps() > MAX_STEPS {
            old(ws).spec_max_steps()
        } else {
            MAX_STEPS
        }),
        !(r is InfiniteLoopError) ==> program_fragment.run_outcome(target_output@, r.ov()),
        r is InfiniteLoopError <==> ((run_steps(
            program_fragment.code@,
            program_fragment.jump_table@,
            target_output@,
            program_fragment.continue_state.mv(),
            MAX_STEPS as nat,
        ) is Running) && program_fragment.run_repeats(target_output@)),
        r is InfiniteLoopError ==> forall|n: nat|
            n <= MAX_STEPS ==> (#[trigger] outcome_at(
                program_fragment.code@,
                program_fragment.jump_table@,
                target_output@,
                program_fragment.current_paren_count as int,
                program_fragment.continue_state.mv(),
                n,
            )) is None,
        (match r {
            BfRunResult::IncompleteLoopSuccess(cs) | BfRunResult::IncompleteOutputSuccess(cs) => {
                &&& cs.state_wf()
                &&& cs.program_state.tape@.len() == program_fragment.width()
                &&& cs.resume_pc == program_fragment.code@.len()
                &&& cs.resume_output_ind <= target_output@.len()
            },
            _ => true,
        }),
{
    let ghost code_v = program_fragment.code@;
    let ghost jt_v = program_fragment.jump_table@;
    let ghost target_v = target_output@;
    let ghost m0 = program_fragment.continue_state.mv();
    let ghost paren = program_fragment.current_paren_count as int;
    let ghost width = program_fragment.width();

    let mut steps: usize = 0;
    let mut tape: Vec<u8> = program_fragment.continue_state.program_state.tape.clone();
    let mut tape_head: u8 = program_fragment.continue_state.program_state.tape_head;
    let mut pc: usize = program_fragment.continue_state.resume_pc;
    let mut output_ind: usize = program_fragment.continue_state.resume_output_ind;
    let code_size = program_fragment.code.size();
    let ghost mut steps_g: nat = 0;
    proof {
        lemma_build_props(code_v);
    }

    while pc < code_size
        invariant
            program_fragment.wf(),
            code_v == program_fragment.code@,
            jt_v == program_fragment.jump_table@,
            target_v == target_output@,
            paren == program_fragment.current_paren_count as int,
            m0 == program_fragment.continue_state.mv(),
            width == program_fragment.width(),
            1 <= width <= 15,
            code_size == code_v.len(),
            jt_v.len() == code_v.len(),
            tape@.len() == width,
            (tape_head as int) < width,
            output_ind <= target_v.len(),
            program_fragment.continue_state.resume_output_ind <= target_v.len(),
            pc <= code_size,
            steps == steps_g,
            steps <= MAX_STEPS,
            run_steps(code_v, jt_v, target_v, m0, steps_g) == loop_status(
                code_v.len() as int,
                tape@,
                tape_head as int,
                pc as int,
                output_ind as int,
            ),
            ws.spec_max_steps() == old(ws).spec_max_steps(),
        decreases MAX_STEPS - steps,
    {
        steps = steps + 1;
        if steps > MAX_STEPS {
            proof {
                // the run is still going at the step cap, so it settled
                // on no outcome within it
                assert(run_steps(code_v, jt_v, target_v, m0, MAX_STEPS as nat) is Running);
                lemma_running_prefix(code_v, jt_v, target_v, m0, MAX_STEPS as nat);
            }
            // do not record the step count here: this is the fallback to
            // the tracking mode
            return run_program_fragment(ws, program_fragment, target_output);
        }
        proof {
            lemma_build_props(code_v);
        }
        let ghost cur = MachineV {
            tape: tape@,
            head: tape_head as int,
            pc: pc as int,
            out: output_ind as int,
        };
        let instruction = program_fragment.code.get(pc).unwrap();
        proof {
            assert(code_v[pc as int] == instruction);
        }
        match instruction {
            BfInstruction::Inc => {
                let h = tape_head as usize;
                let cell = tape[h];
                tape.set(h, cell.wrapping_add(1));
                proof {
                    let next = MachineV { tape: tape@, pc: cur.pc + 1, ..cur };
                    assert(tape@ == cur.tape.update(cur.head, wrap_inc(cell)));
                    assert(spec_step(code_v, jt_v, target_v, cur) == StepRes::Step(next));
                    lemma_advance(code_v, jt_v, target_v, m0, steps_g, cur, next);
                    steps_g = steps_g + 1;
                }
            },
            BfInstruction::Dec => {
                let h = tape_head as usize;
                let cell = tape[h];
                tape.set(h, cell.wrapping_sub(1));
                proof {
                    let next = MachineV { tape: tape@, pc: cur.pc + 1, ..cur };
                    assert(tape@ == cur.tape.update(cur.head, wrap_dec(cell)));
                    assert(spec_step(code_v, jt_v, target_v, cur) == StepRes::Step(next));
                    lemma_advance(code_v, jt_v, target_v, m0, steps_g, cur, next);
                    steps_g = steps_g + 1;
                }
            },
            BfInstruction::Left => {
                if tape_head == 0 {
                    proof {
                        lemma_fail(code_v, jt_v, target_v, m0, steps_g, cur, RunErr::TapeHeadBound);
                        assert(outcome_at(code_v, jt_v, target_v, paren, m0, steps_g + 1) == Some(
                            err_outcome(RunErr::TapeHeadBound),
                        ));
                        lemma_terminal_absorbing(code_v, jt_v, target_v, m0, steps_g + 1, MAX_STEPS as nat);
                    }
                    self_record_steps(ws, steps);
                    return BfRunResult::TapeHeadBoundError;
                }
                tape_head = tape_head - 1;
                proof {
                    let next = MachineV { head: cur.head - 1, pc: cur.pc + 1, ..cur };
                    assert(spec_step(code_v, jt_v, target_v, cur) == StepRes::Step(next));
                    lemma_advance(code_v, jt_v, target_v, m0, steps_g, cur, next);
                    steps_g = steps_g + 1;
                }
            },
            BfInstruction::Right => {
                if tape_head as usize + 1 == tape.len() {
                    proof {
                        lemma_fail(code_v, jt_v, target_v, m0, steps_g, cur, RunErr::Oom);
                        assert(outcome_at(code_v, jt_v, target_v, paren, m0, steps_g + 1) == Some(
                            err_outcome(RunErr::Oom),
                        ));
                        lemma_terminal_absorbing(code_v, jt_v, target_v, m0, steps_g + 1, MAX_STEPS as nat);
                    }
                    self_record_steps(ws, steps);
                    return BfRunResult::OOMError;
                }
                tape_head = tape_head + 1;
                proof {
                    let next = MachineV { head: cur.head + 1, pc: cur.pc + 1, ..cur };
                    assert(spec_step(code_v, jt_v, target_v, cur) == StepRes::Step(next));
                    lemma_advance(code_v, jt_v, target_v, m0, steps_g, cur, next);
                    steps_g = steps_g + 1;
                }
            },
            BfInstruction::LoopStart => {
                let h = tape_head as usize;
                if tape[h] == 0 {
                    let j = program_fragment.jump_table[pc];
                    if j == -2 {
                        proof {
                            lemma_fail(code_v, jt_v, target_v, m0, steps_g, cur, RunErr::Noop);
                            assert(outcome_at(code_v, jt_v, target_v, paren, m0, steps_g + 1)
                                == Some(err_outcome(RunErr::Noop)));
                        lemma_terminal_absorbing(code_v, jt_v, target_v, m0, steps_g + 1, MAX_STEPS as nat);
                        }
                        self_record_steps(ws, steps);
                        return BfRunResult::NOOPError;
                    }
                    proof {
                        assert(1 <= j <= code_v.len());
                        let next = MachineV { pc: j as int, ..cur };
                        assert(spec_step(code_v, jt_v, target_v, cur) == StepRes::Step(next));
                        lemma_advance(code_v, jt_v, target_v, m0, steps_g, cur, next);
                        steps_g = steps_g + 1;
                    }
                    pc = j as usize;
                    continue ;
                }
                proof {
                    let next = MachineV { pc: cur.pc + 1, ..cur };
                    assert(spec_step(code_v, jt_v, target_v, cur) == StepRes::Step(next));
                    lemma_advance(code_v, jt_v, target_v, m0, steps_g, cur, next);
                    steps_g = steps_g + 1;
                }
            },
            BfInstruction::LoopEnd => {
                let h = tape_head as usize;
                if tape[h] != 0 {
                    let j = program_fragment.jump_table[pc];
                    proof {
                        assert(1 <= j <= code_v.len());
                        let next = MachineV { pc: j as int, ..cur };
                        assert(spec_step(code_v, jt_v, target_v, cur) == StepRes::Step(next));
                        lemma_advance(code_v, jt_v, target_v, m0, steps_g, cur, next);
                        steps_g = steps_g + 1;
                    }
                    pc = j as usize;
                    continue ;
                }
                proof {
                    let next = MachineV { pc: cur.pc + 1, ..cur };
                    assert(spec_step(code_v, jt_v, target_v, cur) == StepRes::Step(next));
                    lemma_advance(code_v, jt_v, target_v, m0, steps_g, cur, next);
                    steps_g = steps_g + 1;
                }
            },
            BfInstruction::Output => {
                let h = tape_head as usize;
                let cell = tape[h];
                if output_ind == target_output.len() {
                    proof {
                        lemma_fail(code_v, jt_v, target_v, m0, steps_g, cur, RunErr::TargetMismatch);
                        assert(outcome_at(code_v, jt_v, target_v, paren, m0, steps_g + 1) == Some(
                            err_outcome(RunErr::TargetMismatch),
                        ));
                        lemma_terminal_absorbing(code_v, jt_v, target_v, m0, steps_g + 1, MAX_STEPS as nat);
                    }
                    self_record_steps(ws, steps);
                    return BfRunResult::TargetMismatchError;
                }
                if target_output[output_ind] != cell {
                    proof {
                        lemma_fail(code_v, jt_v, target_v, m0, steps_g, cur, RunErr::TargetMismatch);
                        assert(outcome_at(code_v, jt_v, target_v, paren, m0, steps_g + 1) == Some(
                            err_outcome(RunErr::TargetMismatch),
                        ));
                        lemma_terminal_absorbing(code_v, jt_v, target_v, m0, steps_g + 1, MAX_STEPS as nat);
                    }
                    self_record_steps(ws, steps);
                    return BfRunResult::TargetMismatchError;
                }
                output_ind = output_ind + 1;
                proof {
                    let next = MachineV { out: cur.out + 1, pc: cur.pc + 1, ..cur };
                    assert(spec_step(code_v, jt_v, target_v, cur) == StepRes::Step(next));
                    lemma_advance(code_v, jt_v, target_v, m0, steps_g, cur, next);
                    steps_g = steps_g + 1;
                }
            },
            BfInstruction::Input => {
                proof {
                    lemma_fail(code_v, jt_v, target_v, m0, steps_g, cur, RunErr::InputToken);
                    assert(outcome_at(code_v, jt_v, target_v, paren, m0, steps_g + 1) == Some(
                        err_outcome(RunErr::InputToken),
                    ));
                        lemma_terminal_absorbing(code_v, jt_v, target_v, m0, steps_g + 1, MAX_STEPS as nat);
                }
                self_record_steps(ws, steps);
                return BfRunResult::InputTokenError;
            },
        }
        pc = pc + 1;
    }
    let ghost mh = MachineV {
        tape: tape@,
        head: tape_head as int,
        pc: pc as int,
        out: output_ind as int,
    };
    proof {
        assert(run_steps(code_v, jt_v, target_v, m0, steps_g) == RunStatus::Halted(mh));
        assert(outcome_at(code_v, jt_v, target_v, paren, m0, steps_g) == Some(
            halt_outcome(paren, target_v, mh),
        ));
        lemma_terminal_absorbing(code_v, jt_v, target_v, m0, steps_g, MAX_STEPS as nat);
    }
    let cs = ContinueState {
        program_state: ProgramState { tape, tape_head },
        resume_pc: pc,
        resume_output_ind: output_ind,
    };
    proof {
        assert(cs.mv() == mh);
    }
    let result = if program_fragment.current_paren_count != 0 {
        BfRunResult::IncompleteLoopSuccess(cs)
    } else if output_ind != target_output.len() {
        BfRunResult::IncompleteOutputSuccess(cs)
    } else {
        BfRunResult::Success
    };
    self_record_steps(ws, steps);
    result
}

/// What one step of the plain interpreter did.
#[derive(Debug, Clone, Copy, PartialEq, Eq, Structural)]
pub enum PlainStepOutcome {
    /// An ordinary instruction was executed.
    Continued,
    /// An output instruction emitted this byte.
    Emitted(u8),
    /// The instruction is an input token and no byte was supplied; the
    /// state is unchanged.
    NeedsInput,
    /// The program counter is past the code: the program halted.
    Halted,
    /// A left move at cell zero.
    HeadBound,
    /// A right move at the far edge of the tape.
    OutOfTape,
}

/// One step of the plain interpreter, for running a closed program
/// against live input and output rather than a search target.  The
/// caller performs the input and output the outcome asks for and calls
/// again.
pub fn plain_step(info: &RunningProgramInfo, state: &mut ContinueState, input: Option<u8>) -> (r:
    PlainStepOutcome)
    requires
        info.wf(),
        unm_stack(info.code@).len() == 0,
        old(state).state_wf(),
        old(state).program_state.tape@.len() <= 256,
        old(state).resume_pc <= info.code@.len(),
    ensures
        final(state).state_wf(),
        final(state).resume_pc <= info.code@.len(),
        final(state).program_state.tape@.len() == old(state).program_state.tape@.len(),
        ({
            let len = info.code@.len() as int;
            let m = old(state).mv();
            let m2 = final(state).mv();
            if m.pc >= len {
                r == PlainStepOutcome::Halted && m2 == m
            } else {
                match info.code@[m.pc] {
                    BfInstruction::Inc => r == PlainStepOutcome::Continued && m2.tape
                        == m.tape.update(m.head, wrap_inc(m.tape[m.head])) && m2.head == m.head
                        && m2.pc == m.pc + 1,
                    BfInstruction::Dec => r == PlainStepOutcome::Continued && m2.tape
                        == m.tape.update(m.head, wrap_dec(m.tape[m.head])) && m2.head == m.head
                        && m2.pc == m.pc + 1,
                    BfInstruction::Left => if m.head == 0 {
                        r == PlainStepOutcome::HeadBound && m2 == m
                    } else {
                        r == PlainStepOutcome::Continued && m2.tape == m.tape && m2.head == m.head
                            - 1 && m2.pc == m.pc + 1
                    },
                    BfInstruction::Right => if m.head + 1 == m.tape.len() {
                        r == PlainStepOutcome::OutOfTape && m2 == m
                    } else {
                        r == PlainStepOutcome::Continued && m2.tape == m.tape && m2.head == m.head
                            + 1 && m2.pc == m.pc + 1
                    },
                    BfInstruction::LoopStart => r == PlainStepOutcome::Continued && m2.tape
                        == m.tape && m2.head == m.head && m2.pc == (if m.tape[m.head] == 0 {
                        info.jump_table@[m.pc] as int
                    } else {
                        m.pc + 1
                    }),
                    BfInstruction::LoopEnd => r == PlainStepOutcome::Continued && m2.tape == m.tape
                        && m2.head == m.head && m2.pc == (if m.tape[m.head] != 0 {
                        info.jump_table@[m.pc] as int
                    } else {
                        m.pc + 1
                    }),
                    BfInstruction::Output => r == PlainStepOutcome::Emitted(m.tape[m.head])
                        && m2.tape == m.tape && m2.head == m.head && m2.pc == m.pc + 1,
                    BfInstruction::Input => match input {
                        Some(b) => r == PlainStepOutcome::Continued && m2.tape == m.tape.update(
                            m.head,
                            b,
                        ) && m2.head == m.head && m2.pc == m.pc + 1,
                        None => r == PlainStepOutcome::NeedsInput && m2 == m,
                    },
                }
            }
        }),
{
    proof {
        lemma_build_props(info.code@);
    }
    let pc = state.resume_pc;
    if pc >= info.code.size() {
        return PlainStepOutcome::Halted;
    }
    let h = state.program_state.tape_head as usize;
    let instruction = info.code.get(pc).unwrap();
    match instruction {
        BfInstruction::Inc => {
            let cell = state.program_state.tape[h];
            state.program_state.tape.set(h, cell.wrapping_add(1));
            state.resume_pc = pc + 1;
            PlainStepOutcome::Continued
        },
        BfInstruction::Dec => {
            let cell = state.program_state.tape[h];
            state.program_state.tape.set(h, cell.wrapping_sub(1));
            state.resume_pc = pc + 1;
            PlainStepOutcome::Continued
        },
        BfInstruction::Left => {
            if state.program_state.tape_head == 0 {
                PlainStepOutcome::HeadBound
            } else {
                state.program_state.tape_head = state.program_state.tape_head - 1;
                state.resume_pc = pc + 1;
                PlainStepOutcome::Continued
            }
        },
        BfInstruction::Right => {
            if h + 1 == state.program_state.tape.len() {
                PlainStepOutcome::OutOfTape
            } else {
                state.program_state.tape_head = state.program_state.tape_head + 1;
                state.resume_pc = pc + 1;
                PlainStepOutcome::Continued
            }
        },
        BfInstruction::LoopStart => {
            let cell = state.program_state.tape[h];
            if cell == 0 {
                let j = info.jump_table[pc];
                proof {
                    if info.jump_table@[pc as int] == -2 {
                        assert(crate::brackets::unmatched_open(info.code@, pc as int));
                        assert(unm_stack(info.code@).contains(pc as int));
                    }
                    assert(1 <= j <= info.code@.len());
                }
                state.resume_pc = j as usize;
            } else {
                state.resume_pc = pc + 1;
            }
            PlainStepOutcome::Continued
        },
        BfInstruction::LoopEnd => {
            let cell = state.program_state.tape[h];
            if cell != 0 {
                let j = info.jump_table[pc];
                proof {
                    assert(1 <= j <= info.code@.len());
                }
                state.resume_pc = j as usize;
            } else {
                state.resume_pc = pc + 1;
            }
            PlainStepOutcome::Continued
        },
        BfInstruction::Output => {
            let cell = state.program_state.tape[h];
            state.resume_pc = pc + 1;
            PlainStepOutcome::Emitted(cell)
        },
        BfInstruction::Input => {
            match input {
                Some(b) => {
                    state.program_state.tape.set(h, b);
                    state.resume_pc = pc + 1;
                    PlainStepOutcome::Continued
                },
                None => PlainStepOutcome::NeedsInput,
            }
        },
    }
}

/// Record in the workspace the step count one fast run reached.
fn self_record_steps(ws: &mut Workspace, steps: usize)
    ensures
        final(ws).spec_max_steps() == if steps > old(ws).spec_max_steps() {
            steps
        } else {
            old(ws).spec_max_steps()
        },
{
    if steps > ws.max_steps {
        ws.max_steps = steps;
    }
}

} // verus!
