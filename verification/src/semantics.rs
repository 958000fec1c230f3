//! Step-by-step meaning of a program run against a target byte sequence:
//! a mathematical machine state, one deterministic step, and the status of
//! a run after a bounded number of steps.  The lemmas here give the facts
//! every interpreter contract rests on: a finished run keeps its outcome
//! under a larger step budget, runs compose, and a run that halts never
//! revisits a (program counter, tape, head) configuration.

use vstd::prelude::*;
use crate::data::BfInstruction;

verus! {

/// A machine state, mathematically: tape contents, head position,
/// program counter and output cursor.
pub struct MachineV {
    pub tape: Seq<u8>,
    pub head: int,
    pub pc: int,
    pub out: int,
}

/// The error classifications a run can stop with.
#[derive(PartialEq, Eq, Structural)]
pub enum RunErr {
    Noop,
    TargetMismatch,
    TapeHeadBound,
    Oom,
    InputToken,
}

/// Result of one step: the next state, or an error stop.
pub enum StepRes {
    Step(MachineV),
    Fail(RunErr),
}

/// Status of a run after a step budget: still running, halted at the end
/// of the code, or stopped with an error.
pub enum RunStatus {
    Running(MachineV),
    Halted(MachineV),
    Failed(RunErr),
}

pub open spec fn wrap_inc(b: u8) -> u8 {
    if b == 255 {
        0
    } else {
        (b + 1) as u8
    }
}

pub open spec fn wrap_dec(b: u8) -> u8 {
    if b == 0 {
        255
    } else {
        (b - 1) as u8
    }
}

/// One deterministic step of the machine at `m.pc`.
pub open spec fn spec_step(
    code: Seq<BfInstruction>,
    jt: Seq<i64>,
    target: Seq<u8>,
    m: MachineV,
) -> StepRes
    recommends
        0 <= m.pc < code.len(),
{
    match code[m.pc] {
        BfInstruction::Inc => StepRes::Step(
            MachineV { tape: m.tape.update(m.head, wrap_inc(m.tape[m.head])), pc: m.pc + 1, ..m },
        ),
        BfInstruction::Dec => StepRes::Step(
            MachineV { tape: m.tape.update(m.head, wrap_dec(m.tape[m.head])), pc: m.pc + 1, ..m },
        ),
        BfInstruction::Left => {
            if m.head == 0 {
                StepRes::Fail(RunErr::TapeHeadBound)
            } else {
                StepRes::Step(MachineV { head: m.head - 1, pc: m.pc + 1, ..m })
            }
        },
        BfInstruction::Right => {
            if m.head + 1 == m.tape.len() {
                StepRes::Fail(RunErr::Oom)
            } else {
                StepRes::Step(MachineV { head: m.head + 1, pc: m.pc + 1, ..m })
            }
        },
        BfInstruction::LoopStart => {
            if m.tape[m.head] == 0 {
                if jt[m.pc] == -2 {
                    StepRes::Fail(RunErr::Noop)
                } else {
                    StepRes::Step(MachineV { pc: jt[m.pc] as int, ..m })
                }
            } else {
                StepRes::Step(MachineV { pc: m.pc + 1, ..m })
            }
        },
        BfInstruction::LoopEnd => {
            if m.tape[m.head] != 0 {
                StepRes::Step(MachineV { pc: jt[m.pc] as int, ..m })
            } else {
                StepRes::Step(MachineV { pc: m.pc + 1, ..m })
            }
        },
        BfInstruction::Output => {
            if m.out >= target.len() || target[m.out] != m.tape[m.head] {
                StepRes::Fail(RunErr::TargetMismatch)
            } else {
                StepRes::Step(MachineV { out: m.out + 1, pc: m.pc + 1, ..m })
            }
        },
        BfInstruction::Input => StepRes::Fail(RunErr::InputToken),
    }
}

/// The status of the run from `m` after at most `n` steps.  Once the run
/// halts or fails, the status no longer changes.
pub open spec fn run_steps(
    code: Seq<BfInstruction>,
    jt: Seq<i64>,
    target: Seq<u8>,
    m: MachineV,
    n: nat,
) -> RunStatus
    decreases n,
{
    if m.pc < 0 || m.pc >= code.len() {
        RunStatus::Halted(m)
    } else if n == 0 {
        RunStatus::Running(m)
    } else {
        match spec_step(code, jt, target, m) {
            StepRes::Step(m2) => run_steps(code, jt, target, m2, (n - 1) as nat),
            StepRes::Fail(e) => RunStatus::Failed(e),
        }
    }
}

/// Two states agree on everything the control flow can see: tape, head
/// and program counter (the output cursor may differ).
pub open spec fn pure_eq(m1: MachineV, m2: MachineV) -> bool {
    m1.tape == m2.tape && m1.head == m2.head && m1.pc == m2.pc
}

/// The run revisits a (program counter, tape, head) configuration.
pub open spec fn has_state_repeat(
    code: Seq<BfInstruction>,
    jt: Seq<i64>,
    target: Seq<u8>,
    m0: MachineV,
) -> bool {
    exists|n1: nat, n2: nat, m1: MachineV, m2: MachineV|
        n1 < n2 && run_steps(code, jt, target, m0, n1) == RunStatus::Running(m1) && run_steps(
            code,
            jt,
            target,
            m0,
            n2,
        ) == RunStatus::Running(m2) && pure_eq(m1, m2)
}

/// A running status always carries an in-range program counter.
pub proof fn lemma_running_in_range(
    code: Seq<BfInstruction>,
    jt: Seq<i64>,
    target: Seq<u8>,
    m: MachineV,
    n: nat,
    mr: MachineV,
)
    requires
        run_steps(code, jt, target, m, n) == RunStatus::Running(mr),
    ensures
        0 <= mr.pc < code.len(),
    decreases n,
{
    if m.pc < 0 || m.pc >= code.len() {
    } else if n == 0 {
    } else {
        match spec_step(code, jt, target, m) {
            StepRes::Step(m2) => {
                lemma_running_in_range(code, jt, target, m2, (n - 1) as nat, mr);
            },
            StepRes::Fail(e) => {},
        }
    }
}

/// A run still running at some budget was running at every smaller one.
pub proof fn lemma_running_prefix(
    code: Seq<BfInstruction>,
    jt: Seq<i64>,
    target: Seq<u8>,
    m: MachineV,
    n: nat,
)
    requires
        run_steps(code, jt, target, m, n) is Running,
    ensures
        forall|k: nat| k <= n ==> #[trigger] run_steps(code, jt, target, m, k) is Running,
{
    assert forall|k: nat| k <= n implies #[trigger] run_steps(code, jt, target, m, k)
        is Running by {
        if !(run_steps(code, jt, target, m, k) is Running) {
            lemma_terminal_absorbing(code, jt, target, m, k, n);
        }
    }
}

/// A halted or failed status persists under a larger budget.
pub proof fn lemma_terminal_absorbing(
    code: Seq<BfInstruction>,
    jt: Seq<i64>,
    target: Seq<u8>,
    m: MachineV,
    n1: nat,
    n2: nat,
)
    requires
        n1 <= n2,
        !(run_steps(code, jt, target, m, n1) is Running),
    ensures
        run_steps(code, jt, target, m, n2) == run_steps(code, jt, target, m, n1),
    decreases n1,
{
    if m.pc < 0 || m.pc >= code.len() {
    } else {
        match spec_step(code, jt, target, m) {
            StepRes::Step(m2) => {
                lemma_terminal_absorbing(code, jt, target, m2, (n1 - 1) as nat, (n2 - 1) as nat);
            },
            StepRes::Fail(e) => {},
        }
    }
}

/// Running for `a + b` steps is running for `a`, then for `b` more.
pub proof fn lemma_run_compose(
    code: Seq<BfInstruction>,
    jt: Seq<i64>,
    target: Seq<u8>,
    m: MachineV,
    a: nat,
    b: nat,
    m1: MachineV,
)
    requires
        run_steps(code, jt, target, m, a) == RunStatus::Running(m1),
    ensures
        run_steps(code, jt, target, m, a + b) == run_steps(code, jt, target, m1, b),
    decreases a,
{
    if a == 0 {
    } else {
        match spec_step(code, jt, target, m) {
            StepRes::Step(m2) => {
                lemma_run_compose(code, jt, target, m2, (a - 1) as nat, b, m1);
            },
            StepRes::Fail(e) => {},
        }
    }
}

/// A run that halts has a first halting budget: running before it, halted
/// at and after it.
pub proof fn lemma_first_halt(
    code: Seq<BfInstruction>,
    jt: Seq<i64>,
    target: Seq<u8>,
    m: MachineV,
    n: nat,
    mh: MachineV,
) -> (h: nat)
    requires
        run_steps(code, jt, target, m, n) == RunStatus::Halted(mh),
    ensures
        h <= n,
        run_steps(code, jt, target, m, h) == RunStatus::Halted(mh),
        forall|k: nat| k < h ==> #[trigger] run_steps(code, jt, target, m, k) is Running,
    decreases n,
{
    if m.pc < 0 || m.pc >= code.len() {
        0
    } else {
        match spec_step(code, jt, target, m) {
            StepRes::Step(m2) => {
                let h2 = lemma_first_halt(code, jt, target, m2, (n - 1) as nat, mh);
                let h: nat = h2 + 1;
                assert forall|k: nat| k < h implies #[trigger] run_steps(
                    code,
                    jt,
                    target,
                    m,
                    k,
                ) is Running by {
                    if k > 0 {
                        assert(run_steps(code, jt, target, m, k) == run_steps(
                            code,
                            jt,
                            target,
                            m2,
                            (k - 1) as nat,
                        ));
                    }
                }
                h
            },
            StepRes::Fail(e) => {
                assert(false);
                0
            },
        }
    }
}

/// The control flow of one step depends only on tape, head and program
/// counter: two steps from control-equal states either both succeed into
/// control-equal states, or the step of a run that is known to continue
/// forces the other to continue as well (unless the instruction is an
/// output, whose failure may depend on the output cursor).
pub proof fn lemma_step_pure(
    code: Seq<BfInstruction>,
    jt: Seq<i64>,
    target: Seq<u8>,
    m1: MachineV,
    m2: MachineV,
)
    requires
        pure_eq(m1, m2),
        0 <= m1.pc < code.len(),
        spec_step(code, jt, target, m1) is Step,
        spec_step(code, jt, target, m2) is Step,
    ensures
        pure_eq(spec_step(code, jt, target, m1)->Step_0, spec_step(code, jt, target, m2)->Step_0),
{
}

/// From a running state whose successor is still running, one step of the
/// spec run reaches exactly that successor.
proof fn lemma_step_of_trace(
    code: Seq<BfInstruction>,
    jt: Seq<i64>,
    target: Seq<u8>,
    m0: MachineV,
    a: nat,
    s: MachineV,
    s2: MachineV,
)
    requires
        run_steps(code, jt, target, m0, a) == RunStatus::Running(s),
        run_steps(code, jt, target, m0, a + 1) == RunStatus::Running(s2),
    ensures
        spec_step(code, jt, target, s) == StepRes::Step(s2),
        0 <= s2.pc < code.len(),
{
    lemma_running_in_range(code, jt, target, m0, a, s);
    lemma_running_in_range(code, jt, target, m0, a + 1, s2);
    lemma_run_compose(code, jt, target, m0, a, 1, s);
    assert(run_steps(code, jt, target, m0, a + 1) == run_steps(code, jt, target, s, 1));
    match spec_step(code, jt, target, s) {
        StepRes::Step(m2) => {
            assert(run_steps(code, jt, target, s, 1) == run_steps(code, jt, target, m2, 0));
        },
        StepRes::Fail(e) => {
            assert(run_steps(code, jt, target, s, 1) == RunStatus::Failed(e));
        },
    }
}

/// On a halting trace, two distinct points before the first halting
/// budget can never be control-equal: replaying the later point's suffix
/// from the earlier point would halt the run too early.
proof fn lemma_trace_points_differ(
    code: Seq<BfInstruction>,
    jt: Seq<i64>,
    target: Seq<u8>,
    m0: MachineV,
    h: nat,
    mh: MachineV,
    a: nat,
    b: nat,
    s1: MachineV,
    s2: MachineV,
)
    requires
        run_steps(code, jt, target, m0, h) == RunStatus::Halted(mh),
        forall|k: nat| k < h ==> #[trigger] run_steps(code, jt, target, m0, k) is Running,
        a < b,
        b <= h - 1,
        run_steps(code, jt, target, m0, a) == RunStatus::Running(s1),
        run_steps(code, jt, target, m0, b) == RunStatus::Running(s2),
    ensures
        !pure_eq(s1, s2),
    decreases h - b,
{
    if pure_eq(s1, s2) {
        lemma_running_in_range(code, jt, target, m0, a, s1);
        lemma_running_in_range(code, jt, target, m0, b, s2);
        if b == h - 1 {
            // the next step of the run halts; the earlier twin must halt too
            lemma_run_compose(code, jt, target, m0, b, 1, s2);
            assert(run_steps(code, jt, target, m0, b + 1) == run_steps(code, jt, target, s2, 1));
            assert(run_steps(code, jt, target, m0, h) == RunStatus::Halted(mh));
            let mn = match spec_step(code, jt, target, s2) {
                StepRes::Step(mn) => {
                    assert(run_steps(code, jt, target, s2, 1) == run_steps(code, jt, target, mn, 0));
                    mn
                },
                StepRes::Fail(e) => {
                    assert(run_steps(code, jt, target, s2, 1) == RunStatus::Failed(e));
                    assert(false);
                    s2
                },
            };
            assert(run_steps(code, jt, target, mn, 0) == RunStatus::Halted(mh));
            assert(mn.pc < 0 || mn.pc >= code.len());
            // meanwhile the earlier point continues running
            assert(a + 1 < h);
            assert(run_steps(code, jt, target, m0, a + 1) is Running);
            let s1n = run_steps(code, jt, target, m0, a + 1)->Running_0;
            lemma_step_of_trace(code, jt, target, m0, a, s1, s1n);
            lemma_step_pure(code, jt, target, s1, s2);
            assert(pure_eq(s1n, mn));
            assert(false);
        } else {
            assert(a + 1 < h);
            assert(b + 1 < h);
            assert(run_steps(code, jt, target, m0, a + 1) is Running);
            assert(run_steps(code, jt, target, m0, b + 1) is Running);
            let s1n = run_steps(code, jt, target, m0, a + 1)->Running_0;
            let s2n = run_steps(code, jt, target, m0, b + 1)->Running_0;
            lemma_step_of_trace(code, jt, target, m0, a, s1, s1n);
            lemma_step_of_trace(code, jt, target, m0, b, s2, s2n);
            lemma_step_pure(code, jt, target, s1, s2);
            lemma_trace_points_differ(code, jt, target, m0, h, mh, a + 1, b + 1, s1n, s2n);
        }
    }
}

/// A run that halts never revisits a (program counter, tape, head)
/// configuration: state recurrence is sufficient proof of non-halting.
pub proof fn lemma_halting_no_repeat(
    code: Seq<BfInstruction>,
    jt: Seq<i64>,
    target: Seq<u8>,
    m0: MachineV,
    n: nat,
    mh: MachineV,
)
    requires
        run_steps(code, jt, target, m0, n) == RunStatus::Halted(mh),
    ensures
        !has_state_repeat(code, jt, target, m0),
{
    if has_state_repeat(code, jt, target, m0) {
        let (n1, n2, m1, m2) = choose|n1: nat, n2: nat, m1: MachineV, m2: MachineV|
            n1 < n2 && run_steps(code, jt, target, m0, n1) == RunStatus::Running(m1) && run_steps(
                code,
                jt,
                target,
                m0,
                n2,
            ) == RunStatus::Running(m2) && pure_eq(m1, m2);
        let h = lemma_first_halt(code, jt, target, m0, n, mh);
        if n2 >= h {
            lemma_terminal_absorbing(code, jt, target, m0, h, n2);
            assert(false);
        }
        assert(n2 <= h - 1);
        lemma_trace_points_differ(code, jt, target, m0, h, mh, n1, n2, m1, m2);
    }
}

/// One successful step extends a running prefix of the run.
pub proof fn lemma_advance(
    code: Seq<BfInstruction>,
    jt: Seq<i64>,
    target: Seq<u8>,
    m0: MachineV,
    steps: nat,
    cur: MachineV,
    next: MachineV,
)
    requires
        run_steps(code, jt, target, m0, steps) == RunStatus::Running(cur),
        spec_step(code, jt, target, cur) == StepRes::Step(next),
    ensures
        run_steps(code, jt, target, m0, steps + 1) == if next.pc < 0 || next.pc >= code.len() {
            RunStatus::Halted(next)
        } else {
            RunStatus::Running(next)
        },
{
    lemma_running_in_range(code, jt, target, m0, steps, cur);
    lemma_run_compose(code, jt, target, m0, steps, 1, cur);
    assert(run_steps(code, jt, target, cur, 1) == run_steps(code, jt, target, next, 0));
}

/// One failing step ends the run with that error.
pub proof fn lemma_fail(
    code: Seq<BfInstruction>,
    jt: Seq<i64>,
    target: Seq<u8>,
    m0: MachineV,
    steps: nat,
    cur: MachineV,
    e: RunErr,
)
    requires
        run_steps(code, jt, target, m0, steps) == RunStatus::Running(cur),
        spec_step(code, jt, target, cur) == StepRes::Fail(e),
    ensures
        run_steps(code, jt, target, m0, steps + 1) == RunStatus::Failed(e),
{
    lemma_running_in_range(code, jt, target, m0, steps, cur);
    lemma_run_compose(code, jt, target, m0, steps, 1, cur);
}

/// Every jump entry a run can read stays inside the code.
pub open spec fn jumps_bounded(code: Seq<BfInstruction>, jt: Seq<i64>) -> bool {
    &&& forall|i: int|
        0 <= i < code.len() && code[i] is LoopEnd ==> 1 <= #[trigger] jt[i] <= code.len()
    &&& forall|i: int|
        0 <= i < code.len() && code[i] is LoopStart ==> #[trigger] jt[i] == -2 || 1 <= jt[i]
            <= code.len()
}

/// Extending a halted run's program by appended instructions replays the
/// same steps: the old halting state is reached, still running, in the
/// longer program.  The extension may fill in `-2` entries of open
/// brackets; everything else of the jump table stays.
pub proof fn lemma_run_extend(
    code1: Seq<BfInstruction>,
    jt1: Seq<i64>,
    code2: Seq<BfInstruction>,
    jt2: Seq<i64>,
    target: Seq<u8>,
    m0: MachineV,
    n: nat,
    mh: MachineV,
)
    requires
        code1.len() <= code2.len(),
        forall|i: int| 0 <= i < code1.len() ==> code2[i] == code1[i],
        forall|i: int|
            0 <= i < code1.len() ==> #[trigger] jt2[i] == jt1[i] || (code1[i] is LoopStart
                && jt1[i] == -2),
        jumps_bounded(code1, jt1),
        m0.pc >= 0,
        run_steps(code1, jt1, target, m0, n) == RunStatus::Halted(mh),
        mh.pc < code2.len(),
    ensures
        exists|h: nat|
            h <= n && #[trigger] run_steps(code2, jt2, target, m0, h) == RunStatus::Running(mh),
    decreases n,
{
    if m0.pc >= code1.len() {
        assert(mh == m0);
        assert(run_steps(code2, jt2, target, m0, 0) == RunStatus::Running(mh));
    } else {
        assert(n >= 1);
        match spec_step(code1, jt1, target, m0) {
            StepRes::Step(m1) => {
                assert(spec_step(code2, jt2, target, m0) == StepRes::Step(m1)) by {
                    if code1[m0.pc] is LoopStart && m0.tape[m0.head] == 0 {
                        assert(jt1[m0.pc] != -2);
                        assert(jt2[m0.pc] == jt1[m0.pc]);
                    }
                }
                assert(m1.pc >= 0) by {
                    if code1[m0.pc] is LoopStart && m0.tape[m0.head] == 0 {
                        assert(jt1[m0.pc] >= 1);
                    } else if code1[m0.pc] is LoopEnd && m0.tape[m0.head] != 0 {
                        assert(jt1[m0.pc] >= 1);
                    }
                }
                assert(run_steps(code1, jt1, target, m1, (n - 1) as nat) == RunStatus::Halted(mh));
                lemma_run_extend(code1, jt1, code2, jt2, target, m1, (n - 1) as nat, mh);
                let h1 = choose|h: nat|
                    h <= n - 1 && #[trigger] run_steps(code2, jt2, target, m1, h)
                        == RunStatus::Running(mh);
                assert(run_steps(code2, jt2, target, m0, h1 + 1) == run_steps(
                    code2,
                    jt2,
                    target,
                    m1,
                    h1,
                ));
            },
            StepRes::Fail(e) => {
                assert(false);
            },
        }
    }
}

/// Extending a program whose run stops with an error other than the
/// unmatched-opener stop replays the same steps to the same error: such
/// a stop depends only on the state and on jump entries the extension
/// cannot change.
pub proof fn lemma_run_extend_failed(
    code1: Seq<BfInstruction>,
    jt1: Seq<i64>,
    code2: Seq<BfInstruction>,
    jt2: Seq<i64>,
    target: Seq<u8>,
    m0: MachineV,
    n: nat,
    e: RunErr,
)
    requires
        code1.len() <= code2.len(),
        forall|i: int| 0 <= i < code1.len() ==> code2[i] == code1[i],
        forall|i: int|
            0 <= i < code1.len() ==> #[trigger] jt2[i] == jt1[i] || (code1[i] is LoopStart
                && jt1[i] == -2),
        jumps_bounded(code1, jt1),
        m0.pc >= 0,
        run_steps(code1, jt1, target, m0, n) == RunStatus::Failed(e),
        !(e is Noop),
    ensures
        run_steps(code2, jt2, target, m0, n) == RunStatus::Failed(e),
    decreases n,
{
    if m0.pc >= code1.len() {
        assert(false);
    } else {
        assert(n >= 1);
        match spec_step(code1, jt1, target, m0) {
            StepRes::Step(m1) => {
                assert(spec_step(code2, jt2, target, m0) == StepRes::Step(m1)) by {
                    if code1[m0.pc] is LoopStart && m0.tape[m0.head] == 0 {
                        assert(jt1[m0.pc] != -2);
                        assert(jt2[m0.pc] == jt1[m0.pc]);
                    }
                }
                assert(m1.pc >= 0) by {
                    if code1[m0.pc] is LoopStart && m0.tape[m0.head] == 0 {
                        assert(jt1[m0.pc] >= 1);
                    } else if code1[m0.pc] is LoopEnd && m0.tape[m0.head] != 0 {
                        assert(jt1[m0.pc] >= 1);
                    }
                }
                assert(run_steps(code1, jt1, target, m1, (n - 1) as nat) == RunStatus::Failed(e));
                lemma_run_extend_failed(code1, jt1, code2, jt2, target, m1, (n - 1) as nat, e);
            },
            StepRes::Fail(e1) => {
                assert(e1 == e);
                assert(spec_step(code2, jt2, target, m0) == StepRes::Fail(e)) by {
                    assert(!(code1[m0.pc] is LoopStart));
                }
            },
        }
    }
}

/// Over a jump table with no `-2` entry, no run stops on the
/// unmatched-opener error.
pub proof fn lemma_no_noop_without_open_entries(
    code: Seq<BfInstruction>,
    jt: Seq<i64>,
    target: Seq<u8>,
    m: MachineV,
    n: nat,
)
    requires
        forall|i: int| 0 <= i < code.len() ==> #[trigger] jt[i] != -2,
    ensures
        run_steps(code, jt, target, m, n) != RunStatus::Failed(RunErr::Noop),
    decreases n,
{
    if m.pc < 0 || m.pc >= code.len() {
    } else if n == 0 {
    } else {
        match spec_step(code, jt, target, m) {
            StepRes::Step(m2) => {
                lemma_no_noop_without_open_entries(code, jt, target, m2, (n - 1) as nat);
            },
            StepRes::Fail(e) => {
                assert(!(e is Noop));
            },
        }
    }
}

/// A program extended past a run that is still going replays that run
/// exactly, step for step, when the jump entries of the prefix are
/// unchanged.
pub proof fn lemma_run_extend_running(
    code1: Seq<BfInstruction>,
    jt1: Seq<i64>,
    code2: Seq<BfInstruction>,
    jt2: Seq<i64>,
    target: Seq<u8>,
    m0: MachineV,
    n: nat,
)
    requires
        code1.len() <= code2.len(),
        forall|i: int| 0 <= i < code1.len() ==> code2[i] == code1[i],
        forall|i: int| 0 <= i < code1.len() ==> #[trigger] jt2[i] == jt1[i],
        run_steps(code1, jt1, target, m0, n) is Running,
    ensures
        run_steps(code2, jt2, target, m0, n) == run_steps(code1, jt1, target, m0, n),
    decreases n,
{
    if m0.pc < 0 || m0.pc >= code1.len() {
        assert(false);
    } else if n == 0 {
    } else {
        match spec_step(code1, jt1, target, m0) {
            StepRes::Step(m1) => {
                assert(spec_step(code2, jt2, target, m0) == StepRes::Step(m1));
                lemma_run_extend_running(code1, jt1, code2, jt2, target, m1, (n - 1) as nat);
            },
            StepRes::Fail(e) => {
                assert(false);
            },
        }
    }
}

/// The outcome of a run is unique: any two terminal statuses agree.
pub proof fn lemma_outcome_unique(
    code: Seq<BfInstruction>,
    jt: Seq<i64>,
    target: Seq<u8>,
    m: MachineV,
    n1: nat,
    n2: nat,
)
    requires
        !(run_steps(code, jt, target, m, n1) is Running),
        !(run_steps(code, jt, target, m, n2) is Running),
    ensures
        run_steps(code, jt, target, m, n1) == run_steps(code, jt, target, m, n2),
{
    if n1 <= n2 {
        lemma_terminal_absorbing(code, jt, target, m, n1, n2);
    } else {
        lemma_terminal_absorbing(code, jt, target, m, n2, n1);
    }
}

} // verus!
