//! The on-disk record format of a seed: code bytes (one per instruction),
//! jump table entries as little-endian 64-bit words, tape, head, program
//! counter, output cursor and open-bracket count.  Records have no
//! delimiter; their length follows from the program size and tape width.
//! Decoding validates everything it reads and rebuilds the jump table
//! from the code, so whatever it returns is a well-formed seed whose
//! encoding is exactly the bytes consumed.

use vstd::prelude::*;
use crate::data::{BfInstruction, CompressedBF, instr_value};
use crate::brackets::{prefix_ok, jt_build, unm_stack};
use crate::run::{ProgramState, ContinueState, RunningProgramInfo};
use crate::util::{build_jump_table, has_close_violation};

verus! {

/// The eight little-endian bytes of a 64-bit word.
pub open spec fn le64(x: u64) -> Seq<u8> {
    seq![
        x as u8,
        (x >> 8) as u8,
        (x >> 16) as u8,
        (x >> 24) as u8,
        (x >> 32) as u8,
        (x >> 40) as u8,
        (x >> 48) as u8,
        (x >> 56) as u8,
    ]
}

/// Each instruction as its ordinal byte.
pub open spec fn code_bytes(code: Seq<BfInstruction>) -> Seq<u8> {
    Seq::new(code.len(), |i: int| instr_value(code[i]))
}

/// The jump table flattened to little-endian words.
pub open spec fn jt_bytes(jt: Seq<i64>) -> Seq<u8>
    decreases jt.len(),
{
    if jt.len() == 0 {
        Seq::empty()
    } else {
        jt_bytes(jt.drop_last()) + le64(jt.last() as u64)
    }
}

/// The full record of one seed.
pub open spec fn seed_bytes(info: RunningProgramInfo) -> Seq<u8> {
    code_bytes(info.code@) + jt_bytes(info.jump_table@) + info.continue_state.program_state.tape@
        + seq![info.continue_state.program_state.tape_head] + le64(
        info.continue_state.resume_pc as u64,
    ) + le64(info.continue_state.resume_output_ind as u64) + le64(
        info.current_paren_count as u64,
    )
}

/// Record length of a seed of `n` instructions on a tape of `w` cells.
pub open spec fn record_len(n: int, w: int) -> int {
    n + 8 * n + w + 25
}

pub proof fn lemma_jt_bytes_len(jt: Seq<i64>)
    ensures
        jt_bytes(jt).len() == 8 * jt.len(),
    decreases jt.len(),
{
    if jt.len() > 0 {
        lemma_jt_bytes_len(jt.drop_last());
    }
}

/// Append the eight little-endian bytes of a word.
fn push_le64(out: &mut Vec<u8>, x: u64)
    ensures
        final(out)@ == old(out)@ + le64(x),
{
    let ghost pre = out@;
    out.push(x as u8);
    out.push((x >> 8) as u8);
    out.push((x >> 16) as u8);
    out.push((x >> 24) as u8);
    out.push((x >> 32) as u8);
    out.push((x >> 40) as u8);
    out.push((x >> 48) as u8);
    out.push((x >> 56) as u8);
    proof {
        assert(out@ =~= pre + le64(x));
    }
}

/// Read a little-endian word: the result is the unique word whose bytes
/// are the ones read.
fn read_le64(bytes: &[u8], start: usize) -> (x: u64)
    requires
        start + 8 <= bytes@.len(),
    ensures
        le64(x) == bytes@.subrange(start as int, start as int + 8),
{
    let b0 = bytes[start];
    let b1 = bytes[start + 1];
    let b2 = bytes[start + 2];
    let b3 = bytes[start + 3];
    let b4 = bytes[start + 4];
    let b5 = bytes[start + 5];
    let b6 = bytes[start + 6];
    let b7 = bytes[start + 7];
    let x: u64 = (b0 as u64) | ((b1 as u64) << 8) | ((b2 as u64) << 16) | ((b3 as u64) << 24) | ((
    b4 as u64) << 32) | ((b5 as u64) << 40) | ((b6 as u64) << 48) | ((b7 as u64) << 56);
    proof {
        assert(x as u8 == b0 && (x >> 8) as u8 == b1 && (x >> 16) as u8 == b2 && (x >> 24) as u8
            == b3 && (x >> 32) as u8 == b4 && (x >> 40) as u8 == b5 && (x >> 48) as u8 == b6 && (x
            >> 56) as u8 == b7) by (bit_vector)
            requires
                x == (b0 as u64) | ((b1 as u64) << 8) | ((b2 as u64) << 16) | ((b3 as u64) << 24)
                    | ((b4 as u64) << 32) | ((b5 as u64) << 40) | ((b6 as u64) << 48) | ((
                b7 as u64) << 56),
        ;
        assert(le64(x) =~= bytes@.subrange(start as int, start as int + 8));
    }
    x
}

/// Two words with the same little-endian bytes are equal.
pub proof fn lemma_le64_injective(x: u64, y: u64)
    requires
        le64(x) == le64(y),
    ensures
        x == y,
{
    assert(le64(x)[0] == le64(y)[0] && le64(x)[1] == le64(y)[1] && le64(x)[2] == le64(y)[2]
        && le64(x)[3] == le64(y)[3] && le64(x)[4] == le64(y)[4] && le64(x)[5] == le64(y)[5]
        && le64(x)[6] == le64(y)[6] && le64(x)[7] == le64(y)[7]);
    assert(x == y) by (bit_vector)
        requires
            x as u8 == y as u8,
            (x >> 8) as u8 == (y >> 8) as u8,
            (x >> 16) as u8 == (y >> 16) as u8,
            (x >> 24) as u8 == (y >> 24) as u8,
            (x >> 32) as u8 == (y >> 32) as u8,
            (x >> 40) as u8 == (y >> 40) as u8,
            (x >> 48) as u8 == (y >> 48) as u8,
            (x >> 56) as u8 == (y >> 56) as u8,
    ;
}

/// How a well-formed seed's record splits into its fields.
pub proof fn lemma_seed_bytes_split(info: RunningProgramInfo)
    requires
        info.wf(),
    ensures
        ({
            let n = info.code@.len() as int;
            let w = info.continue_state.program_state.tape@.len() as int;
            let s = seed_bytes(info);
            &&& info.jump_table@.len() == n
            &&& s.len() == record_len(n, w)
            &&& code_bytes(info.code@) == s.subrange(0, n)
            &&& jt_bytes(info.jump_table@) == s.subrange(n, 9 * n)
            &&& info.continue_state.program_state.tape@ == s.subrange(9 * n, 9 * n + w)
            &&& s[9 * n + w] == info.continue_state.program_state.tape_head
            &&& le64(info.continue_state.resume_pc as u64) == s.subrange(
                9 * n + w + 1,
                9 * n + w + 9,
            )
            &&& le64(info.continue_state.resume_output_ind as u64) == s.subrange(
                9 * n + w + 9,
                9 * n + w + 17,
            )
            &&& le64(info.current_paren_count as u64) == s.subrange(9 * n + w + 17, 9 * n + w + 25)
        }),
{
    crate::brackets::lemma_build_props(info.code@);
    lemma_jt_bytes_len(info.jump_table@);
    let n = info.code@.len() as int;
    let w = info.continue_state.program_state.tape@.len() as int;
    let s = seed_bytes(info);
    assert(code_bytes(info.code@) =~= s.subrange(0, n));
    assert(jt_bytes(info.jump_table@) =~= s.subrange(n, 9 * n));
    assert(info.continue_state.program_state.tape@ =~= s.subrange(9 * n, 9 * n + w));
    assert(le64(info.continue_state.resume_pc as u64) =~= s.subrange(9 * n + w + 1, 9 * n + w + 9));
    assert(le64(info.continue_state.resume_output_ind as u64) =~= s.subrange(
        9 * n + w + 9,
        9 * n + w + 17,
    ));
    assert(le64(info.current_paren_count as u64) =~= s.subrange(9 * n + w + 17, 9 * n + w + 25));
}

/// Two well-formed seeds of the same sizes with the same record bytes
/// are the same seed: the record format loses nothing but the jump
/// table's spare capacity.
pub proof fn lemma_seed_record_injective(a: RunningProgramInfo, b: RunningProgramInfo)
    requires
        a.wf(),
        b.wf(),
        a.code@.len() == b.code@.len(),
        a.continue_state.program_state.tape@.len() == b.continue_state.program_state.tape@.len(),
        seed_bytes(a) == seed_bytes(b),
    ensures
        a.code@ == b.code@,
        a.jump_table@ == b.jump_table@,
        a.current_paren_count == b.current_paren_count,
        a.continue_state.mv() == b.continue_state.mv(),
{
    lemma_seed_bytes_split(a);
    lemma_seed_bytes_split(b);
    let n = a.code@.len() as int;
    assert forall|i: int| 0 <= i < n implies a.code@[i] == b.code@[i] by {
        assert(code_bytes(a.code@)[i] == code_bytes(b.code@)[i]);
        assert(instr_value(a.code@[i]) == instr_value(b.code@[i]));
        crate::data::lemma_instr_of_value(a.code@[i]);
        crate::data::lemma_instr_of_value(b.code@[i]);
    }
    assert(a.code@ =~= b.code@);
    assert(a.jump_table@ == jt_build(a.code@) && b.jump_table@ == jt_build(b.code@));
    assert(a.continue_state.program_state.tape@ == b.continue_state.program_state.tape@);
    let w = a.continue_state.program_state.tape@.len() as int;
    assert(seed_bytes(a)[9 * n + w] == seed_bytes(b)[9 * n + w]);
    lemma_le64_injective(
        a.continue_state.resume_pc as u64,
        b.continue_state.resume_pc as u64,
    );
    lemma_le64_injective(
        a.continue_state.resume_output_ind as u64,
        b.continue_state.resume_output_ind as u64,
    );
    lemma_le64_injective(a.current_paren_count as u64, b.current_paren_count as u64);
}

/// Serialise one seed to its record bytes.
pub fn encode_seed(info: &RunningProgramInfo) -> (r: Vec<u8>)
    requires
        info.code.wf(),
        info.jump_table@.len() == info.code@.len(),
    ensures
        r@ == seed_bytes(*info),
{
    let mut out: Vec<u8> = Vec::new();
    let n = info.code.size();
    proof {
        assert(out@ =~= code_bytes(info.code@.take(0)));
    }
    for i in 0..n
        invariant
            info.code.wf(),
            n == info.code@.len(),
            out@ == code_bytes(info.code@.take(i as int)),
    {
        let instr = info.code.get(i).unwrap();
        out.push(instr.to_u8());
        proof {
            assert(out@ =~= code_bytes(info.code@.take(i + 1)));
        }
    }
    proof {
        assert(info.code@.take(n as int) =~= info.code@);
        assert(out@ =~= code_bytes(info.code@) + jt_bytes(info.jump_table@.take(0)));
    }
    let jn = info.jump_table.len();
    for i in 0..jn
        invariant
            info.code.wf(),
            jn == info.jump_table@.len(),
            out@ == code_bytes(info.code@) + jt_bytes(info.jump_table@.take(i as int)),
    {
        let entry = info.jump_table[i];
        push_le64(&mut out, entry as u64);
        proof {
            assert(info.jump_table@.take(i + 1).drop_last() =~= info.jump_table@.take(i as int));
            assert(info.jump_table@.take(i + 1).last() == info.jump_table@[i as int]);
            assert(out@ =~= code_bytes(info.code@) + jt_bytes(info.jump_table@.take(i + 1)));
        }
    }
    proof {
        assert(info.jump_table@.take(jn as int) =~= info.jump_table@);
    }
    let ghost head_part = code_bytes(info.code@) + jt_bytes(info.jump_table@);
    let w = info.continue_state.program_state.tape.len();
    for i in 0..w
        invariant
            head_part == code_bytes(info.code@) + jt_bytes(info.jump_table@),
            w == info.continue_state.program_state.tape@.len(),
            out@ == head_part + info.continue_state.program_state.tape@.take(i as int),
    {
        out.push(info.continue_state.program_state.tape[i]);
        proof {
            assert(out@ =~= head_part + info.continue_state.program_state.tape@.take(i + 1));
        }
    }
    proof {
        assert(info.continue_state.program_state.tape@.take(w as int)
            =~= info.continue_state.program_state.tape@);
    }
    out.push(info.continue_state.program_state.tape_head);
    push_le64(&mut out, info.continue_state.resume_pc as u64);
    push_le64(&mut out, info.continue_state.resume_output_ind as u64);
    push_le64(&mut out, info.current_paren_count as u64);
    proof {
        assert(out@ =~= seed_bytes(*info));
    }
    out
}

/// The record of `info0` lies in `bytes` at `start` with the given sizes.
pub open spec fn record_at(
    bytes: Seq<u8>,
    start: int,
    program_size: int,
    tape_size: int,
    info0: RunningProgramInfo,
) -> bool {
    &&& info0.wf()
    &&& info0.code@.len() == program_size
    &&& info0.continue_state.program_state.tape@.len() == tape_size
    &&& start + record_len(program_size, tape_size) <= bytes.len()
    &&& bytes.subrange(start, start + record_len(program_size, tape_size)) == seed_bytes(info0)
}

/// Every field of a record, read off the surrounding byte string.
proof fn lemma_record_fields(bytes: Seq<u8>, start: int, n: int, w: int, info0: RunningProgramInfo)
    requires
        start >= 0,
        record_at(bytes, start, n, w, info0),
    ensures
        info0.jump_table@.len() == n,
        forall|q: int| 0 <= q < n ==> bytes[start + q] == instr_value(#[trigger] info0.code@[q]),
        forall|q: int|
            0 <= q < n ==> bytes.subrange(start + n + 8 * q, start + n + 8 * q + 8) == le64(
                #[trigger] info0.jump_table@[q] as u64,
            ),
        info0.continue_state.program_state.tape@ == bytes.subrange(start + 9 * n, start + 9 * n + w),
        bytes[start + 9 * n + w] == info0.continue_state.program_state.tape_head,
        le64(info0.continue_state.resume_pc as u64) == bytes.subrange(
            start + 9 * n + w + 1,
            start + 9 * n + w + 9,
        ),
        le64(info0.continue_state.resume_output_ind as u64) == bytes.subrange(
            start + 9 * n + w + 9,
            start + 9 * n + w + 17,
        ),
        le64(info0.current_paren_count as u64) == bytes.subrange(
            start + 9 * n + w + 17,
            start + 9 * n + w + 25,
        ),
{
    lemma_seed_bytes_split(info0);
    let s = seed_bytes(info0);
    let rl = record_len(n, w);
    assert forall|k: int| 0 <= k < rl implies bytes[start + k] == s[k] by {
        assert(bytes.subrange(start, start + rl)[k] == bytes[start + k]);
    }
    assert forall|q: int| 0 <= q < n implies bytes[start + q] == instr_value(
        #[trigger] info0.code@[q],
    ) by {
        assert(s[q] == code_bytes(info0.code@)[q]);
    }
    assert forall|q: int| 0 <= q < n implies bytes.subrange(start + n + 8 * q, start + n + 8 * q + 8)
        == le64(#[trigger] info0.jump_table@[q] as u64) by {
        lemma_jt_bytes_index(info0.jump_table@, q);
        assert forall|b: int| 0 <= b < 8 implies #[trigger] bytes[start + n + 8 * q + b] == le64(
            info0.jump_table@[q] as u64,
        )[b] by {
            assert(s[n + 8 * q + b] == jt_bytes(info0.jump_table@)[8 * q + b]);
            assert(jt_bytes(info0.jump_table@).subrange(8 * q, 8 * q + 8)[b] == jt_bytes(
                info0.jump_table@,
            )[8 * q + b]);
        }
        assert(bytes.subrange(start + n + 8 * q, start + n + 8 * q + 8) =~= le64(
            info0.jump_table@[q] as u64,
        ));
    }
    assert(info0.continue_state.program_state.tape@ =~= bytes.subrange(
        start + 9 * n,
        start + 9 * n + w,
    ));
    assert(le64(info0.continue_state.resume_pc as u64) =~= bytes.subrange(
        start + 9 * n + w + 1,
        start + 9 * n + w + 9,
    ));
    assert(le64(info0.continue_state.resume_output_ind as u64) =~= bytes.subrange(
        start + 9 * n + w + 9,
        start + 9 * n + w + 17,
    ));
    assert(le64(info0.current_paren_count as u64) =~= bytes.subrange(
        start + 9 * n + w + 17,
        start + 9 * n + w + 25,
    ));
}

/// A decoded code segment equals the encoded seed's code.
proof fn lemma_decoded_code_eq(
    bytes: Seq<u8>,
    start: int,
    n: int,
    w: int,
    info0: RunningProgramInfo,
    codev: Seq<BfInstruction>,
)
    requires
        start >= 0,
        record_at(bytes, start, n, w, info0),
        codev.len() == n,
        code_bytes(codev) == bytes.subrange(start, start + n),
    ensures
        codev == info0.code@,
{
    lemma_record_fields(bytes, start, n, w, info0);
    assert forall|q: int| 0 <= q < n implies codev[q] == info0.code@[q] by {
        assert(code_bytes(codev)[q] == bytes.subrange(start, start + n)[q]);
        assert(bytes.subrange(start, start + n)[q] == bytes[start + q]);
        assert(bytes[start + q] == instr_value(info0.code@[q]));
        assert(code_bytes(codev)[q] == instr_value(codev[q]));
        crate::data::lemma_instr_of_value(codev[q]);
        crate::data::lemma_instr_of_value(info0.code@[q]);
    }
    assert(codev =~= info0.code@);
}

/// Segment-wise equality assembles to the full record.
proof fn lemma_assemble_record(bytes: Seq<u8>, start: int, n: int, w: int, info: RunningProgramInfo)
    requires
        info.wf(),
        info.code@.len() == n,
        info.continue_state.program_state.tape@.len() == w,
        start >= 0,
        start + record_len(n, w) <= bytes.len(),
        code_bytes(info.code@) == bytes.subrange(start, start + n),
        jt_bytes(info.jump_table@) == bytes.subrange(start + n, start + 9 * n),
        info.continue_state.program_state.tape@ == bytes.subrange(start + 9 * n, start + 9 * n + w),
        info.continue_state.program_state.tape_head == bytes[start + 9 * n + w],
        le64(info.continue_state.resume_pc as u64) == bytes.subrange(
            start + 9 * n + w + 1,
            start + 9 * n + w + 9,
        ),
        le64(info.continue_state.resume_output_ind as u64) == bytes.subrange(
            start + 9 * n + w + 9,
            start + 9 * n + w + 17,
        ),
        le64(info.current_paren_count as u64) == bytes.subrange(
            start + 9 * n + w + 17,
            start + 9 * n + w + 25,
        ),
    ensures
        seed_bytes(info) == bytes.subrange(start, start + record_len(n, w)),
{
    lemma_seed_bytes_split(info);
    let s = seed_bytes(info);
    let sub = bytes.subrange(start, start + record_len(n, w));
    assert forall|k: int| 0 <= k < record_len(n, w) implies s[k] == sub[k] by {
        assert(sub[k] == bytes[start + k]);
        if k < n {
            assert(s[k] == code_bytes(info.code@)[k]);
            assert(bytes.subrange(start, start + n)[k] == bytes[start + k]);
        } else if k < 9 * n {
            assert(s[k] == jt_bytes(info.jump_table@)[k - n]);
            assert(bytes.subrange(start + n, start + 9 * n)[k - n] == bytes[start + k]);
        } else if k < 9 * n + w {
            assert(s[k] == info.continue_state.program_state.tape@[k - 9 * n]);
            assert(bytes.subrange(start + 9 * n, start + 9 * n + w)[k - 9 * n] == bytes[start + k]);
        } else if k == 9 * n + w {
            assert(s[k] == info.continue_state.program_state.tape_head);
        } else if k < 9 * n + w + 9 {
            assert(s[k] == le64(info.continue_state.resume_pc as u64)[k - (9 * n + w + 1)]);
            assert(bytes.subrange(start + 9 * n + w + 1, start + 9 * n + w + 9)[k - (9 * n + w + 1)]
                == bytes[start + k]);
        } else if k < 9 * n + w + 17 {
            assert(s[k] == le64(info.continue_state.resume_output_ind as u64)[k - (9 * n + w + 9)]);
            assert(bytes.subrange(start + 9 * n + w + 9, start + 9 * n + w + 17)[k - (9 * n + w
                + 9)] == bytes[start + k]);
        } else {
            assert(s[k] == le64(info.current_paren_count as u64)[k - (9 * n + w + 17)]);
            assert(bytes.subrange(start + 9 * n + w + 17, start + 9 * n + w + 25)[k - (9 * n + w
                + 17)] == bytes[start + k]);
        }
    }
    assert(s =~= sub);
}

/// Parse one seed record.  Whatever comes back is a well-formed seed of
/// the requested sizes whose encoding is exactly the bytes consumed; and
/// a record that a well-formed seed wrote always parses.
#[verifier::rlimit(100)]
pub fn decode_seed(bytes: &[u8], start: usize, program_size: usize, tape_size: usize) -> (r:
    Option<RunningProgramInfo>)
    requires
        1 <= tape_size,
        start <= bytes@.len(),
    ensures
        r matches Some(info) ==> {
            &&& info.wf()
            &&& info.code@.len() == program_size
            &&& info.continue_state.program_state.tape@.len() == tape_size
            &&& start + record_len(program_size as int, tape_size as int) <= bytes@.len()
            &&& bytes@.subrange(
                start as int,
                start as int + record_len(program_size as int, tape_size as int),
            ) == seed_bytes(info)
        },
        forall|info0: RunningProgramInfo|
            #[trigger] record_at(bytes@, start as int, program_size as int, tape_size as int, info0)
                ==> r is Some,
{
    let ghost rl = record_len(program_size as int, tape_size as int);
    let remaining = bytes.len() - start;
    let needed: u128 = 9 * (program_size as u128) + (tape_size as u128) + 25;
    if (remaining as u128) < needed {
        return None;
    }
    let n = program_size;
    let w = tape_size;
    proof {
        assert(start + rl <= bytes@.len());
    }

    // code: one ordinal byte per instruction
    let mut code = CompressedBF::new(0, n);
    for i in 0..n
        invariant
            n == program_size,
            w == tape_size,
            start + 9 * n + w + 25 <= bytes@.len(),
            bytes@.len() <= usize::MAX,
            rl == record_len(n as int, w as int),
            code.wf(),
            code@.len() == i,
            code_bytes(code@) == bytes@.subrange(start as int, start as int + i),
    {
        let b = bytes[start + i];
        match BfInstruction::from_u8(b) {
            Some(instruction) => {
                code.append(instruction);
                proof {
                    crate::data::lemma_instr_value_of(b);
                    assert(code_bytes(code@) =~= bytes@.subrange(start as int, start as int + i
                        + 1));
                }
            },
            None => {
                proof {
                    assert forall|info0: RunningProgramInfo|
                        !record_at(bytes@, start as int, n as int, w as int, info0) by {
                        if record_at(bytes@, start as int, n as int, w as int, info0) {
                            lemma_record_fields(bytes@, start as int, n as int, w as int, info0);
                            assert(bytes@[start as int + i] == instr_value(
                                info0.code@[i as int],
                            ));
                            crate::data::lemma_instr_of_value(info0.code@[i as int]);
                            assert(b < 8);
                            assert(false);
                        }
                    }
                }
                return None;
            },
        }
    }
    proof {
        assert(code_bytes(code@) == bytes@.subrange(start as int, start as int + n));
    }

    // jump table entries, checked against the table the code rebuilds
    let built = build_jump_table(&code);
    let (expected_jt, paren_count) = match built {
        Some(p) => p,
        None => {
            proof {
                assert forall|info0: RunningProgramInfo|
                    !record_at(bytes@, start as int, n as int, w as int, info0) by {
                    if record_at(bytes@, start as int, n as int, w as int, info0) {
                        lemma_decoded_code_eq(bytes@, start as int, n as int, w as int, info0, code@);
                        assert(prefix_ok(code@));
                        assert(has_close_violation(code@));
                        let k = choose|k: int|
                            0 <= k <= code@.len() && crate::brackets::depth(code@, k) < 0;
                        assert(crate::brackets::depth(code@, k) >= 0);
                        assert(false);
                    }
                }
            }
            return None;
        },
    };
    proof {
        crate::brackets::lemma_build_props(code@);
    }
    let jt_off = start + n;
    let mut jump_table: Vec<i64> = Vec::new();
    for i in 0..n
        invariant
            n == program_size,
            w == tape_size,
            start + 9 * n + w + 25 <= bytes@.len(),
            bytes@.len() <= usize::MAX,
            rl == record_len(n as int, w as int),
            jt_off == start + n,
            code.wf(),
            code@.len() == n < 0x7fff_ffff_ffff_ffff,
            code_bytes(code@) == bytes@.subrange(start as int, start as int + n),
            prefix_ok(code@),
            expected_jt@ == jt_build(code@),
            expected_jt@.len() == n,
            paren_count == unm_stack(code@).len(),
            jump_table@.len() == i,
            jt_bytes(jump_table@) == bytes@.subrange(jt_off as int, jt_off as int + 8 * i),
            jump_table@ == expected_jt@.take(i as int),
    {
        let word = read_le64(bytes, jt_off + 8 * i);
        let entry = word as i64;
        if entry != expected_jt[i] {
            proof {
                assert forall|info0: RunningProgramInfo|
                    !record_at(bytes@, start as int, n as int, w as int, info0) by {
                    if record_at(bytes@, start as int, n as int, w as int, info0) {
                        lemma_decoded_code_eq(bytes@, start as int, n as int, w as int, info0, code@);
                        lemma_record_fields(bytes@, start as int, n as int, w as int, info0);
                        assert(info0.jump_table@ == jt_build(info0.code@));
                        assert(jt_build(info0.code@) == jt_build(code@));
                        assert(info0.jump_table@ == expected_jt@);
                        let e: i64 = info0.jump_table@[i as int];
                        assert(bytes@.subrange(
                            start as int + n + 8 * (i as int),
                            start as int + n + 8 * (i as int) + 8,
                        ) == le64(e as u64));
                        assert(le64(word) == bytes@.subrange(
                            jt_off as int + 8 * (i as int),
                            jt_off as int + 8 * (i as int) + 8,
                        ));
                        lemma_le64_injective(word, e as u64);
                        assert(word as i64 == e) by (bit_vector)
                            requires
                                word == e as u64,
                        ;
                    }
                }
            }
            return None;
        }
        jump_table.push(entry);
        proof {
            assert((entry as u64) == word) by (bit_vector)
                requires
                    entry == word as i64,
            ;
            assert(jump_table@.drop_last() =~= expected_jt@.take(i as int));
            assert(jump_table@ =~= expected_jt@.take(i + 1));
            assert(jt_bytes(jump_table@) =~= bytes@.subrange(jt_off as int, jt_off as int + 8 * (i
                + 1)));
        }
    }
    proof {
        assert(jump_table@ =~= expected_jt@);
    }

    // tape, head, program counter, output cursor, open count
    let tape_off = jt_off + 8 * n;
    let mut tape: Vec<u8> = Vec::new();
    for i in 0..w
        invariant
            start + 9 * n + w + 25 <= bytes@.len(),
            bytes@.len() <= usize::MAX,
            tape_off == start + 9 * n,
            tape@.len() == i,
            tape@ == bytes@.subrange(tape_off as int, tape_off as int + i),
    {
        tape.push(bytes[tape_off + i]);
        proof {
            assert(tape@ =~= bytes@.subrange(tape_off as int, tape_off as int + i + 1));
        }
    }
    let tape_head = bytes[tape_off + w];
    if tape_head as usize >= w {
        proof {
            assert forall|info0: RunningProgramInfo|
                !record_at(bytes@, start as int, n as int, w as int, info0) by {
                if record_at(bytes@, start as int, n as int, w as int, info0) {
                    lemma_record_fields(bytes@, start as int, n as int, w as int, info0);
                }
            }
        }
        return None;
    }
    let pc64 = read_le64(bytes, tape_off + w + 1);
    let out64 = read_le64(bytes, tape_off + w + 9);
    let paren64 = read_le64(bytes, tape_off + w + 17);
    if pc64 > (n as u64) || out64 > (usize::MAX as u64) || paren64 != (paren_count as u64) {
        proof {
            assert forall|info0: RunningProgramInfo|
                !record_at(bytes@, start as int, n as int, w as int, info0) by {
                if record_at(bytes@, start as int, n as int, w as int, info0) {
                    lemma_decoded_code_eq(bytes@, start as int, n as int, w as int, info0, code@);
                    lemma_record_fields(bytes@, start as int, n as int, w as int, info0);
                    lemma_le64_injective(pc64, info0.continue_state.resume_pc as u64);
                    lemma_le64_injective(out64, info0.continue_state.resume_output_ind as u64);
                    lemma_le64_injective(paren64, info0.current_paren_count as u64);
                }
            }
        }
        return None;
    }
    let resume_pc = pc64 as usize;
    let resume_output_ind = out64 as usize;

    let info = RunningProgramInfo {
        code,
        current_paren_count: paren_count,
        jump_table,
        continue_state: ContinueState {
            program_state: ProgramState { tape, tape_head },
            resume_pc,
            resume_output_ind,
        },
    };
    proof {
        assert(info.wf());
        assert((resume_pc as u64) == pc64);
        assert((resume_output_ind as u64) == out64);
        lemma_assemble_record(bytes@, start as int, n as int, w as int, info);
    }
    Some(info)
}

/// The bytes of one jump-table entry inside the flattened table.
pub proof fn lemma_jt_bytes_index(jt: Seq<i64>, i: int)
    requires
        0 <= i < jt.len(),
    ensures
        jt_bytes(jt).len() == 8 * jt.len(),
        jt_bytes(jt).subrange(8 * i, 8 * i + 8) == le64(jt[i] as u64),
    decreases jt.len(),
{
    lemma_jt_bytes_len(jt);
    if i == jt.len() - 1 {
        lemma_jt_bytes_len(jt.drop_last());
        assert(jt_bytes(jt).subrange(8 * i, 8 * i + 8) =~= le64(jt[i] as u64));
    } else {
        lemma_jt_bytes_index(jt.drop_last(), i);
        lemma_jt_bytes_len(jt.drop_last());
        assert(jt_bytes(jt).subrange(8 * i, 8 * i + 8) =~= jt_bytes(jt.drop_last()).subrange(
            8 * i,
            8 * i + 8,
        ));
    }
}

} // verus!
