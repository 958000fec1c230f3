//! Bracket structure of a program: nesting depth, matched pairs, the stack
//! of outstanding open brackets, and the jump table that one building pass
//! produces.  The jump table maps each bracket to the index immediately
//! past its partner; `-1` marks a non-bracket, `-2` an open bracket still
//! awaiting its match.

use vstd::prelude::*;
use crate::data::BfInstruction;

verus! {

/// Contribution of one instruction to the nesting depth.
pub open spec fn bracket_delta(i: BfInstruction) -> int {
    match i {
        BfInstruction::LoopStart => 1,
        BfInstruction::LoopEnd => -1,
        _ => 0,
    }
}

/// Open brackets minus close brackets among the first `k` instructions.
pub open spec fn depth(code: Seq<BfInstruction>, k: int) -> int
    decreases k,
{
    if k <= 0 {
        0
    } else {
        depth(code, k - 1) + bracket_delta(code[k - 1])
    }
}

/// No prefix closes more brackets than it opens.
pub open spec fn prefix_ok(code: Seq<BfInstruction>) -> bool {
    forall|k: int| 0 <= k <= code.len() ==> depth(code, k) >= 0
}

/// The program is closed: prefix-valid with every bracket matched.
pub open spec fn balanced(code: Seq<BfInstruction>) -> bool {
    prefix_ok(code) && depth(code, code.len() as int) == 0
}

/// `p` and `c` are a matched open/close pair.
pub open spec fn matched(code: Seq<BfInstruction>, p: int, c: int) -> bool {
    &&& 0 <= p < c < code.len()
    &&& code[p] is LoopStart
    &&& code[c] is LoopEnd
    &&& depth(code, c + 1) == depth(code, p)
    &&& forall|q: int| p < q <= c ==> depth(code, q) > depth(code, p)
}

/// `i` is an open bracket that no later instruction closes.
pub open spec fn unmatched_open(code: Seq<BfInstruction>, i: int) -> bool {
    &&& 0 <= i < code.len()
    &&& code[i] is LoopStart
    &&& forall|q: int| i < q <= code.len() ==> depth(code, q) > depth(code, i)
}

/// Positions of the outstanding open brackets, innermost last.
pub open spec fn unm_stack(code: Seq<BfInstruction>) -> Seq<int>
    decreases code.len(),
{
    if code.len() == 0 {
        Seq::empty()
    } else {
        let pre = unm_stack(code.drop_last());
        if code.last() is LoopStart {
            pre.push(code.len() - 1)
        } else if code.last() is LoopEnd {
            if pre.len() > 0 {
                pre.drop_last()
            } else {
                pre
            }
        } else {
            pre
        }
    }
}

/// The jump table that the single building pass produces: `-1` for a
/// non-bracket, `-2` for a fresh open bracket; a close bracket overwrites
/// the innermost `-2` with the index past itself and records the index
/// past its partner.
pub open spec fn jt_build(code: Seq<BfInstruction>) -> Seq<i64>
    decreases code.len(),
{
    if code.len() == 0 {
        Seq::empty()
    } else {
        let pre = jt_build(code.drop_last());
        if code.last() is LoopStart {
            pre.push(-2i64)
        } else if code.last() is LoopEnd {
            let st = unm_stack(code.drop_last());
            if st.len() > 0 {
                pre.update(st.last(), code.len() as i64).push((st.last() + 1) as i64)
            } else {
                pre.push(-1i64)
            }
        } else {
            pre.push(-1i64)
        }
    }
}

/// Depth never exceeds the number of instructions seen.
pub proof fn lemma_depth_le(code: Seq<BfInstruction>, k: int)
    requires
        0 <= k,
    ensures
        depth(code, k) <= k,
    decreases k,
{
    if k > 0 {
        lemma_depth_le(code, k - 1);
    }
}

/// Depth reads only the first `k` instructions.
pub proof fn lemma_depth_prefix(c1: Seq<BfInstruction>, c2: Seq<BfInstruction>, k: int)
    requires
        0 <= k <= c1.len(),
        k <= c2.len(),
        forall|i: int| 0 <= i < k ==> c1[i] == c2[i],
    ensures
        depth(c1, k) == depth(c2, k),
    decreases k,
{
    if k > 0 {
        lemma_depth_prefix(c1, c2, k - 1);
    }
}

/// A matched pair in a prefix stays matched in any extension.
pub proof fn lemma_matched_prefix(c1: Seq<BfInstruction>, c2: Seq<BfInstruction>, p: int, c: int)
    requires
        0 <= c + 1 <= c1.len(),
        c + 1 <= c2.len(),
        forall|i: int| 0 <= i < c + 1 ==> c1[i] == c2[i],
    ensures
        matched(c1, p, c) == matched(c2, p, c),
{
    assert forall|q: int| 0 <= q <= c + 1 implies depth(c1, q) == depth(c2, q) by {
        lemma_depth_prefix(c1, c2, q);
    }
}

/// Extending a program only fills in `-2` entries of its jump table:
/// every other entry of the prefix is unchanged.
pub proof fn lemma_jt_build_extends(code1: Seq<BfInstruction>, code2: Seq<BfInstruction>)
    requires
        prefix_ok(code1),
        prefix_ok(code2),
        code1.len() <= code2.len() <= 0x7fff_ffff_ffff_ffff,
        forall|i: int| 0 <= i < code1.len() ==> code1[i] == code2[i],
    ensures
        forall|i: int|
            0 <= i < code1.len() ==> #[trigger] jt_build(code2)[i] == jt_build(code1)[i] || (
            code1[i] is LoopStart && jt_build(code1)[i] == -2),
{
    lemma_build_props(code1);
    lemma_build_props(code2);
    assert forall|i: int| 0 <= i < code1.len() implies #[trigger] jt_build(code2)[i] == jt_build(
        code1,
    )[i] || (code1[i] is LoopStart && jt_build(code1)[i] == -2) by {
        if code1[i] is LoopEnd {
            // the close's partner lies inside the prefix and is stable
            let p1 = jt_build(code1)[i] - 1;
            assert(matched(code1, p1, i));
            lemma_matched_prefix(code1, code2, p1, i);
            let p2 = jt_build(code2)[i] - 1;
            assert(matched(code2, p2, i));
            lemma_matched_unique_open(code2, p1, p2, i);
        } else if code1[i] is LoopStart {
            if jt_build(code1)[i] != -2 {
                // an open matched inside the prefix keeps its partner
                let c1 = jt_build(code1)[i] - 1;
                assert(matched(code1, i, c1));
                lemma_matched_prefix(code1, code2, i, c1);
                assert(jt_build(code2)[i] != -2) by {
                    if unmatched_open(code2, i) {
                        assert(depth(code2, c1 + 1) > depth(code2, i));
                    }
                }
                let c2 = jt_build(code2)[i] - 1;
                assert(matched(code2, i, c2));
                lemma_matched_unique_close(code2, i, c1, c2);
            }
        }
    }
}

/// An open bracket has at most one matching close bracket.
pub proof fn lemma_matched_unique_close(code: Seq<BfInstruction>, p: int, c1: int, c2: int)
    requires
        matched(code, p, c1),
        matched(code, p, c2),
    ensures
        c1 == c2,
{
    if c1 < c2 {
        assert(p < c1 + 1 <= c2);
        assert(depth(code, c1 + 1) > depth(code, p));
    } else if c2 < c1 {
        assert(p < c2 + 1 <= c1);
        assert(depth(code, c2 + 1) > depth(code, p));
    }
}

/// A close bracket has at most one matching open bracket.
pub proof fn lemma_matched_unique_open(code: Seq<BfInstruction>, p1: int, p2: int, c: int)
    requires
        matched(code, p1, c),
        matched(code, p2, c),
    ensures
        p1 == p2,
{
    if p1 < p2 {
        assert(p1 < p2 <= c);
        assert(depth(code, p2) > depth(code, p1));
        assert(depth(code, p2) == depth(code, c + 1));
    } else if p2 < p1 {
        assert(p2 < p1 <= c);
        assert(depth(code, p1) > depth(code, p2));
        assert(depth(code, p1) == depth(code, c + 1));
    }
}

/// Among positions `(lo, hi]`, the last one whose depth equals `v`,
/// given that some position in `[lo, hi]` has depth `v`.
proof fn find_last_at_level(code: Seq<BfInstruction>, v: int, lo: int, hi: int) -> (q: int)
    requires
        0 <= lo <= hi <= code.len(),
        exists|q0: int| lo <= q0 <= hi && depth(code, q0) == v,
    ensures
        lo <= q <= hi,
        depth(code, q) == v,
        forall|r: int| q < r <= hi ==> depth(code, r) != v,
    decreases hi - lo,
{
    if depth(code, hi) == v {
        hi
    } else {
        assert(exists|q0: int| lo <= q0 <= hi - 1 && depth(code, q0) == v);
        find_last_at_level(code, v, lo, hi - 1)
    }
}

/// The first position in `(lo, hi]` whose depth drops below `v`, given
/// that depth is at least `v` at `lo` and below `v` at `hi`.  At that
/// position the depth is exactly `v - 1` and one step earlier it is `v`
/// or more.
proof fn find_first_below(code: Seq<BfInstruction>, v: int, lo: int, hi: int) -> (r: int)
    requires
        0 <= lo < hi <= code.len(),
        depth(code, lo) >= v,
        depth(code, hi) < v,
    ensures
        lo < r <= hi,
        depth(code, r) == v - 1,
        depth(code, r - 1) >= v,
    decreases hi - lo,
{
    if depth(code, hi - 1) >= v {
        assert(depth(code, hi) == depth(code, hi - 1) + bracket_delta(code[hi - 1]));
        assert(bracket_delta(code[hi - 1]) >= -1);
        hi
    } else {
        find_first_below(code, v, lo, hi - 1)
    }
}

/// The rightmost outstanding open bracket sits exactly one level below
/// the final depth.
pub proof fn lemma_rightmost(code: Seq<BfInstruction>, p: int)
    requires
        unmatched_open(code, p),
        forall|i: int| unmatched_open(code, i) ==> i <= p,
    ensures
        depth(code, code.len() as int) == depth(code, p) + 1,
{
    let len = code.len() as int;
    let v = depth(code, p) + 1;
    assert(depth(code, p + 1) == v);
    let qs = find_last_at_level(code, v, p + 1, len);
    if qs < len {
        // every later position stays above v
        assert forall|q: int| qs < q <= len implies depth(code, q) > v by {
            if depth(code, q) < v {
                let r = find_first_below(code, v, qs, q);
                assert(depth(code, r) == v - 1);
                assert(depth(code, r) == depth(code, p));
                assert(p < r <= len);
            }
        }
        assert(depth(code, qs + 1) > v);
        assert(depth(code, qs + 1) == depth(code, qs) + bracket_delta(code[qs]));
        assert(bracket_delta(code[qs]) == 1);
        assert(code[qs] is LoopStart);
        assert(unmatched_open(code, qs));
        assert(qs <= p);
        assert(false);
    }
}

/// A program with no outstanding open bracket and no close violation has
/// final depth zero.
pub proof fn lemma_no_unmatched_depth_zero(code: Seq<BfInstruction>)
    requires
        prefix_ok(code),
        forall|i: int| !unmatched_open(code, i),
    ensures
        depth(code, code.len() as int) == 0,
{
    let len = code.len() as int;
    let d = depth(code, len);
    if d > 0 {
        // find the last position strictly below the final depth
        assert(depth(code, 0) == 0 < d);
        let qs = find_last_at_level_below(code, d, len);
        assert(depth(code, qs + 1) >= d);
        assert(depth(code, qs + 1) == depth(code, qs) + bracket_delta(code[qs]));
        assert(bracket_delta(code[qs]) == 1);
        assert(code[qs] is LoopStart);
        assert(depth(code, qs) == d - 1);
        assert forall|q: int| qs < q <= len implies depth(code, q) > depth(code, qs) by {
            if depth(code, q) < d {
                let r = find_first_below(code, d, qs + 1, q);
                assert(depth(code, r - 1) >= d);
                assert(r - 1 > qs);
                assert(depth(code, r) == d - 1);
                assert(false);
            }
        }
        assert(unmatched_open(code, qs));
        assert(false);
    }
}

/// Everything the building pass guarantees for a prefix-valid program:
/// the stack holds exactly the outstanding open brackets in increasing
/// order, its height is the final depth, and every jump-table entry is
/// `-1` at a non-bracket, `-2` exactly at an outstanding open bracket,
/// and the index past the partner at every matched bracket.
pub proof fn lemma_build_props(code: Seq<BfInstruction>)
    requires
        prefix_ok(code),
        code.len() <= 0x7fff_ffff_ffff_ffff,
    ensures
        unm_stack(code).len() == depth(code, code.len() as int),
        forall|j: int|
            0 <= j < unm_stack(code).len() ==> unmatched_open(code, #[trigger] unm_stack(code)[j]),
        forall|i: int| unmatched_open(code, i) ==> unm_stack(code).contains(i),
        forall|j1: int, j2: int|
            0 <= j1 < j2 < unm_stack(code).len() ==> unm_stack(code)[j1] < unm_stack(code)[j2],
        jt_build(code).len() == code.len(),
        forall|i: int|
            0 <= i < code.len() && !(code[i] is LoopStart) && !(code[i] is LoopEnd)
                ==> #[trigger] jt_build(code)[i] == -1,
        forall|i: int|
            0 <= i < code.len() && code[i] is LoopEnd ==> 1 <= #[trigger] jt_build(code)[i]
                <= code.len() && matched(code, jt_build(code)[i] - 1, i),
        forall|i: int|
            0 <= i < code.len() && code[i] is LoopStart ==> (#[trigger] jt_build(code)[i] == -2
                && unmatched_open(code, i)) || (1 <= jt_build(code)[i] <= code.len() && matched(
                code,
                i,
                jt_build(code)[i] - 1,
            )),
        forall|i: int|
            0 <= i < code.len() ==> ((#[trigger] jt_build(code)[i] == -2) <==> unmatched_open(
                code,
                i,
            )),
    decreases code.len(),
{
    let len = code.len() as int;
    if len == 0 {
        return ;
    }
    let pre = code.drop_last();
    let x = code.last();
    let st_pre = unm_stack(pre);
    let jt_pre = jt_build(pre);
    let st = unm_stack(code);
    let jt = jt_build(code);
    assert forall|k: int| 0 <= k <= pre.len() implies depth(pre, k) == depth(code, k) by {
        lemma_depth_prefix(pre, code, k);
    }
    assert(depth(code, len) == depth(code, len - 1) + bracket_delta(code[len - 1]));
    lemma_build_props(pre);
    // restriction: an open unmatched in the extension was unmatched in the prefix
    assert forall|i: int| unmatched_open(code, i) && i < len - 1 implies unmatched_open(pre, i) by {
        assert(forall|q: int| i < q <= pre.len() ==> depth(pre, q) == depth(code, q));
    }
    if x is LoopStart {
        assert(st =~= st_pre.push(len - 1));
        assert(jt =~= jt_pre.push(-2i64));
        assert(depth(code, len) == depth(code, len - 1) + 1);
        assert(unmatched_open(code, len - 1));
        assert forall|i: int| i < len - 1 && unmatched_open(pre, i) implies unmatched_open(
            code,
            i,
        ) by {
            assert(depth(pre, pre.len() as int) > depth(pre, i));
        }
        assert forall|i: int|
            0 <= i < len - 1 && code[i] is LoopEnd implies 1 <= #[trigger] jt[i] <= len && matched(
            code,
            jt[i] - 1,
            i,
        ) by {
            assert(jt[i] == jt_pre[i]);
            lemma_matched_prefix(pre, code, jt_pre[i] - 1, i);
        }
        assert forall|i: int|
            0 <= i < len - 1 && code[i] is LoopStart && jt[i] != -2 implies 1 <= jt[i] <= len
            && matched(code, i, jt[i] - 1) by {
            assert(jt[i] == jt_pre[i]);
            lemma_matched_prefix(pre, code, i, jt_pre[i] - 1);
        }
        assert forall|i: int| unmatched_open(code, i) implies st.contains(i) by {
            if i < len - 1 {
                let j = choose|j: int| 0 <= j < st_pre.len() && st_pre[j] == i;
                assert(st[j] == i);
            } else {
                assert(st[st.len() - 1] == i);
            }
        }
    } else if x is LoopEnd {
        assert(depth(code, len) == depth(code, len - 1) - 1);
        assert(depth(code, len) >= 0);
        assert(st_pre.len() == depth(pre, pre.len() as int));
        assert(st_pre.len() >= 1);
        let p = st_pre.last();
        assert(st =~= st_pre.drop_last());
        assert(jt =~= jt_pre.update(p, len as i64).push((p + 1) as i64));
        assert(unmatched_open(pre, p));
        assert forall|i: int| unmatched_open(pre, i) implies i <= p by {
            let j = choose|j: int| 0 <= j < st_pre.len() && st_pre[j] == i;
            if j < st_pre.len() - 1 {
                assert(st_pre[j] < st_pre[st_pre.len() - 1]);
            }
        }
        lemma_rightmost(pre, p);
        assert(depth(pre, pre.len() as int) == depth(pre, p) + 1);
        assert(matched(code, p, len - 1)) by {
            assert(depth(code, len) == depth(code, p));
            assert(forall|q: int|
                p < q <= len - 1 ==> depth(code, q) == depth(pre, q) && depth(pre, q) > depth(
                    pre,
                    p,
                ));
        }
        // the remaining stack entries stay unmatched
        assert forall|j: int| 0 <= j < st.len() implies unmatched_open(code, st[j]) by {
            let i = st_pre[j];
            assert(unmatched_open(pre, i));
            assert(i < p);
            assert(depth(pre, p) > depth(pre, i));
            assert(depth(code, len) == depth(pre, p) > depth(code, i));
        }
        assert(!unmatched_open(code, p)) by {
            assert(depth(code, len) == depth(code, p));
        }
        assert forall|i: int| unmatched_open(code, i) implies st.contains(i) by {
            assert(i < len - 1);
            assert(unmatched_open(pre, i));
            let j = choose|j: int| 0 <= j < st_pre.len() && st_pre[j] == i;
            assert(i != p);
            assert(j < st_pre.len() - 1);
            assert(st[j] == i);
        }
        assert forall|i: int|
            0 <= i < len && code[i] is LoopEnd implies 1 <= #[trigger] jt[i] <= len && matched(
            code,
            jt[i] - 1,
            i,
        ) by {
            if i < len - 1 {
                assert(i != p);
                assert(jt[i] == jt_pre[i]);
                lemma_matched_prefix(pre, code, jt_pre[i] - 1, i);
            } else {
                assert(jt[i] == p + 1);
                assert(matched(code, p, len - 1));
            }
        }
        assert forall|i: int|
            0 <= i < len && code[i] is LoopStart && jt[i] != -2 implies 1 <= jt[i] <= len
            && matched(code, i, jt[i] - 1) by {
            if i == p {
                assert(jt[i] == len);
                assert(matched(code, p, len - 1));
            } else {
                assert(i < len - 1);
                assert(jt[i] == jt_pre[i]);
                if jt_pre[i] == -2 {
                } else {
                    lemma_matched_prefix(pre, code, i, jt_pre[i] - 1);
                }
            }
        }
        assert forall|i: int| 0 <= i < len implies ((#[trigger] jt[i] == -2) <==> unmatched_open(
            code,
            i,
        )) by {
            if i == p {
                assert(jt[i] == len >= 1);
            } else if i == len - 1 {
                assert(jt[i] == p + 1 >= 1);
            } else {
                assert(jt[i] == jt_pre[i]);
                if jt_pre[i] == -2 {
                    assert(unmatched_open(pre, i));
                    assert(st_pre.contains(i));
                    let j = choose|j: int| 0 <= j < st_pre.len() && st_pre[j] == i;
                    assert(j < st_pre.len() - 1);
                    assert(st[j] == i);
                    assert(unmatched_open(code, i));
                } else {
                    if unmatched_open(code, i) {
                        assert(unmatched_open(pre, i));
                    }
                }
            }
        }
    } else {
        assert(st =~= st_pre);
        assert(jt =~= jt_pre.push(-1i64));
        assert(depth(code, len) == depth(code, len - 1));
        assert forall|i: int| i < len - 1 && unmatched_open(pre, i) implies unmatched_open(
            code,
            i,
        ) by {
            assert(depth(pre, pre.len() as int) > depth(pre, i));
        }
        assert forall|i: int|
            0 <= i < len - 1 && code[i] is LoopEnd implies 1 <= #[trigger] jt[i] <= len && matched(
            code,
            jt[i] - 1,
            i,
        ) by {
            assert(jt[i] == jt_pre[i]);
            lemma_matched_prefix(pre, code, jt_pre[i] - 1, i);
        }
        assert forall|i: int|
            0 <= i < len - 1 && code[i] is LoopStart && jt[i] != -2 implies 1 <= jt[i] <= len
            && matched(code, i, jt[i] - 1) by {
            assert(jt[i] == jt_pre[i]);
            lemma_matched_prefix(pre, code, i, jt_pre[i] - 1);
        }
        assert forall|i: int| unmatched_open(code, i) implies st.contains(i) by {
            assert(i < len - 1);
            assert(st_pre.contains(i));
        }
    }
}

/// Among positions `[0, hi]`, the last one whose depth is below `v`,
/// given that depth reaches `v` or more at `hi` and starts at zero.
proof fn find_last_at_level_below(code: Seq<BfInstruction>, v: int, hi: int) -> (q: int)
    requires
        0 <= hi <= code.len(),
        0 < v,
        depth(code, hi) >= v,
    ensures
        0 <= q < hi,
        depth(code, q) == v - 1,
        forall|r: int| q < r <= hi ==> depth(code, r) >= v,
    decreases hi,
{
    if depth(code, hi - 1) >= v {
        let q = find_last_at_level_below(code, v, hi - 1);
        q
    } else {
        assert(depth(code, hi) == depth(code, hi - 1) + bracket_delta(code[hi - 1]));
        assert(bracket_delta(code[hi - 1]) <= 1);
        assert(depth(code, hi - 1) == v - 1);
        hi - 1
    }
}

} // verus!
