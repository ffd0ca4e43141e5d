//! Step segmentation.
//!
//! Steps whose own duration exceeds the decode threshold are dropped
//! first.  Each remaining step then collects every device operation whose
//! interval is fully contained in the step's interval, converted to
//! step-relative coordinates; overlapping steps would each collect a
//! shared operation, as the containment test is per step.  An optional
//! anchor name (substring match, first match by position) trims the
//! prefix of a step's sequence and re-bases time at the anchor.

use vstd::prelude::*;

use crate::model::{wf_op, wf_ops, wf_step, GpuOperation, OpView, ProfileStep, StepView};
use crate::sort::ops_sorted;

verus! {

/// The step survives the duration filter.
pub open spec fn is_decode_step(s: StepView, threshold: int) -> bool {
    s.end_time - s.start_time <= threshold
}

/// The steps that survive the duration filter, in order.
pub open spec fn decode_steps(steps: Seq<StepView>, threshold: int) -> Seq<StepView>
    decreases steps.len(),
{
    if steps.len() == 0 {
        Seq::empty()
    } else {
        let rest = decode_steps(steps.drop_last(), threshold);
        if is_decode_step(steps.last(), threshold) {
            rest.push(steps.last())
        } else {
            rest
        }
    }
}

/// Keeps the steps whose duration does not exceed `threshold`.
pub fn filter_decode_steps(steps: Vec<ProfileStep>, threshold: u64) -> (r: Vec<ProfileStep>)
    ensures
        r.deep_view() == decode_steps(steps.deep_view(), threshold as int),
{
    let ghost all = steps.deep_view();
    let mut kept: Vec<ProfileStep> = Vec::new();
    let mut idx: usize = 0;
    while idx < steps.len()
        invariant
            idx <= steps.len(),
            all == steps.deep_view(),
            all.len() == steps.len(),
            kept.deep_view() == decode_steps(all.subrange(0, idx as int), threshold as int),
        decreases steps.len() - idx,
    {
        let s = &steps[idx];
        if (s.end_time as u128) <= (s.start_time as u128) + (threshold as u128) {
            let kept_step = s.clone();
            proof {
                assert(kept_step@ == all[idx as int]);
                assert(is_decode_step(all[idx as int], threshold as int));
            }
            kept.push(kept_step);
        }
        proof {
            let pre = all.subrange(0, idx as int);
            let post = all.subrange(0, idx as int + 1);
            assert(post.drop_last() =~= pre);
            assert(post.last() == all[idx as int]);
        }
        idx = idx + 1;
        proof {
            assert(kept.deep_view() =~= decode_steps(
                all.subrange(0, idx as int),
                threshold as int,
            ));
        }
    }
    proof {
        assert(all.subrange(0, all.len() as int) =~= all);
    }
    kept
}

/// The operation's interval lies fully inside the step's interval.
pub open spec fn op_contained(op: OpView, st: StepView) -> bool {
    op.start_time >= st.start_time && op.end_time <= st.end_time
}

/// The operation with its times shifted down by `base`.
pub open spec fn rebased(op: OpView, base: int) -> OpView {
    OpView {
        name: op.name,
        start_time: op.start_time - base,
        end_time: op.end_time - base,
        duration: op.duration,
    }
}

/// The operations of `ops` contained in `st`, in input order, in
/// step-relative coordinates.
pub open spec fn step_segment(st: StepView, ops: Seq<OpView>) -> Seq<OpView>
    decreases ops.len(),
{
    if ops.len() == 0 {
        Seq::empty()
    } else {
        let rest = step_segment(st, ops.drop_last());
        if op_contained(ops.last(), st) {
            rest.push(rebased(ops.last(), st.start_time))
        } else {
            rest
        }
    }
}

/// Collects the operations contained in `step`, re-based to step-relative
/// time.  With the global operation list sorted by start time, the result
/// is in step-relative start order as well.
pub fn collect_step_operations(step: &ProfileStep, ops: &Vec<GpuOperation>) -> (r: Vec<
    GpuOperation,
>)
    requires
        wf_ops(ops.deep_view()),
    ensures
        r.deep_view() == step_segment(step@, ops.deep_view()),
{
    let ghost all = ops.deep_view();
    let mut picked: Vec<GpuOperation> = Vec::new();
    let mut idx: usize = 0;
    while idx < ops.len()
        invariant
            idx <= ops.len(),
            all == ops.deep_view(),
            all.len() == ops.len(),
            wf_ops(all),
            picked.deep_view() == step_segment(step@, all.subrange(0, idx as int)),
        decreases ops.len() - idx,
    {
        let op = &ops[idx];
        proof {
            assert(op.deep_view() == all[idx as int]);
            assert(wf_op(all[idx as int]));
        }
        if op.start_time >= step.start_time && op.end_time <= step.end_time {
            let shifted = GpuOperation {
                name: op.name.clone(),
                start_time: op.start_time - step.start_time,
                end_time: op.end_time - step.start_time,
                duration: op.duration,
            };
            proof {
                assert(shifted@ == rebased(all[idx as int], step@.start_time));
            }
            picked.push(shifted);
        }
        proof {
            let pre = all.subrange(0, idx as int);
            let post = all.subrange(0, idx as int + 1);
            assert(post.drop_last() =~= pre);
            assert(post.last() == all[idx as int]);
        }
        idx = idx + 1;
        proof {
            assert(picked.deep_view() =~= step_segment(step@, all.subrange(0, idx as int)));
        }
    }
    proof {
        assert(all.subrange(0, all.len() as int) =~= all);
    }
    picked
}

/// The element is a contained operation of `ops`, re-based to the step.
pub open spec fn seg_witness(st: StepView, ops: Seq<OpView>, x: OpView) -> bool {
    exists|j: int|
        0 <= j < ops.len() && op_contained(#[trigger] ops[j], st) && x == rebased(
            ops[j],
            st.start_time,
        )
}

/// Every element of a segment is a contained operation of `ops`,
/// re-based to step-relative time.
pub proof fn lemma_segment_membership(st: StepView, ops: Seq<OpView>)
    ensures
        forall|i: int|
            0 <= i < step_segment(st, ops).len() ==> seg_witness(
                st,
                ops,
                #[trigger] step_segment(st, ops)[i],
            ),
    decreases ops.len(),
{
    if ops.len() > 0 {
        let dl = ops.drop_last();
        lemma_segment_membership(st, dl);
        let seg = step_segment(st, ops);
        let rest = step_segment(st, dl);
        assert forall|i: int| 0 <= i < seg.len() implies seg_witness(st, ops, #[trigger] seg[i]) by {
            if i < rest.len() {
                assert(seg[i] == rest[i]);
                assert(seg_witness(st, dl, rest[i]));
                let j = choose|j: int|
                    0 <= j < dl.len() && op_contained(#[trigger] dl[j], st) && rest[i] == rebased(
                        dl[j],
                        st.start_time,
                    );
                assert(ops[j] == dl[j]);
                assert(op_contained(ops[j], st) && seg[i] == rebased(ops[j], st.start_time));
            } else {
                let j = ops.len() - 1;
                assert(op_contained(ops[j], st));
                assert(seg[i] == rebased(ops[j], st.start_time));
            }
        }
    }
}

/// Relative coordinates of a segmented operation are in order and lie
/// inside the step's own duration, and the stored duration stays the
/// derived one.
pub proof fn lemma_segment_relative_bounds(st: StepView, ops: Seq<OpView>)
    requires
        wf_ops(ops),
        wf_step(st),
    ensures
        forall|i: int|
            0 <= i < step_segment(st, ops).len() ==> {
                let o = #[trigger] step_segment(st, ops)[i];
                0 <= o.start_time <= o.end_time <= st.end_time - st.start_time && o.duration
                    == o.end_time - o.start_time
            },
{
    lemma_segment_membership(st, ops);
    let seg = step_segment(st, ops);
    assert forall|i: int| 0 <= i < seg.len() implies {
        let o = #[trigger] seg[i];
        0 <= o.start_time <= o.end_time <= st.end_time - st.start_time && o.duration == o.end_time
            - o.start_time
    } by {
        assert(seg_witness(st, ops, seg[i]));
        let j = choose|j: int|
            0 <= j < ops.len() && op_contained(#[trigger] ops[j], st) && seg[i] == rebased(
                ops[j],
                st.start_time,
            );
        assert(wf_op(ops[j]));
    }
}

/// With the operation list sorted by start time, a segment is sorted by
/// relative start time as well.
pub proof fn lemma_segment_sorted(st: StepView, ops: Seq<OpView>)
    requires
        ops_sorted(ops),
    ensures
        ops_sorted(step_segment(st, ops)),
    decreases ops.len(),
{
    if ops.len() > 0 {
        let dl = ops.drop_last();
        assert(ops_sorted(dl));
        lemma_segment_sorted(st, dl);
        if op_contained(ops.last(), st) {
            let seg = step_segment(st, ops);
            let seg_rest = step_segment(st, dl);
            lemma_segment_membership(st, dl);
            assert forall|i: int, j: int|
                0 <= i < j < seg.len() implies #[trigger] seg[i].start_time
                <= #[trigger] seg[j].start_time by {
                if j < seg_rest.len() {
                } else {
                    assert(seg[j] == rebased(ops.last(), st.start_time));
                    if i < seg_rest.len() {
                        assert(seg_witness(st, dl, seg_rest[i]));
                        let k = choose|k: int|
                            0 <= k < dl.len() && op_contained(#[trigger] dl[k], st) && seg_rest[i]
                                == rebased(dl[k], st.start_time);
                        assert(ops[k] == dl[k]);
                        assert(ops[k].start_time <= ops.last().start_time);
                        assert(seg[i] == seg_rest[i]);
                    }
                }
            }
        }
    }
}

/// `p` occurs in `s` at position `i`.
pub open spec fn contains_at(s: Seq<char>, p: Seq<char>, i: int) -> bool {
    0 <= i && i + p.len() <= s.len() && s.subrange(i, i + p.len()) == p
}

/// `p` occurs somewhere in `s` (the empty pattern occurs everywhere).
pub open spec fn contains_seq(s: Seq<char>, p: Seq<char>) -> bool {
    exists|i: int| contains_at(s, p, i)
}

/// Case-sensitive substring search.
pub fn str_contains(s: &str, pat: &str) -> (r: bool)
    ensures
        r == contains_seq(s@, pat@),
{
    let n = s.unicode_len();
    let m = pat.unicode_len();
    if m > n {
        proof {
            assert forall|i: int| !contains_at(s@, pat@, i) by {}
        }
        return false;
    }
    if m == 0 {
        proof {
            assert(s@.subrange(0, 0) =~= pat@);
            assert(contains_at(s@, pat@, 0));
        }
        return true;
    }
    let mut i: usize = 0;
    while i <= n - m
        invariant
            1 <= m <= n,
            n == s@.len(),
            m == pat@.len(),
            i <= n - m + 1,
            forall|x: int| 0 <= x < i ==> !contains_at(s@, pat@, x),
        decreases n - m + 1 - i,
    {
        if match_at(s, pat, i) {
            proof {
                assert(contains_at(s@, pat@, i as int));
            }
            return true;
        }
        i = i + 1;
    }
    proof {
        assert(!contains_seq(s@, pat@)) by {
            if contains_seq(s@, pat@) {
                let x = choose|x: int| contains_at(s@, pat@, x);
                assert(!contains_at(s@, pat@, x));
            }
        }
    }
    false
}

/// Whether `pat` matches `s` at character position `i`.
fn match_at(s: &str, pat: &str, i: usize) -> (r: bool)
    requires
        i + pat@.len() <= s@.len(),
    ensures
        r == (s@.subrange(i as int, i + pat@.len()) == pat@),
{
    let n = s.unicode_len();
    let m = pat.unicode_len();
    let mut j: usize = 0;
    while j < m
        invariant
            j <= m,
            m == pat@.len(),
            n == s@.len(),
            i + m <= n,
            forall|y: int| 0 <= y < j ==> s@[i + y] == pat@[y],
        decreases m - j,
    {
        if s.get_char(i + j) != pat.get_char(j) {
            proof {
                assert(s@.subrange(i as int, i + m) != pat@) by {
                    if s@.subrange(i as int, i + m) == pat@ {
                        assert(s@.subrange(i as int, i + m)[j as int] == s@[i + j]);
                    }
                }
            }
            return false;
        }
        j = j + 1;
    }
    proof {
        assert(s@.subrange(i as int, i + m) =~= pat@);
    }
    true
}

/// `k` is the position of the first operation whose name contains the
/// anchor.
pub open spec fn is_first_anchor(ops: Seq<OpView>, anchor: Seq<char>, k: int) -> bool {
    &&& 0 <= k < ops.len()
    &&& contains_seq(ops[k].name, anchor)
    &&& forall|j: int| 0 <= j < k ==> !contains_seq(#[trigger] ops[j].name, anchor)
}

pub open spec fn has_anchor(ops: Seq<OpView>, anchor: Seq<char>) -> bool {
    exists|k: int| is_first_anchor(ops, anchor, k)
}

/// The sequence left-trimmed at the first anchor match and re-based so
/// the anchor operation starts at time zero; without a match the
/// sequence is unchanged.
pub open spec fn trimmed(ops: Seq<OpView>, anchor: Seq<char>) -> Seq<OpView> {
    if has_anchor(ops, anchor) {
        let k = choose|k: int| is_first_anchor(ops, anchor, k);
        ops.subrange(k, ops.len() as int).map_values(|o: OpView| rebased(o, ops[k].start_time))
    } else {
        ops
    }
}

/// The first anchor match is unique.
pub proof fn lemma_first_anchor_unique(ops: Seq<OpView>, anchor: Seq<char>, k1: int, k2: int)
    requires
        is_first_anchor(ops, anchor, k1),
        is_first_anchor(ops, anchor, k2),
    ensures
        k1 == k2,
{
    if k1 < k2 {
        assert(!contains_seq(ops[k1].name, anchor));
        assert(false);
    }
    if k2 < k1 {
        assert(!contains_seq(ops[k2].name, anchor));
        assert(false);
    }
}

/// Drops the operations before the first one whose name contains
/// `anchor` and re-bases times at that operation; a sequence without a
/// match is returned unchanged.
pub fn trim_to_anchor(ops: Vec<GpuOperation>, anchor: &str) -> (r: Vec<GpuOperation>)
    requires
        wf_ops(ops.deep_view()),
        ops_sorted(ops.deep_view()),
    ensures
        r.deep_view() == trimmed(ops.deep_view(), anchor@),
{
    let ghost all = ops.deep_view();
    let mut k: usize = 0;
    while k < ops.len() && !str_contains(ops[k].name.as_str(), anchor)
        invariant
            k <= ops.len(),
            all == ops.deep_view(),
            all.len() == ops.len(),
            forall|j: int| 0 <= j < k ==> !contains_seq(#[trigger] all[j].name, anchor@),
        decreases ops.len() - k,
    {
        k = k + 1;
    }
    if k == ops.len() {
        proof {
            assert(!has_anchor(all, anchor@)) by {
                if has_anchor(all, anchor@) {
                    let x = choose|x: int| is_first_anchor(all, anchor@, x);
                    assert(!contains_seq(all[x].name, anchor@));
                }
            }
        }
        return ops;
    }
    proof {
        assert(is_first_anchor(all, anchor@, k as int));
        let ck = choose|x: int| is_first_anchor(all, anchor@, x);
        lemma_first_anchor_unique(all, anchor@, ck, k as int);
    }
    let base = ops[k].start_time;
    let mut out: Vec<GpuOperation> = Vec::new();
    let mut j: usize = k;
    while j < ops.len()
        invariant
            k <= j <= ops.len(),
            all == ops.deep_view(),
            all.len() == ops.len(),
            wf_ops(all),
            ops_sorted(all),
            k < ops.len(),
            base == all[k as int].start_time,
            out.deep_view().len() == j - k,
            out.deep_view() == all.subrange(k as int, j as int).map_values(
                |o: OpView| rebased(o, all[k as int].start_time),
            ),
        decreases ops.len() - j,
    {
        let op = &ops[j];
        proof {
            assert(op.deep_view() == all[j as int]);
            assert(wf_op(all[j as int]));
            assert(all[k as int].start_time <= all[j as int].start_time);
        }
        let shifted = GpuOperation {
            name: op.name.clone(),
            start_time: op.start_time - base,
            end_time: op.end_time - base,
            duration: op.duration,
        };
        proof {
            assert(shifted@ == rebased(all[j as int], all[k as int].start_time));
        }
        let ghost sdv = shifted@;
        let ghost old_out = out.deep_view();
        out.push(shifted);
        j = j + 1;
        proof {
            let f = |o: OpView| rebased(o, all[k as int].start_time);
            let target = all.subrange(k as int, j as int).map_values(f);
            assert(out.deep_view().len() == target.len());
            assert forall|x: int| 0 <= x < target.len() implies out.deep_view()[x]
                == target[x] by {
                assert(target[x] == f(all[k + x]));
                if x < j - 1 - k {
                    assert(out.deep_view()[x] == old_out[x]);
                    assert(old_out[x] == all.subrange(k as int, j - 1).map_values(f)[x]);
                } else {
                    assert(out.deep_view()[x] == sdv);
                }
            }
            assert(out.deep_view() =~= target);
        }
    }
    proof {
        assert(out.deep_view() =~= trimmed(all, anchor@));
    }
    out
}

/// Trimming by an anchor is idempotent: a second trim with the same
/// anchor leaves the already-trimmed sequence unchanged.
pub proof fn lemma_trim_idempotent(ops: Seq<OpView>, anchor: Seq<char>)
    ensures
        trimmed(trimmed(ops, anchor), anchor) == trimmed(ops, anchor),
{
    if has_anchor(ops, anchor) {
        let k = choose|k: int| is_first_anchor(ops, anchor, k);
        let r = trimmed(ops, anchor);
        assert(r == ops.subrange(k, ops.len() as int).map_values(
            |o: OpView| rebased(o, ops[k].start_time),
        ));
        assert(r[0].name == ops[k].name);
        assert(is_first_anchor(r, anchor, 0));
        let k2 = choose|x: int| is_first_anchor(r, anchor, x);
        lemma_first_anchor_unique(r, anchor, k2, 0);
        assert(r[0].start_time == 0);
        assert(trimmed(r, anchor) =~= r) by {
            assert(r.subrange(0, r.len() as int) =~= r);
            assert forall|i: int| 0 <= i < r.len() implies r.subrange(0, r.len() as int).map_values(
                |o: OpView| rebased(o, r[0].start_time),
            )[i] == r[i] by {
                assert(rebased(r[i], 0) == r[i]);
            }
        }
    }
}

/// A segment is empty exactly when no operation is contained in the
/// step.
pub proof fn lemma_segment_empty_iff(st: StepView, ops: Seq<OpView>)
    ensures
        step_segment(st, ops).len() == 0 <==> (forall|i: int|
            0 <= i < ops.len() ==> !op_contained(#[trigger] ops[i], st)),
    decreases ops.len(),
{
    if ops.len() > 0 {
        let dl = ops.drop_last();
        lemma_segment_empty_iff(st, dl);
        if step_segment(st, ops).len() == 0 {
            assert forall|i: int|
                0 <= i < ops.len() implies !op_contained(#[trigger] ops[i], st) by {
                if i < ops.len() - 1 {
                    assert(dl[i] == ops[i]);
                    assert(!op_contained(dl[i], st));
                }
            }
        } else {
            if op_contained(ops.last(), st) {
                assert(ops[ops.len() - 1] == ops.last());
            } else {
                let i = choose|i: int| 0 <= i < dl.len() && op_contained(dl[i], st);
                assert(ops[i] == dl[i]);
            }
        }
    }
}

} // verus!
