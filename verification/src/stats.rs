//! Positional aggregation.
//!
//! Every step sequence whose length and operation names match the
//! reference exactly contributes to per-position accumulators of start,
//! end, duration and bubble time; a step that disagrees in length or in
//! any name is skipped whole and counted.  Bubble time is the idle gap
//! between the previous operation's end and the current operation's
//! start within the same step, clamped at zero.  Each reference position
//! with contributors is emitted as an averaged record.

use vstd::prelude::*;

use crate::model::{AnalysisError, GpuOperation, OpView, ProfileStatsRecord, RecordView};
use crate::shape::{
    find_first_with_length, is_best_length, is_first_of_length, length_tally,
    lemma_best_length_unique, lemma_first_of_length_unique, lemma_tally_occurs,
    select_reference_length,
};

verus! {

/// The step's operation names agree with the reference position by
/// position (lengths included).
pub open spec fn names_match(step: Seq<OpView>, reference: Seq<OpView>) -> bool {
    step.len() == reference.len() && forall|i: int|
        0 <= i < step.len() ==> (#[trigger] step[i]).name == reference[i].name
}

/// The bubble contributed by position `i` of a step: the gap between the
/// previous operation's end (the step origin for the first position) and
/// this operation's start, clamped at zero.
pub open spec fn bubble_at(step: Seq<OpView>, i: int) -> int {
    let prev_end = if i == 0 {
        0
    } else {
        step[i - 1].end_time
    };
    if step[i].start_time >= prev_end {
        step[i].start_time - prev_end
    } else {
        0
    }
}

/// Bubble time is never negative, whatever the raw gap was.
pub proof fn lemma_bubble_nonneg(step: Seq<OpView>, i: int)
    ensures
        bubble_at(step, i) >= 0,
{
}

/// Sum of start times at position `i` over the matching steps.
pub open spec fn total_start(seqs: Seq<Seq<OpView>>, reference: Seq<OpView>, i: int) -> int
    decreases seqs.len(),
{
    if seqs.len() == 0 {
        0
    } else {
        total_start(seqs.drop_last(), reference, i) + if names_match(seqs.last(), reference) {
            seqs.last()[i].start_time
        } else {
            0
        }
    }
}

/// Sum of end times at position `i` over the matching steps.
pub open spec fn total_end(seqs: Seq<Seq<OpView>>, reference: Seq<OpView>, i: int) -> int
    decreases seqs.len(),
{
    if seqs.len() == 0 {
        0
    } else {
        total_end(seqs.drop_last(), reference, i) + if names_match(seqs.last(), reference) {
            seqs.last()[i].end_time
        } else {
            0
        }
    }
}

/// Sum of durations at position `i` over the matching steps.
pub open spec fn total_duration(seqs: Seq<Seq<OpView>>, reference: Seq<OpView>, i: int) -> int
    decreases seqs.len(),
{
    if seqs.len() == 0 {
        0
    } else {
        total_duration(seqs.drop_last(), reference, i) + if names_match(seqs.last(), reference) {
            seqs.last()[i].duration
        } else {
            0
        }
    }
}

/// Sum of clamped bubbles at position `i` over the matching steps.
pub open spec fn total_bubble(seqs: Seq<Seq<OpView>>, reference: Seq<OpView>, i: int) -> int
    decreases seqs.len(),
{
    if seqs.len() == 0 {
        0
    } else {
        total_bubble(seqs.drop_last(), reference, i) + if names_match(seqs.last(), reference) {
            bubble_at(seqs.last(), i)
        } else {
            0
        }
    }
}

/// Number of steps that match the reference exactly.
pub open spec fn match_count(seqs: Seq<Seq<OpView>>, reference: Seq<OpView>) -> nat
    decreases seqs.len(),
{
    if seqs.len() == 0 {
        0
    } else {
        match_count(seqs.drop_last(), reference) + if names_match(seqs.last(), reference) {
            1nat
        } else {
            0nat
        }
    }
}

/// Number of steps skipped for an operation-count mismatch.
pub open spec fn count_mismatch_count(seqs: Seq<Seq<OpView>>, reference: Seq<OpView>) -> nat
    decreases seqs.len(),
{
    if seqs.len() == 0 {
        0
    } else {
        count_mismatch_count(seqs.drop_last(), reference) + if seqs.last().len()
            != reference.len() {
            1nat
        } else {
            0nat
        }
    }
}

/// Number of steps of the right length skipped for a name mismatch.
pub open spec fn name_mismatch_count(seqs: Seq<Seq<OpView>>, reference: Seq<OpView>) -> nat
    decreases seqs.len(),
{
    if seqs.len() == 0 {
        0
    } else {
        name_mismatch_count(seqs.drop_last(), reference) + if seqs.last().len() == reference.len()
            && !names_match(seqs.last(), reference) {
            1nat
        } else {
            0nat
        }
    }
}

/// One more step changes the accumulators by exactly its own
/// contribution: nothing unless it matches the reference.
pub proof fn lemma_totals_push(seqs: Seq<Seq<OpView>>, reference: Seq<OpView>, s: Seq<OpView>)
    ensures
        forall|i: int|
            #[trigger] total_start(seqs.push(s), reference, i) == total_start(seqs, reference, i)
                + if names_match(s, reference) {
                s[i].start_time
            } else {
                0
            },
        forall|i: int|
            #[trigger] total_end(seqs.push(s), reference, i) == total_end(seqs, reference, i)
                + if names_match(s, reference) {
                s[i].end_time
            } else {
                0
            },
        forall|i: int|
            #[trigger] total_duration(seqs.push(s), reference, i) == total_duration(
                seqs,
                reference,
                i,
            ) + if names_match(s, reference) {
                s[i].duration
            } else {
                0
            },
        forall|i: int|
            #[trigger] total_bubble(seqs.push(s), reference, i) == total_bubble(seqs, reference, i)
                + if names_match(s, reference) {
                bubble_at(s, i)
            } else {
                0
            },
        match_count(seqs.push(s), reference) == match_count(seqs, reference) + if names_match(
            s,
            reference,
        ) {
            1nat
        } else {
            0nat
        },
        count_mismatch_count(seqs.push(s), reference) == count_mismatch_count(seqs, reference)
            + if s.len() != reference.len() {
            1nat
        } else {
            0nat
        },
        name_mismatch_count(seqs.push(s), reference) == name_mismatch_count(seqs, reference)
            + if s.len() == reference.len() && !names_match(s, reference) {
            1nat
        } else {
            0nat
        },
{
    assert(seqs.push(s).drop_last() =~= seqs);
    assert(seqs.push(s).last() == s);
}

/// A step whose operation count differs from the reference contributes
/// to no accumulator and to exactly one count-mismatch tick.
pub proof fn lemma_count_mismatch_step(
    seqs: Seq<Seq<OpView>>,
    reference: Seq<OpView>,
    s: Seq<OpView>,
)
    requires
        s.len() != reference.len(),
    ensures
        forall|i: int|
            #[trigger] total_start(seqs.push(s), reference, i) == total_start(seqs, reference, i),
        forall|i: int|
            #[trigger] total_end(seqs.push(s), reference, i) == total_end(seqs, reference, i),
        forall|i: int|
            #[trigger] total_duration(seqs.push(s), reference, i) == total_duration(
                seqs,
                reference,
                i,
            ),
        forall|i: int|
            #[trigger] total_bubble(seqs.push(s), reference, i) == total_bubble(seqs, reference, i),
        match_count(seqs.push(s), reference) == match_count(seqs, reference),
        count_mismatch_count(seqs.push(s), reference) == count_mismatch_count(seqs, reference) + 1,
        name_mismatch_count(seqs.push(s), reference) == name_mismatch_count(seqs, reference),
{
    lemma_totals_push(seqs, reference, s);
}

/// All fields of every operation fit the clock type.
pub open spec fn bounded_ops(s: Seq<OpView>) -> bool {
    forall|i: int|
        0 <= i < s.len() ==> {
            let o = #[trigger] s[i];
            0 <= o.start_time <= u64::MAX && 0 <= o.end_time <= u64::MAX && 0 <= o.duration
                <= u64::MAX
        }
}

pub open spec fn bounded_seqs(ss: Seq<Seq<OpView>>) -> bool {
    forall|k: int| 0 <= k < ss.len() ==> bounded_ops(#[trigger] ss[k])
}

/// Accumulated sums stay within `match_count` times one clock word.
pub proof fn lemma_total_bounds(seqs: Seq<Seq<OpView>>, reference: Seq<OpView>, i: int)
    requires
        bounded_seqs(seqs),
        0 <= i < reference.len(),
    ensures
        0 <= total_start(seqs, reference, i) <= match_count(seqs, reference) * (u64::MAX as int),
        0 <= total_end(seqs, reference, i) <= match_count(seqs, reference) * (u64::MAX as int),
        0 <= total_duration(seqs, reference, i) <= match_count(seqs, reference) * (u64::MAX as int),
        0 <= total_bubble(seqs, reference, i) <= match_count(seqs, reference) * (u64::MAX as int),
    decreases seqs.len(),
{
    if seqs.len() > 0 {
        let dl = seqs.drop_last();
        assert(bounded_seqs(dl)) by {
            assert forall|k: int| 0 <= k < dl.len() implies bounded_ops(#[trigger] dl[k]) by {
                assert(dl[k] == seqs[k]);
            }
        }
        lemma_total_bounds(dl, reference, i);
        let s = seqs.last();
        if names_match(s, reference) {
            assert(bounded_ops(s));
            assert(0 <= s[i].start_time <= u64::MAX);
            if i > 0 {
                assert(0 <= s[i - 1].end_time <= u64::MAX);
            }
            assert(0 <= bubble_at(s, i) <= u64::MAX);
        }
    }
}

/// A matching step makes the match count positive.
pub proof fn lemma_match_count_member(seqs: Seq<Seq<OpView>>, reference: Seq<OpView>, j: int)
    requires
        0 <= j < seqs.len(),
        names_match(seqs[j], reference),
    ensures
        match_count(seqs, reference) >= 1,
    decreases seqs.len(),
{
    if j == seqs.len() - 1 {
    } else {
        assert(seqs.drop_last()[j] == seqs[j]);
        lemma_match_count_member(seqs.drop_last(), reference, j);
    }
}

/// A non-negative number at most `c * m` divides by `c` to at most `m`.
pub proof fn lemma_div_le(t: int, c: int, m: int)
    requires
        c >= 1,
        m >= 0,
        0 <= t,
        t <= c * m,
    ensures
        0 <= t / c <= m,
{
    vstd::arithmetic::div_mod::lemma_div_is_ordered(t, c * m, c);
    vstd::arithmetic::div_mod::lemma_div_multiples_vanish(m, c);
    vstd::arithmetic::div_mod::lemma_div_pos_is_pos(t, c);
}

/// Per reference-position accumulator: running sums of start, end,
/// duration and bubble time, plus the number of contributing steps.
pub struct PositionStats {
    pub total_start: u128,
    pub total_end: u128,
    pub total_duration: u128,
    pub total_bubble: u128,
    pub count: usize,
}

impl Default for PositionStats {
    /// A zero-initialized accumulator.
    fn default() -> (r: Self)
        ensures
            r.total_start == 0,
            r.total_end == 0,
            r.total_duration == 0,
            r.total_bubble == 0,
            r.count == 0,
    {
        PositionStats { total_start: 0, total_end: 0, total_duration: 0, total_bubble: 0, count: 0 }
    }
}

/// Position-by-position name comparison against the reference.
pub fn names_match_exec(step: &Vec<GpuOperation>, reference: &Vec<GpuOperation>) -> (r: bool)
    ensures
        r == names_match(step.deep_view(), reference.deep_view()),
{
    let ghost sv = step.deep_view();
    let ghost rv = reference.deep_view();
    if step.len() != reference.len() {
        return false;
    }
    let mut i: usize = 0;
    while i < step.len()
        invariant
            i <= step.len(),
            sv == step.deep_view(),
            rv == reference.deep_view(),
            sv.len() == step.len(),
            rv.len() == reference.len(),
            step.len() == reference.len(),
            forall|j: int| 0 <= j < i ==> (#[trigger] sv[j]).name == rv[j].name,
        decreases step.len() - i,
    {
        proof {
            assert(sv[i as int] == step@[i as int].deep_view());
            assert(rv[i as int] == reference@[i as int].deep_view());
        }
        if !(step[i].name == reference[i].name) {
            return false;
        }
        i = i + 1;
    }
    true
}

/// The outcome of one aggregation run: the averaged records for the
/// reference sequence, plus the queryable selection and skip counts.
pub struct ProfileStatsSummary {
    pub records: Vec<ProfileStatsRecord>,
    pub reference_index: usize,
    pub reference_length: usize,
    pub reference_tally: usize,
    pub matched_step_count: usize,
    pub count_mismatch_steps: usize,
    pub name_mismatch_steps: usize,
}

/// The record at position `i` averages the accumulated sums over the
/// matching steps, and carries the reference name of that position.
pub open spec fn record_matches(
    rec: RecordView,
    seqs: Seq<Seq<OpView>>,
    reference: Seq<OpView>,
    i: int,
) -> bool {
    let c = match_count(seqs, reference) as int;
    &&& rec.operation_name == reference[i].name
    &&& rec.avg_start_time_us == total_start(seqs, reference, i) / c
    &&& rec.avg_end_time_us == total_end(seqs, reference, i) / c
    &&& rec.avg_duration_us == total_duration(seqs, reference, i) / c
    &&& rec.bubble_time_us == total_bubble(seqs, reference, i) / c
}

/// Aligns every step sequence against the representative reference and
/// averages the per-position statistics across the matching steps.
pub fn calculate_average_stats(step_operations: &Vec<Vec<GpuOperation>>) -> (r: Result<
    ProfileStatsSummary,
    AnalysisError,
>)
    ensures
        r matches Err(e) ==> (e == AnalysisError::NoStepData && step_operations.deep_view().len()
            == 0) || (e == AnalysisError::AllStepsEmpty && step_operations.deep_view().len() > 0
            && (forall|j: int|
            0 <= j < step_operations.deep_view().len()
                ==> (#[trigger] step_operations.deep_view()[j]).len() == 0)),
        r matches Ok(s) ==> {
            let seqs = step_operations.deep_view();
            let reference = seqs[s.reference_index as int];
            &&& is_best_length(seqs, s.reference_length as int)
            &&& s.reference_tally == length_tally(seqs, s.reference_length as int)
            &&& is_first_of_length(seqs, s.reference_length as int, s.reference_index as int)
            &&& s.matched_step_count == match_count(seqs, reference)
            &&& s.matched_step_count >= 1
            &&& s.count_mismatch_steps == count_mismatch_count(seqs, reference)
            &&& s.name_mismatch_steps == name_mismatch_count(seqs, reference)
            &&& s.records.deep_view().len() == s.reference_length
            &&& forall|i: int|
                0 <= i < s.reference_length ==> record_matches(
                    #[trigger] s.records.deep_view()[i],
                    seqs,
                    reference,
                    i,
                )
        },
{
    let ghost seqs = step_operations.deep_view();
    proof {
        assert(seqs.len() == step_operations@.len());
        assert(bounded_seqs(seqs)) by {
            assert forall|k: int| 0 <= k < seqs.len() implies bounded_ops(#[trigger] seqs[k]) by {
                assert(seqs[k] == step_operations@[k].deep_view());
                assert forall|i: int| 0 <= i < seqs[k].len() implies {
                    let o = #[trigger] seqs[k][i];
                    0 <= o.start_time <= u64::MAX && 0 <= o.end_time <= u64::MAX && 0 <= o.duration
                        <= u64::MAX
                } by {
                    assert(seqs[k][i] == step_operations@[k]@[i].deep_view());
                }
            }
        }
    }
    if step_operations.len() == 0 {
        return Err(AnalysisError::NoStepData);
    }
    let selected = select_reference_length(step_operations);
    let (ref_len, ref_tally) = match selected {
        Some(p) => p,
        None => {
            return Err(AnalysisError::AllStepsEmpty);
        },
    };
    let ref_idx = match find_first_with_length(step_operations, ref_len) {
        Some(k) => k,
        None => {
            proof {
                lemma_tally_occurs(seqs, ref_len as int);
                let j = choose|j: int| 0 <= j < seqs.len() && (#[trigger] seqs[j]).len()
                    == ref_len as int;
                assert(false);
            }
            return Err(AnalysisError::AllStepsEmpty);
        },
    };
    let reference = &step_operations[ref_idx];
    let ghost refv = seqs[ref_idx as int];
    proof {
        assert(refv == step_operations@[ref_idx as int].deep_view());
        assert(refv.len() == ref_len);
        assert(names_match(refv, refv));
        lemma_match_count_member(seqs, refv, ref_idx as int);
    }

    // Zero-initialized accumulators, one per reference position.
    let mut position_stats: Vec<PositionStats> = Vec::new();
    let mut p: usize = 0;
    while p < ref_len
        invariant
            p <= ref_len,
            position_stats.len() == p,
            forall|i: int|
                0 <= i < p ==> {
                    let st = #[trigger] position_stats@[i];
                    st.total_start == 0 && st.total_end == 0 && st.total_duration == 0
                        && st.total_bubble == 0 && st.count == 0
                },
        decreases ref_len - p,
    {
        position_stats.push(PositionStats::default());
        p = p + 1;
    }

    // One pass over the steps, accumulating the exactly-matching ones.
    let mut skipped_count: usize = 0;
    let mut name_mismatch: usize = 0;
    let mut matched: usize = 0;
    let mut k: usize = 0;
    while k < step_operations.len()
        invariant
            k <= step_operations.len(),
            seqs == step_operations.deep_view(),
            seqs.len() == step_operations.len(),
            bounded_seqs(seqs),
            ref_idx < step_operations.len(),
            refv == seqs[ref_idx as int],
            refv.len() == ref_len,
            position_stats.len() == ref_len,
            matched == match_count(seqs.subrange(0, k as int), refv),
            matched <= k,
            skipped_count == count_mismatch_count(seqs.subrange(0, k as int), refv),
            skipped_count <= k,
            name_mismatch == name_mismatch_count(seqs.subrange(0, k as int), refv),
            name_mismatch <= k,
            forall|i: int|
                0 <= i < ref_len ==> {
                    let st = #[trigger] position_stats@[i];
                    st.total_start == total_start(seqs.subrange(0, k as int), refv, i)
                        && st.total_end == total_end(seqs.subrange(0, k as int), refv, i)
                        && st.total_duration == total_duration(seqs.subrange(0, k as int), refv, i)
                        && st.total_bubble == total_bubble(seqs.subrange(0, k as int), refv, i)
                        && st.count == match_count(seqs.subrange(0, k as int), refv)
                },
        decreases step_operations.len() - k,
    {
        let ghost pre = seqs.subrange(0, k as int);
        let ghost post = seqs.subrange(0, k as int + 1);
        let ghost sv = seqs[k as int];
        proof {
            assert(post.drop_last() =~= pre);
            assert(post.last() == sv);
            assert(pre.push(sv) =~= post);
            lemma_totals_push(pre, refv, sv);
            assert(sv == step_operations@[k as int].deep_view());
        }
        let step = &step_operations[k];
        let reference_now = &step_operations[ref_idx];
        if step.len() != ref_len {
            skipped_count = skipped_count + 1;
            proof {
                assert(sv.len() != refv.len());
                assert(!names_match(sv, refv));
            }
        } else if !names_match_exec(step, reference_now) {
            name_mismatch = name_mismatch + 1;
            proof {
                assert(sv.len() == refv.len());
                assert(!names_match(sv, refv));
            }
        } else {
            proof {
                assert(names_match(sv, refv));
            }
            let mut prev_end: u64 = 0;
            let mut idx: usize = 0;
            while idx < step.len()
                invariant
                    idx <= step.len(),
                    seqs == step_operations.deep_view(),
                    seqs.len() == step_operations.len(),
                    bounded_seqs(seqs),
                    k < step_operations.len(),
                    sv == seqs[k as int],
                    sv == step.deep_view(),
                    sv.len() == step.len(),
                    step.len() == ref_len,
                    refv.len() == ref_len,
                    names_match(sv, refv),
                    pre == seqs.subrange(0, k as int),
                    position_stats.len() == ref_len,
                    prev_end as int == if idx == 0 {
                        0
                    } else {
                        sv[idx - 1].end_time
                    },
                    forall|i: int|
                        idx <= i < ref_len ==> {
                            let st = #[trigger] position_stats@[i];
                            st.total_start == total_start(pre, refv, i) && st.total_end
                                == total_end(pre, refv, i) && st.total_duration == total_duration(
                                pre,
                                refv,
                                i,
                            ) && st.total_bubble == total_bubble(pre, refv, i) && st.count
                                == match_count(pre, refv)
                        },
                    forall|i: int|
                        0 <= i < idx ==> {
                            let st = #[trigger] position_stats@[i];
                            st.total_start == total_start(pre, refv, i) + sv[i].start_time
                                && st.total_end == total_end(pre, refv, i) + sv[i].end_time
                                && st.total_duration == total_duration(pre, refv, i)
                                + sv[i].duration && st.total_bubble == total_bubble(pre, refv, i)
                                + bubble_at(sv, i) && st.count == match_count(pre, refv) + 1
                        },
                decreases step.len() - idx,
            {
                proof {
                    assert(sv[idx as int] == step@[idx as int].deep_view());
                    lemma_total_bounds(pre, refv, idx as int);
                    assert(match_count(pre, refv) <= pre.len()) by {
                        lemma_match_count_le(pre, refv);
                    }
                    lemma_bubble_nonneg(sv, idx as int);
                    assert(bounded_ops(sv));
                    assert(0 <= bubble_at(sv, idx as int) <= u64::MAX);
                }
                let op = &step[idx];
                let bubble: u64 = if op.start_time >= prev_end {
                    op.start_time - prev_end
                } else {
                    0
                };
                proof {
                    assert(bubble as int == bubble_at(sv, idx as int));
                }
                let st = &mut position_stats[idx];
                st.total_start = st.total_start + (op.start_time as u128);
                st.total_end = st.total_end + (op.end_time as u128);
                st.total_duration = st.total_duration + (op.duration as u128);
                st.total_bubble = st.total_bubble + (bubble as u128);
                st.count = st.count + 1;
                prev_end = op.end_time;
                idx = idx + 1;
            }
            matched = matched + 1;
        }
        k = k + 1;
        proof {
            assert(seqs.subrange(0, k as int) == post);
        }
    }
    proof {
        assert(seqs.subrange(0, seqs.len() as int) =~= seqs);
        lemma_match_count_member(seqs, refv, ref_idx as int);
    }

    // Emit one averaged record per contributing position.
    let mut records: Vec<ProfileStatsRecord> = Vec::new();
    let mut i: usize = 0;
    while i < ref_len
        invariant
            i <= ref_len,
            seqs == step_operations.deep_view(),
            seqs.len() == step_operations.len(),
            bounded_seqs(seqs),
            ref_idx < step_operations.len(),
            refv == seqs[ref_idx as int],
            refv.len() == ref_len,
            position_stats.len() == ref_len,
            matched == match_count(seqs, refv),
            matched >= 1,
            forall|x: int|
                0 <= x < ref_len ==> {
                    let st = #[trigger] position_stats@[x];
                    st.total_start == total_start(seqs, refv, x) && st.total_end == total_end(
                        seqs,
                        refv,
                        x,
                    ) && st.total_duration == total_duration(seqs, refv, x) && st.total_bubble
                        == total_bubble(seqs, refv, x) && st.count == match_count(seqs, refv)
                },
            records.deep_view().len() == i,
            forall|x: int|
                0 <= x < i ==> record_matches(#[trigger] records.deep_view()[x], seqs, refv, x),
        decreases ref_len - i,
    {
        let reference_now = &step_operations[ref_idx];
        let st = &position_stats[i];
        proof {
            lemma_total_bounds(seqs, refv, i as int);
            lemma_div_le(
                total_start(seqs, refv, i as int),
                matched as int,
                u64::MAX as int,
            );
            lemma_div_le(total_end(seqs, refv, i as int), matched as int, u64::MAX as int);
            lemma_div_le(
                total_duration(seqs, refv, i as int),
                matched as int,
                u64::MAX as int,
            );
            lemma_div_le(
                total_bubble(seqs, refv, i as int),
                matched as int,
                u64::MAX as int,
            );
            assert(refv[i as int] == step_operations@[ref_idx as int]@[i as int].deep_view());
        }
        if st.count > 0 {
            let c = st.count as u128;
            let rec = ProfileStatsRecord {
                operation_name: reference_now[i].name.clone(),
                avg_start_time_us: (st.total_start / c) as u64,
                avg_end_time_us: (st.total_end / c) as u64,
                avg_duration_us: (st.total_duration / c) as u64,
                bubble_time_us: (st.total_bubble / c) as u64,
            };
            let ghost old_records = records.deep_view();
            records.push(rec);
            proof {
                assert(records.deep_view() =~= old_records.push(rec@));
                assert(record_matches(rec@, seqs, refv, i as int));
            }
        }
        i = i + 1;
    }

    Ok(
        ProfileStatsSummary {
            records,
            reference_index: ref_idx,
            reference_length: ref_len,
            reference_tally: ref_tally,
            matched_step_count: matched,
            count_mismatch_steps: skipped_count,
            name_mismatch_steps: name_mismatch,
        },
    )
}

/// Aggregation is deterministic: on one input, any two outcomes the
/// contracts permit agree on the chosen length and on the reference.
pub proof fn lemma_aggregation_deterministic(
    seqs: Seq<Seq<OpView>>,
    l1: int,
    k1: int,
    l2: int,
    k2: int,
)
    requires
        is_best_length(seqs, l1),
        is_first_of_length(seqs, l1, k1),
        is_best_length(seqs, l2),
        is_first_of_length(seqs, l2, k2),
    ensures
        l1 == l2,
        k1 == k2,
{
    lemma_best_length_unique(seqs, l1, l2);
    lemma_first_of_length_unique(seqs, l1, k1, k2);
}

/// The averaged record of a position is determined: two records that
/// both match the same input at the same position are equal.
pub proof fn lemma_record_matches_unique(
    r1: RecordView,
    r2: RecordView,
    seqs: Seq<Seq<OpView>>,
    reference: Seq<OpView>,
    i: int,
)
    requires
        record_matches(r1, seqs, reference, i),
        record_matches(r2, seqs, reference, i),
    ensures
        r1 == r2,
{
}

/// No more steps match than there are steps.
pub proof fn lemma_match_count_le(seqs: Seq<Seq<OpView>>, reference: Seq<OpView>)
    ensures
        match_count(seqs, reference) <= seqs.len(),
    decreases seqs.len(),
{
    if seqs.len() > 0 {
        lemma_match_count_le(seqs.drop_last(), reference);
    }
}

} // verus!
