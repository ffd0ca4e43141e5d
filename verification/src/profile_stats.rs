//! The cross-step statistics pipeline.
//!
//! Raw trace → typed events → sorted step markers and device operations
//! → duration-filtered steps → per-step relative sequences (optionally
//! trimmed at an anchor) → representative shape → aligned per-position
//! averages.  Reading the trace container and writing the report file
//! are the caller's side of the boundary.

use vstd::prelude::*;
use vstd::seq_lib::group_to_multiset_ensures;

use crate::collect::{collect_events, collected_ops, collected_steps};
use crate::model::{
    wf_op, wf_ops, wf_step, AnalysisError, GpuOperation, OpView, StepView, TraceEvent,
};
use crate::segment::{
    collect_step_operations, decode_steps, is_decode_step, lemma_segment_empty_iff,
    lemma_segment_relative_bounds, lemma_segment_sorted, op_contained, step_segment,
    trim_to_anchor, trimmed,
};
use crate::segment::filter_decode_steps;
use crate::sort::{
    ops_sorted, sort_ops_by_start, sort_steps_by_start, spec_sort_ops, spec_sort_steps,
    steps_sorted,
};
use crate::shape::{is_best_length, is_first_of_length, length_tally, lemma_tally_occurs};
use crate::stats::{
    calculate_average_stats, count_mismatch_count, match_count, name_mismatch_count,
    record_matches, ProfileStatsSummary,
};

verus! {

/// Every step view of the sequence is well formed.
pub open spec fn wf_steps(s: Seq<StepView>) -> bool {
    forall|i: int| 0 <= i < s.len() ==> wf_step(#[trigger] s[i])
}

/// Collected step markers are well formed: their timestamps were checked
/// on the way in.
pub proof fn lemma_collected_steps_wf(evs: Seq<crate::model::EventView>)
    ensures
        wf_steps(collected_steps(evs)),
    decreases evs.len(),
{
    if evs.len() > 0 {
        lemma_collected_steps_wf(evs.drop_last());
    }
}

/// Collected device operations are well formed.
pub proof fn lemma_collected_ops_wf(evs: Seq<crate::model::EventView>)
    ensures
        wf_ops(collected_ops(evs)),
    decreases evs.len(),
{
    if evs.len() > 0 {
        lemma_collected_ops_wf(evs.drop_last());
    }
}

/// Well-formedness survives any permutation.
pub proof fn lemma_wf_ops_perm(a: Seq<OpView>, b: Seq<OpView>)
    requires
        wf_ops(a),
        a.to_multiset() == b.to_multiset(),
    ensures
        wf_ops(b),
{
    broadcast use group_to_multiset_ensures;
    broadcast use vstd::multiset::group_multiset_axioms;

    assert forall|i: int| 0 <= i < b.len() implies wf_op(#[trigger] b[i]) by {
        assert(b.contains(b[i]));
        assert(b.to_multiset().count(b[i]) > 0);
        assert(a.contains(b[i]));
        let j = choose|j: int| 0 <= j < a.len() && a[j] == b[i];
        assert(wf_op(a[j]));
    }
}

/// Well-formedness of step markers survives any permutation.
pub proof fn lemma_wf_steps_perm(a: Seq<StepView>, b: Seq<StepView>)
    requires
        wf_steps(a),
        a.to_multiset() == b.to_multiset(),
    ensures
        wf_steps(b),
{
    broadcast use group_to_multiset_ensures;
    broadcast use vstd::multiset::group_multiset_axioms;

    assert forall|i: int| 0 <= i < b.len() implies wf_step(#[trigger] b[i]) by {
        assert(b.contains(b[i]));
        assert(b.to_multiset().count(b[i]) > 0);
        assert(a.contains(b[i]));
        let j = choose|j: int| 0 <= j < a.len() && a[j] == b[i];
        assert(wf_step(a[j]));
    }
}

/// The duration filter keeps a subsequence: no more steps than before,
/// all of them well formed and within the threshold, in kept order.
pub proof fn lemma_decode_steps_facts(steps: Seq<StepView>, threshold: int)
    ensures
        decode_steps(steps, threshold).len() <= steps.len(),
        wf_steps(steps) ==> wf_steps(decode_steps(steps, threshold)),
        steps_sorted(steps) ==> steps_sorted(decode_steps(steps, threshold)),
        forall|i: int|
            0 <= i < decode_steps(steps, threshold).len() ==> exists|j: int|
                0 <= j < steps.len() && #[trigger] decode_steps(steps, threshold)[i] == steps[j],
        forall|i: int|
            0 <= i < decode_steps(steps, threshold).len() ==> is_decode_step(
                #[trigger] decode_steps(steps, threshold)[i],
                threshold,
            ),
        forall|j: int|
            0 <= j < steps.len() && is_decode_step(#[trigger] steps[j], threshold)
                ==> decode_steps(steps, threshold).contains(steps[j]),
    decreases steps.len(),
{
    if steps.len() > 0 {
        let dl = steps.drop_last();
        lemma_decode_steps_facts(dl, threshold);
        assert(wf_steps(steps) ==> wf_steps(dl));
        assert(steps_sorted(steps) ==> steps_sorted(dl));
        let kept = decode_steps(steps, threshold);
        let kept_dl = decode_steps(dl, threshold);
        assert forall|i: int| 0 <= i < kept.len() implies exists|j: int|
            0 <= j < steps.len() && #[trigger] kept[i] == steps[j] by {
            if i < kept_dl.len() {
                let j = choose|j: int| 0 <= j < dl.len() && kept_dl[i] == dl[j];
                assert(kept[i] == steps[j]);
            } else {
                assert(kept[i] == steps[steps.len() - 1]);
            }
        }
        if wf_steps(steps) {
            assert forall|i: int| 0 <= i < kept.len() implies wf_step(#[trigger] kept[i]) by {
                let j = choose|j: int| 0 <= j < steps.len() && kept[i] == steps[j];
            }
        }
        assert forall|i: int|
            0 <= i < kept.len() implies is_decode_step(#[trigger] kept[i], threshold) by {
            if i < kept_dl.len() {
                assert(is_decode_step(kept_dl[i], threshold));
            } else {
                assert(kept[i] == steps.last());
            }
        }
        assert forall|j: int|
            0 <= j < steps.len() && is_decode_step(#[trigger] steps[j], threshold) implies
            kept.contains(steps[j]) by {
            if j < steps.len() - 1 {
                assert(dl[j] == steps[j]);
                assert(kept_dl.contains(dl[j]));
                let i = choose|i: int| 0 <= i < kept_dl.len() && kept_dl[i] == dl[j];
                assert(kept[i] == kept_dl[i]);
            } else {
                assert(kept.last() == steps.last());
            }
        }
        if steps_sorted(steps) {
            if is_decode_step(steps.last(), threshold) {
                assert forall|i: int, j: int|
                    0 <= i < j < kept.len() implies #[trigger] kept[i].start_time
                    <= #[trigger] kept[j].start_time by {
                    if j < kept_dl.len() {
                    } else {
                        assert(kept[j] == steps.last());
                        if i < kept_dl.len() {
                            let x = choose|x: int| 0 <= x < dl.len() && kept_dl[i] == dl[x];
                            assert(steps[x].start_time <= steps.last().start_time);
                        }
                    }
                }
            }
        }
    }
}

/// The filter keeps nothing exactly when no step is within the
/// threshold.
pub proof fn lemma_decode_empty_iff(steps: Seq<StepView>, threshold: int)
    ensures
        decode_steps(steps, threshold).len() == 0 <==> (forall|i: int|
            0 <= i < steps.len() ==> !is_decode_step(#[trigger] steps[i], threshold)),
    decreases steps.len(),
{
    if steps.len() > 0 {
        let dl = steps.drop_last();
        lemma_decode_empty_iff(dl, threshold);
        if decode_steps(steps, threshold).len() == 0 {
            assert forall|i: int|
                0 <= i < steps.len() implies !is_decode_step(#[trigger] steps[i], threshold) by {
                if i < steps.len() - 1 {
                    assert(dl[i] == steps[i]);
                    assert(!is_decode_step(dl[i], threshold));
                }
            }
        } else {
            if is_decode_step(steps.last(), threshold) {
                assert(steps[steps.len() - 1] == steps.last());
            } else {
                let i = choose|i: int| 0 <= i < dl.len() && is_decode_step(dl[i], threshold);
                assert(steps[i] == dl[i]);
            }
        }
    }
}

/// Exceeding the threshold everywhere is a property of the steps as a
/// multiset, not of their order.
pub proof fn lemma_no_decode_perm(a: Seq<StepView>, b: Seq<StepView>, threshold: int)
    requires
        a.to_multiset() == b.to_multiset(),
        forall|i: int| 0 <= i < a.len() ==> !is_decode_step(#[trigger] a[i], threshold),
    ensures
        forall|i: int| 0 <= i < b.len() ==> !is_decode_step(#[trigger] b[i], threshold),
{
    broadcast use group_to_multiset_ensures;
    broadcast use vstd::multiset::group_multiset_axioms;

    assert forall|i: int|
        0 <= i < b.len() implies !is_decode_step(#[trigger] b[i], threshold) by {
        assert(b.contains(b[i]));
        assert(b.to_multiset().count(b[i]) > 0);
        assert(a.contains(b[i]));
        let j = choose|j: int| 0 <= j < a.len() && a[j] == b[i];
        assert(!is_decode_step(a[j], threshold));
    }
}

/// A permutation has the same members: every element of one sequence
/// occurs in the other.
pub proof fn lemma_perm_index<A>(a: Seq<A>, b: Seq<A>, i: int)
    requires
        a.to_multiset() == b.to_multiset(),
        0 <= i < a.len(),
    ensures
        exists|j: int| 0 <= j < b.len() && b[j] == a[i],
{
    broadcast use group_to_multiset_ensures;
    broadcast use vstd::multiset::group_multiset_axioms;

    assert(a.contains(a[i]));
    assert(a.to_multiset().count(a[i]) > 0);
    assert(b.contains(a[i]));
    let j = choose|j: int| 0 <= j < b.len() && b[j] == a[i];
}

/// The outcome of one analysis run: the aggregation summary together
/// with the pipeline's queryable counts, and, for specification
/// purposes, the intermediate sequences the run worked on.
pub struct AnalysisResult {
    pub summary: ProfileStatsSummary,
    pub step_count: usize,
    pub operation_count: usize,
    pub filtered_step_count: usize,
    pub decode_step_count: usize,
    pub sorted_steps: Ghost<Seq<StepView>>,
    pub sorted_ops: Ghost<Seq<OpView>>,
    pub step_sequences: Ghost<Seq<Seq<OpView>>>,
}

/// Runs the whole cross-step statistics pipeline over typed events.
/// `trim_start_kernel` optionally names the anchor operation each step
/// is re-based at; `decode_max_duration` is the step-duration threshold
/// in the same ticks as the event timestamps.
pub fn analyze_profile_stats(
    events: &Vec<TraceEvent>,
    trim_start_kernel: Option<&str>,
    decode_max_duration: u64,
) -> (r: Result<AnalysisResult, AnalysisError>)
    ensures
        ({
            let evs = events.deep_view();
            let steps0 = collected_steps(evs);
            let ops0 = collected_ops(evs);
            &&& (r == Err::<AnalysisResult, AnalysisError>(AnalysisError::NoProfileSteps) <==> steps0.len() == 0)
            &&& (r matches Err(e) ==> e != AnalysisError::NoStepData)
            &&& (r == Err::<AnalysisResult, AnalysisError>(AnalysisError::NoDecodeSteps)
                <==> steps0.len() > 0 && (forall|i: int|
                0 <= i < steps0.len() ==> !is_decode_step(
                    #[trigger] steps0[i],
                    decode_max_duration as int,
                )))
            &&& (r == Err::<AnalysisResult, AnalysisError>(AnalysisError::AllStepsEmpty) <==> {
                &&& steps0.len() > 0
                &&& exists|i: int|
                    0 <= i < steps0.len() && is_decode_step(
                        #[trigger] steps0[i],
                        decode_max_duration as int,
                    )
                &&& forall|i: int, j: int|
                    0 <= i < steps0.len() && is_decode_step(
                        #[trigger] steps0[i],
                        decode_max_duration as int,
                    ) && 0 <= j < ops0.len() ==> !op_contained(#[trigger] ops0[j], steps0[i])
            })
            &&& (r matches Ok(a) ==> {
                let ss = a.sorted_steps@;
                let so = a.sorted_ops@;
                let kept = decode_steps(ss, decode_max_duration as int);
                let qq = a.step_sequences@;
                &&& a.step_count == steps0.len()
                &&& a.operation_count == ops0.len()
                &&& ss == spec_sort_steps(steps0)
                &&& so == spec_sort_ops(ops0)
                &&& steps_sorted(ss)
                &&& ss.to_multiset() == steps0.to_multiset()
                &&& ops_sorted(so)
                &&& so.to_multiset() == ops0.to_multiset()
                &&& a.decode_step_count == kept.len()
                &&& a.decode_step_count >= 1
                &&& a.filtered_step_count + a.decode_step_count == steps0.len()
                &&& qq.len() == kept.len()
                &&& (forall|k: int|
                    0 <= k < kept.len() && trim_start_kernel is None ==> #[trigger] qq[k]
                        == step_segment(kept[k], so))
                &&& (forall|k: int|
                    trim_start_kernel matches Some(an) ==> (0 <= k < kept.len()
                        ==> #[trigger] qq[k] == trimmed(step_segment(kept[k], so), an@)))
                &&& is_best_length(qq, a.summary.reference_length as int)
                &&& a.summary.reference_tally == length_tally(qq, a.summary.reference_length as int)
                &&& is_first_of_length(
                    qq,
                    a.summary.reference_length as int,
                    a.summary.reference_index as int,
                )
                &&& a.summary.matched_step_count == match_count(
                    qq,
                    qq[a.summary.reference_index as int],
                )
                &&& a.summary.matched_step_count >= 1
                &&& a.summary.count_mismatch_steps == count_mismatch_count(
                    qq,
                    qq[a.summary.reference_index as int],
                )
                &&& a.summary.name_mismatch_steps == name_mismatch_count(
                    qq,
                    qq[a.summary.reference_index as int],
                )
                &&& a.summary.records.deep_view().len() == a.summary.reference_length
                &&& (forall|i: int|
                    0 <= i < a.summary.reference_length ==> record_matches(
                        #[trigger] a.summary.records.deep_view()[i],
                        qq,
                        qq[a.summary.reference_index as int],
                        i,
                    ))
            })
        }),
{
    let ghost evs = events.deep_view();
    let (profile_steps, gpu_operations) = collect_events(events);
    let step_count = profile_steps.len();
    let operation_count = gpu_operations.len();
    proof {
        lemma_collected_steps_wf(evs);
        lemma_collected_ops_wf(evs);
    }
    if step_count == 0 {
        return Err(AnalysisError::NoProfileSteps);
    }

    let profile_steps = sort_steps_by_start(profile_steps);
    let gpu_operations = sort_ops_by_start(gpu_operations);
    let ghost sorted_steps = profile_steps.deep_view();
    let ghost sorted_ops = gpu_operations.deep_view();
    proof {
        lemma_wf_steps_perm(collected_steps(evs), sorted_steps);
        lemma_wf_ops_perm(collected_ops(evs), sorted_ops);
        lemma_decode_steps_facts(sorted_steps, decode_max_duration as int);
    }

    let profile_steps = filter_decode_steps(profile_steps, decode_max_duration);
    let ghost kept = profile_steps.deep_view();
    proof {
        assert(wf_steps(kept));
    }
    let decode_step_count = profile_steps.len();
    let filtered_step_count = step_count - decode_step_count;
    if decode_step_count == 0 {
        proof {
            lemma_decode_empty_iff(sorted_steps, decode_max_duration as int);
            lemma_no_decode_perm(
                sorted_steps,
                collected_steps(evs),
                decode_max_duration as int,
            );
        }
        return Err(AnalysisError::NoDecodeSteps);
    }
    proof {
        assert(!(forall|i: int|
            0 <= i < collected_steps(evs).len() ==> !is_decode_step(
                #[trigger] collected_steps(evs)[i],
                decode_max_duration as int,
            ))) by {
            if forall|i: int|
                0 <= i < collected_steps(evs).len() ==> !is_decode_step(
                    #[trigger] collected_steps(evs)[i],
                    decode_max_duration as int,
                ) {
                lemma_no_decode_perm(
                    collected_steps(evs),
                    sorted_steps,
                    decode_max_duration as int,
                );
                lemma_decode_empty_iff(sorted_steps, decode_max_duration as int);
            }
        }
    }

    let mut step_sequences: Vec<Vec<GpuOperation>> = Vec::new();
    let mut k: usize = 0;
    while k < profile_steps.len()
        invariant
            k <= profile_steps.len(),
            kept == profile_steps.deep_view(),
            kept.len() == profile_steps.len(),
            sorted_ops == gpu_operations.deep_view(),
            wf_ops(sorted_ops),
            ops_sorted(sorted_ops),
            wf_steps(kept),
            step_sequences.deep_view().len() == k,
            forall|x: int|
                0 <= x < k && trim_start_kernel is None ==> #[trigger] step_sequences.deep_view()[x]
                    == step_segment(kept[x], sorted_ops),
            forall|x: int|
                trim_start_kernel matches Some(an) ==> (0 <= x < k
                    ==> #[trigger] step_sequences.deep_view()[x] == trimmed(
                    step_segment(kept[x], sorted_ops),
                    an@,
                )),
        decreases profile_steps.len() - k,
    {
        let step = &profile_steps[k];
        proof {
            assert(step.deep_view() == kept[k as int]);
        }
        let seq = collect_step_operations(step, &gpu_operations);
        proof {
            lemma_segment_sorted(kept[k as int], sorted_ops);
        }
        let seq = match trim_start_kernel {
            Some(anchor) => {
                proof {
                    lemma_wf_segment(kept[k as int], sorted_ops);
                }
                trim_to_anchor(seq, anchor)
            },
            None => seq,
        };
        let ghost old_dv = step_sequences.deep_view();
        let ghost new_item = seq.deep_view();
        step_sequences.push(seq);
        proof {
            assert(step_sequences.deep_view() =~= old_dv.push(new_item));
        }
        k = k + 1;
    }

    let summary = match calculate_average_stats(&step_sequences) {
        Ok(s) => s,
        Err(e) => {
            proof {
                assert(e == AnalysisError::AllStepsEmpty);
                let qq = step_sequences.deep_view();
                assert forall|x: int|
                    0 <= x < kept.len() implies (#[trigger] step_segment(kept[x], sorted_ops)).len()
                    == 0 by {
                    match trim_start_kernel {
                        Some(an) => {
                            assert(qq[x] == trimmed(step_segment(kept[x], sorted_ops), an@));
                            assert(qq[x].len() == 0);
                            lemma_trimmed_empty(step_segment(kept[x], sorted_ops), an@);
                        },
                        None => {
                            assert(qq[x] == step_segment(kept[x], sorted_ops));
                        },
                    }
                }
                let steps0 = collected_steps(evs);
                let ops0 = collected_ops(evs);
                let d = decode_max_duration as int;
                assert(kept.len() > 0);
                assert(is_decode_step(kept[0], d));
                let j0 = choose|j: int| 0 <= j < sorted_steps.len() && kept[0] == sorted_steps[j];
                lemma_perm_index(sorted_steps, steps0, j0);
                let w = choose|w: int| 0 <= w < steps0.len() && steps0[w] == sorted_steps[j0];
                assert(is_decode_step(steps0[w], d));
                assert forall|i: int, j: int|
                    0 <= i < steps0.len() && is_decode_step(#[trigger] steps0[i], d) && 0 <= j
                        < ops0.len() implies !op_contained(#[trigger] ops0[j], steps0[i]) by {
                    lemma_perm_index(steps0, sorted_steps, i);
                    let x = choose|x: int|
                        0 <= x < sorted_steps.len() && sorted_steps[x] == steps0[i];
                    assert(kept.contains(sorted_steps[x]));
                    let kx = choose|kx: int| 0 <= kx < kept.len() && kept[kx] == steps0[i];
                    assert(step_segment(kept[kx], sorted_ops).len() == 0);
                    lemma_segment_empty_iff(kept[kx], sorted_ops);
                    lemma_perm_index(ops0, sorted_ops, j);
                    let y = choose|y: int|
                        0 <= y < sorted_ops.len() && sorted_ops[y] == ops0[j];
                    assert(!op_contained(sorted_ops[y], kept[kx]));
                }
            }
            return Err(AnalysisError::AllStepsEmpty);
        },
    };
    proof {
        let steps0 = collected_steps(evs);
        let ops0 = collected_ops(evs);
        let d = decode_max_duration as int;
        let qq = step_sequences.deep_view();
        assert(!({
            &&& steps0.len() > 0
            &&& exists|i: int| 0 <= i < steps0.len() && is_decode_step(#[trigger] steps0[i], d)
            &&& forall|i: int, j: int|
                0 <= i < steps0.len() && is_decode_step(#[trigger] steps0[i], d) && 0 <= j
                    < ops0.len() ==> !op_contained(#[trigger] ops0[j], steps0[i])
        })) by {
            if {
                &&& steps0.len() > 0
                &&& exists|i: int| 0 <= i < steps0.len() && is_decode_step(#[trigger] steps0[i], d)
                &&& forall|i: int, j: int|
                    0 <= i < steps0.len() && is_decode_step(#[trigger] steps0[i], d) && 0 <= j
                        < ops0.len() ==> !op_contained(#[trigger] ops0[j], steps0[i])
            } {
                lemma_tally_occurs(qq, summary.reference_length as int);
                let kx = choose|kx: int|
                    0 <= kx < qq.len() && (#[trigger] qq[kx]).len()
                        == summary.reference_length as int;
                assert(step_segment(kept[kx], sorted_ops).len() > 0) by {
                    match trim_start_kernel {
                        Some(an) => {
                            assert(qq[kx] == trimmed(step_segment(kept[kx], sorted_ops), an@));
                            lemma_trimmed_empty(step_segment(kept[kx], sorted_ops), an@);
                        },
                        None => {
                            assert(qq[kx] == step_segment(kept[kx], sorted_ops));
                        },
                    }
                }
                lemma_segment_empty_iff(kept[kx], sorted_ops);
                let y = choose|y: int|
                    0 <= y < sorted_ops.len() && op_contained(#[trigger] sorted_ops[y], kept[kx]);
                assert(is_decode_step(kept[kx], d));
                let x = choose|x: int|
                    0 <= x < sorted_steps.len() && kept[kx] == sorted_steps[x];
                lemma_perm_index(sorted_steps, steps0, x);
                let i0 = choose|i0: int|
                    0 <= i0 < steps0.len() && steps0[i0] == sorted_steps[x];
                lemma_perm_index(sorted_ops, ops0, y);
                let j0 = choose|j0: int| 0 <= j0 < ops0.len() && ops0[j0] == sorted_ops[y];
                assert(op_contained(ops0[j0], steps0[i0]));
                assert(false);
            }
        }
    }

    Ok(
        AnalysisResult {
            summary,
            step_count,
            operation_count,
            filtered_step_count,
            decode_step_count,
            sorted_steps: Ghost(sorted_steps),
            sorted_ops: Ghost(sorted_ops),
            step_sequences: Ghost(step_sequences.deep_view()),
        },
    )
}

/// A segment of well-formed operations inside a well-formed step is
/// well formed.
pub proof fn lemma_wf_segment(st: StepView, ops: Seq<OpView>)
    requires
        wf_ops(ops),
        wf_step(st),
    ensures
        wf_ops(step_segment(st, ops)),
{
    lemma_segment_relative_bounds(st, ops);
    let seg = step_segment(st, ops);
    assert forall|i: int| 0 <= i < seg.len() implies wf_op(#[trigger] seg[i]) by {
        assert(0 <= seg[i].start_time <= seg[i].end_time <= st.end_time - st.start_time);
    }
}

/// A trimmed sequence is empty exactly when the sequence was empty.
pub proof fn lemma_trimmed_empty(ops: Seq<OpView>, anchor: Seq<char>)
    ensures
        trimmed(ops, anchor).len() == 0 <==> ops.len() == 0,
{
    if crate::segment::has_anchor(ops, anchor) {
        let k = choose|k: int| crate::segment::is_first_anchor(ops, anchor, k);
    }
}

} // verus!
