//! Sorting by start time.
//!
//! Steps and operations are ordered ascending by start time before
//! segmentation.  The contracts pin the exact result: the specification
//! sorts by repeatedly taking the first minimum, so records with equal
//! start times keep their input order (a stable, deterministic
//! tie-break).

use vstd::prelude::*;
use vstd::multiset::Multiset;
use vstd::seq_lib::group_to_multiset_ensures;

use crate::model::{GpuOperation, KernelRecord, KernelView, OpView, ProfileStep, StepView};

verus! {

pub open spec fn steps_sorted(s: Seq<StepView>) -> bool {
    forall|i: int, j: int|
        0 <= i < j < s.len() ==> #[trigger] s[i].start_time <= #[trigger] s[j].start_time
}

pub open spec fn ops_sorted(s: Seq<OpView>) -> bool {
    forall|i: int, j: int|
        0 <= i < j < s.len() ==> #[trigger] s[i].start_time <= #[trigger] s[j].start_time
}

pub open spec fn kernels_sorted(s: Seq<KernelView>) -> bool {
    forall|i: int, j: int|
        0 <= i < j < s.len() ==> #[trigger] s[i].start_time_us <= #[trigger] s[j].start_time_us
}

/// `k` is the position of the first minimum of `s` by start time.
pub open spec fn is_first_min_step(s: Seq<StepView>, k: int) -> bool {
    &&& 0 <= k < s.len()
    &&& forall|j: int| 0 <= j < s.len() ==> s[k].start_time <= (#[trigger] s[j]).start_time
    &&& forall|j: int| 0 <= j < k ==> (#[trigger] s[j]).start_time > s[k].start_time
}

/// The first minimum is unique.
pub proof fn lemma_first_min_step_unique(s: Seq<StepView>, k1: int, k2: int)
    requires
        is_first_min_step(s, k1),
        is_first_min_step(s, k2),
    ensures
        k1 == k2,
{
    if k1 < k2 {
        assert(s[k1].start_time > s[k2].start_time);
        assert(s[k1].start_time <= s[k2].start_time);
        assert(false);
    }
    if k2 < k1 {
        assert(s[k2].start_time > s[k1].start_time);
        assert(s[k2].start_time <= s[k1].start_time);
        assert(false);
    }
}

/// The sorted image of `s`: repeatedly take the first minimum.  Equal
/// start times keep their input order.
pub open spec fn spec_sort_steps(s: Seq<StepView>) -> Seq<StepView>
    decreases s.len(),
{
    if s.len() == 0 {
        Seq::empty()
    } else {
        let k = choose|k: int| is_first_min_step(s, k);
        if is_first_min_step(s, k) {
            seq![s[k]] + spec_sort_steps(s.remove(k))
        } else {
            s
        }
    }
}

/// Sorts step markers ascending by start time; stable and deterministic.
pub fn sort_steps_by_start(v: Vec<ProfileStep>) -> (r: Vec<ProfileStep>)
    ensures
        r.deep_view() == spec_sort_steps(v.deep_view()),
        steps_sorted(r.deep_view()),
        r.deep_view().to_multiset() == v.deep_view().to_multiset(),
        r.len() == v.len(),
{
    let ghost orig = v.deep_view();
    let mut rest = v;
    let mut out: Vec<ProfileStep> = Vec::new();
    proof {
        broadcast use group_to_multiset_ensures;
        broadcast use vstd::multiset::group_multiset_axioms;

        assert(out.deep_view() =~= Seq::<StepView>::empty());
        assert(out.deep_view().to_multiset() =~= Multiset::<StepView>::empty());
        assert(out.deep_view().to_multiset().add(rest.deep_view().to_multiset())
            =~= rest.deep_view().to_multiset());
        assert(out.deep_view() + spec_sort_steps(rest.deep_view())
            =~= spec_sort_steps(orig));
    }
    while rest.len() > 0
        invariant
            out.deep_view().to_multiset().add(rest.deep_view().to_multiset())
                == orig.to_multiset(),
            out.deep_view().len() + rest.deep_view().len() == orig.len(),
            out.deep_view() + spec_sort_steps(rest.deep_view()) == spec_sort_steps(orig),
            steps_sorted(out.deep_view()),
            forall|i: int, j: int|
                0 <= i < out.deep_view().len() && 0 <= j < rest.deep_view().len()
                    ==> #[trigger] out.deep_view()[i].start_time
                    <= #[trigger] rest.deep_view()[j].start_time,
        decreases rest.len(),
    {
        let mut m: usize = 0;
        let mut k: usize = 1;
        while k < rest.len()
            invariant
                rest.len() > 0,
                m < k <= rest.len(),
                forall|j: int|
                    0 <= j < k ==> rest.deep_view()[m as int].start_time
                        <= #[trigger] rest.deep_view()[j].start_time,
                forall|j: int|
                    0 <= j < m ==> (#[trigger] rest.deep_view()[j]).start_time
                        > rest.deep_view()[m as int].start_time,
            decreases rest.len() - k,
        {
            if rest[k].start_time < rest[m].start_time {
                m = k;
            }
            k = k + 1;
        }
        let ghost old_out = out.deep_view();
        let ghost old_rest = rest.deep_view();
        proof {
            assert(is_first_min_step(old_rest, m as int));
            let c = choose|c: int| is_first_min_step(old_rest, c);
            lemma_first_min_step_unique(old_rest, c, m as int);
            assert(spec_sort_steps(old_rest) == seq![old_rest[m as int]] + spec_sort_steps(
                old_rest.remove(m as int),
            ));
        }
        let x = rest.remove(m);
        let ghost xdv = x.deep_view();
        out.push(x);
        proof {
            broadcast use group_to_multiset_ensures;
            broadcast use vstd::multiset::group_multiset_axioms;

            assert(xdv == old_rest[m as int]);
            assert(old_rest.contains(old_rest[m as int]));
            assert(old_rest.to_multiset().count(xdv) > 0);
            assert(out.deep_view() =~= old_out.push(xdv));
            assert(rest.deep_view() =~= old_rest.remove(m as int));
            assert(out.deep_view().to_multiset().add(rest.deep_view().to_multiset())
                =~= orig.to_multiset());
            assert(out.deep_view() + spec_sort_steps(rest.deep_view()) =~= old_out
                + spec_sort_steps(old_rest));
            assert forall|i: int, j: int|
                0 <= i < out.deep_view().len() && 0 <= j
                    < rest.deep_view().len() implies #[trigger] out.deep_view()[i].start_time
                <= #[trigger] rest.deep_view()[j].start_time by {
                if j < m {
                    assert(rest.deep_view()[j] == old_rest[j]);
                } else {
                    assert(rest.deep_view()[j] == old_rest[j + 1]);
                }
            }
        }
    }
    proof {
        broadcast use group_to_multiset_ensures;
        broadcast use vstd::multiset::group_multiset_axioms;

        assert(rest.deep_view().to_multiset() =~= Multiset::empty());
        assert(out.deep_view().to_multiset() =~= orig.to_multiset());
        assert(out.deep_view() + spec_sort_steps(rest.deep_view()) =~= out.deep_view());
    }
    out
}

/// `k` is the position of the first minimum of `s` by start time.
pub open spec fn is_first_min_op(s: Seq<OpView>, k: int) -> bool {
    &&& 0 <= k < s.len()
    &&& forall|j: int| 0 <= j < s.len() ==> s[k].start_time <= (#[trigger] s[j]).start_time
    &&& forall|j: int| 0 <= j < k ==> (#[trigger] s[j]).start_time > s[k].start_time
}

/// The first minimum is unique.
pub proof fn lemma_first_min_op_unique(s: Seq<OpView>, k1: int, k2: int)
    requires
        is_first_min_op(s, k1),
        is_first_min_op(s, k2),
    ensures
        k1 == k2,
{
    if k1 < k2 {
        assert(s[k1].start_time > s[k2].start_time);
        assert(s[k1].start_time <= s[k2].start_time);
        assert(false);
    }
    if k2 < k1 {
        assert(s[k2].start_time > s[k1].start_time);
        assert(s[k2].start_time <= s[k1].start_time);
        assert(false);
    }
}

/// The sorted image of `s`: repeatedly take the first minimum.  Equal
/// start times keep their input order.
pub open spec fn spec_sort_ops(s: Seq<OpView>) -> Seq<OpView>
    decreases s.len(),
{
    if s.len() == 0 {
        Seq::empty()
    } else {
        let k = choose|k: int| is_first_min_op(s, k);
        if is_first_min_op(s, k) {
            seq![s[k]] + spec_sort_ops(s.remove(k))
        } else {
            s
        }
    }
}

/// Sorts device operations ascending by start time; stable and deterministic.
pub fn sort_ops_by_start(v: Vec<GpuOperation>) -> (r: Vec<GpuOperation>)
    ensures
        r.deep_view() == spec_sort_ops(v.deep_view()),
        ops_sorted(r.deep_view()),
        r.deep_view().to_multiset() == v.deep_view().to_multiset(),
        r.len() == v.len(),
{
    let ghost orig = v.deep_view();
    let mut rest = v;
    let mut out: Vec<GpuOperation> = Vec::new();
    proof {
        broadcast use group_to_multiset_ensures;
        broadcast use vstd::multiset::group_multiset_axioms;

        assert(out.deep_view() =~= Seq::<OpView>::empty());
        assert(out.deep_view().to_multiset() =~= Multiset::<OpView>::empty());
        assert(out.deep_view().to_multiset().add(rest.deep_view().to_multiset())
            =~= rest.deep_view().to_multiset());
        assert(out.deep_view() + spec_sort_ops(rest.deep_view())
            =~= spec_sort_ops(orig));
    }
    while rest.len() > 0
        invariant
            out.deep_view().to_multiset().add(rest.deep_view().to_multiset())
                == orig.to_multiset(),
            out.deep_view().len() + rest.deep_view().len() == orig.len(),
            out.deep_view() + spec_sort_ops(rest.deep_view()) == spec_sort_ops(orig),
            ops_sorted(out.deep_view()),
            forall|i: int, j: int|
                0 <= i < out.deep_view().len() && 0 <= j < rest.deep_view().len()
                    ==> #[trigger] out.deep_view()[i].start_time
                    <= #[trigger] rest.deep_view()[j].start_time,
        decreases rest.len(),
    {
        let mut m: usize = 0;
        let mut k: usize = 1;
        while k < rest.len()
            invariant
                rest.len() > 0,
                m < k <= rest.len(),
                forall|j: int|
                    0 <= j < k ==> rest.deep_view()[m as int].start_time
                        <= #[trigger] rest.deep_view()[j].start_time,
                forall|j: int|
                    0 <= j < m ==> (#[trigger] rest.deep_view()[j]).start_time
                        > rest.deep_view()[m as int].start_time,
            decreases rest.len() - k,
        {
            if rest[k].start_time < rest[m].start_time {
                m = k;
            }
            k = k + 1;
        }
        let ghost old_out = out.deep_view();
        let ghost old_rest = rest.deep_view();
        proof {
            assert(is_first_min_op(old_rest, m as int));
            let c = choose|c: int| is_first_min_op(old_rest, c);
            lemma_first_min_op_unique(old_rest, c, m as int);
            assert(spec_sort_ops(old_rest) == seq![old_rest[m as int]] + spec_sort_ops(
                old_rest.remove(m as int),
            ));
        }
        let x = rest.remove(m);
        let ghost xdv = x.deep_view();
        out.push(x);
        proof {
            broadcast use group_to_multiset_ensures;
            broadcast use vstd::multiset::group_multiset_axioms;

            assert(xdv == old_rest[m as int]);
            assert(old_rest.contains(old_rest[m as int]));
            assert(old_rest.to_multiset().count(xdv) > 0);
            assert(out.deep_view() =~= old_out.push(xdv));
            assert(rest.deep_view() =~= old_rest.remove(m as int));
            assert(out.deep_view().to_multiset().add(rest.deep_view().to_multiset())
                =~= orig.to_multiset());
            assert(out.deep_view() + spec_sort_ops(rest.deep_view()) =~= old_out
                + spec_sort_ops(old_rest));
            assert forall|i: int, j: int|
                0 <= i < out.deep_view().len() && 0 <= j
                    < rest.deep_view().len() implies #[trigger] out.deep_view()[i].start_time
                <= #[trigger] rest.deep_view()[j].start_time by {
                if j < m {
                    assert(rest.deep_view()[j] == old_rest[j]);
                } else {
                    assert(rest.deep_view()[j] == old_rest[j + 1]);
                }
            }
        }
    }
    proof {
        broadcast use group_to_multiset_ensures;
        broadcast use vstd::multiset::group_multiset_axioms;

        assert(rest.deep_view().to_multiset() =~= Multiset::empty());
        assert(out.deep_view().to_multiset() =~= orig.to_multiset());
        assert(out.deep_view() + spec_sort_ops(rest.deep_view()) =~= out.deep_view());
    }
    out
}

/// `k` is the position of the first minimum of `s` by start time.
pub open spec fn is_first_min_kernel(s: Seq<KernelView>, k: int) -> bool {
    &&& 0 <= k < s.len()
    &&& forall|j: int| 0 <= j < s.len() ==> s[k].start_time_us <= (#[trigger] s[j]).start_time_us
    &&& forall|j: int| 0 <= j < k ==> (#[trigger] s[j]).start_time_us > s[k].start_time_us
}

/// The first minimum is unique.
pub proof fn lemma_first_min_kernel_unique(s: Seq<KernelView>, k1: int, k2: int)
    requires
        is_first_min_kernel(s, k1),
        is_first_min_kernel(s, k2),
    ensures
        k1 == k2,
{
    if k1 < k2 {
        assert(s[k1].start_time_us > s[k2].start_time_us);
        assert(s[k1].start_time_us <= s[k2].start_time_us);
        assert(false);
    }
    if k2 < k1 {
        assert(s[k2].start_time_us > s[k1].start_time_us);
        assert(s[k2].start_time_us <= s[k1].start_time_us);
        assert(false);
    }
}

/// The sorted image of `s`: repeatedly take the first minimum.  Equal
/// start times keep their input order.
pub open spec fn spec_sort_kernels(s: Seq<KernelView>) -> Seq<KernelView>
    decreases s.len(),
{
    if s.len() == 0 {
        Seq::empty()
    } else {
        let k = choose|k: int| is_first_min_kernel(s, k);
        if is_first_min_kernel(s, k) {
            seq![s[k]] + spec_sort_kernels(s.remove(k))
        } else {
            s
        }
    }
}

/// Sorts extracted kernel records ascending by start time; stable and deterministic.
pub fn sort_kernels_by_start(v: Vec<KernelRecord>) -> (r: Vec<KernelRecord>)
    ensures
        r.deep_view() == spec_sort_kernels(v.deep_view()),
        kernels_sorted(r.deep_view()),
        r.deep_view().to_multiset() == v.deep_view().to_multiset(),
        r.len() == v.len(),
{
    let ghost orig = v.deep_view();
    let mut rest = v;
    let mut out: Vec<KernelRecord> = Vec::new();
    proof {
        broadcast use group_to_multiset_ensures;
        broadcast use vstd::multiset::group_multiset_axioms;

        assert(out.deep_view() =~= Seq::<KernelView>::empty());
        assert(out.deep_view().to_multiset() =~= Multiset::<KernelView>::empty());
        assert(out.deep_view().to_multiset().add(rest.deep_view().to_multiset())
            =~= rest.deep_view().to_multiset());
        assert(out.deep_view() + spec_sort_kernels(rest.deep_view())
            =~= spec_sort_kernels(orig));
    }
    while rest.len() > 0
        invariant
            out.deep_view().to_multiset().add(rest.deep_view().to_multiset())
                == orig.to_multiset(),
            out.deep_view().len() + rest.deep_view().len() == orig.len(),
            out.deep_view() + spec_sort_kernels(rest.deep_view()) == spec_sort_kernels(orig),
            kernels_sorted(out.deep_view()),
            forall|i: int, j: int|
                0 <= i < out.deep_view().len() && 0 <= j < rest.deep_view().len()
                    ==> #[trigger] out.deep_view()[i].start_time_us
                    <= #[trigger] rest.deep_view()[j].start_time_us,
        decreases rest.len(),
    {
        let mut m: usize = 0;
        let mut k: usize = 1;
        while k < rest.len()
            invariant
                rest.len() > 0,
                m < k <= rest.len(),
                forall|j: int|
                    0 <= j < k ==> rest.deep_view()[m as int].start_time_us
                        <= #[trigger] rest.deep_view()[j].start_time_us,
                forall|j: int|
                    0 <= j < m ==> (#[trigger] rest.deep_view()[j]).start_time_us
                        > rest.deep_view()[m as int].start_time_us,
            decreases rest.len() - k,
        {
            if rest[k].start_time_us < rest[m].start_time_us {
                m = k;
            }
            k = k + 1;
        }
        let ghost old_out = out.deep_view();
        let ghost old_rest = rest.deep_view();
        proof {
            assert(is_first_min_kernel(old_rest, m as int));
            let c = choose|c: int| is_first_min_kernel(old_rest, c);
            lemma_first_min_kernel_unique(old_rest, c, m as int);
            assert(spec_sort_kernels(old_rest) == seq![old_rest[m as int]] + spec_sort_kernels(
                old_rest.remove(m as int),
            ));
        }
        let x = rest.remove(m);
        let ghost xdv = x.deep_view();
        out.push(x);
        proof {
            broadcast use group_to_multiset_ensures;
            broadcast use vstd::multiset::group_multiset_axioms;

            assert(xdv == old_rest[m as int]);
            assert(old_rest.contains(old_rest[m as int]));
            assert(old_rest.to_multiset().count(xdv) > 0);
            assert(out.deep_view() =~= old_out.push(xdv));
            assert(rest.deep_view() =~= old_rest.remove(m as int));
            assert(out.deep_view().to_multiset().add(rest.deep_view().to_multiset())
                =~= orig.to_multiset());
            assert(out.deep_view() + spec_sort_kernels(rest.deep_view()) =~= old_out
                + spec_sort_kernels(old_rest));
            assert forall|i: int, j: int|
                0 <= i < out.deep_view().len() && 0 <= j
                    < rest.deep_view().len() implies #[trigger] out.deep_view()[i].start_time_us
                <= #[trigger] rest.deep_view()[j].start_time_us by {
                if j < m {
                    assert(rest.deep_view()[j] == old_rest[j]);
                } else {
                    assert(rest.deep_view()[j] == old_rest[j + 1]);
                }
            }
        }
    }
    proof {
        broadcast use group_to_multiset_ensures;
        broadcast use vstd::multiset::group_multiset_axioms;

        assert(rest.deep_view().to_multiset() =~= Multiset::empty());
        assert(out.deep_view().to_multiset() =~= orig.to_multiset());
        assert(out.deep_view() + spec_sort_kernels(rest.deep_view()) =~= out.deep_view());
    }
    out
}

} // verus!
