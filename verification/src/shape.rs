//! Representative-shape selection.
//!
//! Across all non-empty per-step sequences, the operation count that
//! occurs most often wins; ties go to the smallest count.  The reference
//! sequence is the first step whose sequence has the winning length.

use vstd::prelude::*;

use crate::model::{GpuOperation, OpView};

verus! {

/// How many step sequences have exactly `len` operations.
pub open spec fn length_tally(seqs: Seq<Seq<OpView>>, len: int) -> nat
    decreases seqs.len(),
{
    if seqs.len() == 0 {
        0
    } else {
        length_tally(seqs.drop_last(), len) + if seqs.last().len() == len {
            1nat
        } else {
            0nat
        }
    }
}

/// `len` is the representative operation count: it occurs, no other
/// positive count occurs more often, and among equally frequent counts it
/// is the smallest.
pub open spec fn is_best_length(seqs: Seq<Seq<OpView>>, len: int) -> bool {
    &&& len >= 1
    &&& length_tally(seqs, len) >= 1
    &&& forall|l2: int| l2 >= 1 ==> #[trigger] length_tally(seqs, l2) <= length_tally(seqs, len)
    &&& forall|l2: int|
        l2 >= 1 && #[trigger] length_tally(seqs, l2) == length_tally(seqs, len) ==> len <= l2
}

/// `k` is the position of the first sequence of length `len`.
pub open spec fn is_first_of_length(seqs: Seq<Seq<OpView>>, len: int, k: int) -> bool {
    &&& 0 <= k < seqs.len()
    &&& seqs[k].len() == len
    &&& forall|j: int| 0 <= j < k ==> (#[trigger] seqs[j]).len() != len
}

/// The tie-break makes the representative count unique: selection is
/// deterministic, two runs on the same input choose the same length.
pub proof fn lemma_best_length_unique(seqs: Seq<Seq<OpView>>, l1: int, l2: int)
    requires
        is_best_length(seqs, l1),
        is_best_length(seqs, l2),
    ensures
        l1 == l2,
{
    assert(length_tally(seqs, l1) <= length_tally(seqs, l2));
    assert(length_tally(seqs, l2) <= length_tally(seqs, l1));
}

/// The first position of the representative length is unique too, so the
/// reference sequence is determined.
pub proof fn lemma_first_of_length_unique(seqs: Seq<Seq<OpView>>, len: int, k1: int, k2: int)
    requires
        is_first_of_length(seqs, len, k1),
        is_first_of_length(seqs, len, k2),
    ensures
        k1 == k2,
{
    if k1 < k2 {
        assert(seqs[k1].len() != len);
        assert(false);
    }
    if k2 < k1 {
        assert(seqs[k2].len() != len);
        assert(false);
    }
}

/// A length that occurs has a sequence of that length.
pub proof fn lemma_tally_occurs(seqs: Seq<Seq<OpView>>, len: int)
    requires
        length_tally(seqs, len) >= 1,
    ensures
        exists|j: int| 0 <= j < seqs.len() && (#[trigger] seqs[j]).len() == len,
    decreases seqs.len(),
{
    if seqs.len() > 0 {
        if seqs.last().len() == len {
            assert(seqs[seqs.len() - 1].len() == len);
        } else {
            lemma_tally_occurs(seqs.drop_last(), len);
            let j = choose|j: int|
                0 <= j < seqs.drop_last().len() && (#[trigger] seqs.drop_last()[j]).len() == len;
            assert(seqs[j].len() == len);
        }
    }
}

/// A sequence's own length has a positive tally.
pub proof fn lemma_tally_member(seqs: Seq<Seq<OpView>>, j: int)
    requires
        0 <= j < seqs.len(),
    ensures
        length_tally(seqs, seqs[j].len() as int) >= 1,
    decreases seqs.len(),
{
    if j == seqs.len() - 1 {
    } else {
        lemma_tally_member(seqs.drop_last(), j);
        assert(seqs.drop_last()[j] == seqs[j]);
    }
}

/// Counts the step sequences whose length is exactly `len`.
fn tally_of(seqs: &Vec<Vec<GpuOperation>>, len: usize) -> (c: usize)
    ensures
        c == length_tally(seqs.deep_view(), len as int),
{
    let ghost all = seqs.deep_view();
    let mut c: usize = 0;
    let mut i: usize = 0;
    while i < seqs.len()
        invariant
            i <= seqs.len(),
            all == seqs.deep_view(),
            all.len() == seqs.len(),
            c <= i,
            c == length_tally(all.subrange(0, i as int), len as int),
        decreases seqs.len() - i,
    {
        proof {
            assert(all[i as int].len() == seqs@[i as int].deep_view().len());
            let pre = all.subrange(0, i as int);
            let post = all.subrange(0, i as int + 1);
            assert(post.drop_last() =~= pre);
            assert(post.last() == all[i as int]);
        }
        if seqs[i].len() == len {
            c = c + 1;
        }
        i = i + 1;
    }
    proof {
        assert(all.subrange(0, all.len() as int) =~= all);
    }
    c
}

/// Chooses the representative operation count: the one with the highest
/// tally among non-empty sequences, smallest count on ties.  Returns the
/// count and its tally, or nothing when every sequence is empty.
pub fn select_reference_length(seqs: &Vec<Vec<GpuOperation>>) -> (r: Option<(usize, usize)>)
    ensures
        r matches Some(p) ==> is_best_length(seqs.deep_view(), p.0 as int) && p.1
            == length_tally(seqs.deep_view(), p.0 as int),
        r is None <==> (forall|j: int|
            0 <= j < seqs.deep_view().len() ==> (#[trigger] seqs.deep_view()[j]).len() == 0),
{
    let ghost all = seqs.deep_view();
    let mut best: Option<(usize, usize)> = None;
    let mut i: usize = 0;
    while i < seqs.len()
        invariant
            i <= seqs.len(),
            all == seqs.deep_view(),
            all.len() == seqs.len(),
            match best {
                Some(b) => {
                    &&& b.0 >= 1
                    &&& b.1 == length_tally(all, b.0 as int)
                    &&& b.1 >= 1
                    &&& forall|j: int|
                        0 <= j < i && (#[trigger] all[j]).len() >= 1 ==> length_tally(
                            all,
                            all[j].len() as int,
                        ) <= b.1
                    &&& forall|j: int|
                        0 <= j < i && (#[trigger] all[j]).len() >= 1 && length_tally(
                            all,
                            all[j].len() as int,
                        ) == b.1 ==> b.0 <= all[j].len()
                },
                None => forall|j: int| 0 <= j < i ==> (#[trigger] all[j]).len() == 0,
            },
        decreases seqs.len() - i,
    {
        let li = seqs[i].len();
        proof {
            assert(all[i as int].len() == seqs@[i as int].deep_view().len());
        }
        if li > 0 {
            let c = tally_of(seqs, li);
            proof {
                lemma_tally_member(all, i as int);
            }
            let take = match best {
                None => true,
                Some(b) => c > b.1 || (c == b.1 && li < b.0),
            };
            if take {
                best = Some((li, c));
            }
        }
        i = i + 1;
    }
    proof {
        match best {
            None => {},
            Some(b) => {
                lemma_tally_occurs(all, b.0 as int);
                assert(!(forall|j: int|
                    0 <= j < all.len() ==> (#[trigger] all[j]).len() == 0)) by {
                    let j = choose|j: int| 0 <= j < all.len() && (#[trigger] all[j]).len() == b.0;
                }
                assert(is_best_length(all, b.0 as int)) by {
                    assert forall|l2: int| l2 >= 1 implies #[trigger] length_tally(all, l2)
                        <= length_tally(all, b.0 as int) by {
                        if length_tally(all, l2) >= 1 {
                            lemma_tally_occurs(all, l2);
                            let j = choose|j: int|
                                0 <= j < all.len() && (#[trigger] all[j]).len() == l2;
                        }
                    }
                    assert forall|l2: int|
                        l2 >= 1 && #[trigger] length_tally(all, l2) == length_tally(all, b.0 as int)
                        implies b.0 <= l2 by {
                        lemma_tally_occurs(all, l2);
                        let j = choose|j: int| 0 <= j < all.len() && (#[trigger] all[j]).len() == l2;
                    }
                }
            },
        }
    }
    best
}

/// Finds the first step sequence with exactly `len` operations.
pub fn find_first_with_length(seqs: &Vec<Vec<GpuOperation>>, len: usize) -> (r: Option<usize>)
    ensures
        r matches Some(k) ==> is_first_of_length(seqs.deep_view(), len as int, k as int),
        r is None ==> (forall|j: int|
            0 <= j < seqs.deep_view().len() ==> (#[trigger] seqs.deep_view()[j]).len() != len),
{
    let ghost all = seqs.deep_view();
    let mut i: usize = 0;
    while i < seqs.len()
        invariant
            i <= seqs.len(),
            all == seqs.deep_view(),
            all.len() == seqs.len(),
            forall|j: int| 0 <= j < i ==> (#[trigger] all[j]).len() != len,
        decreases seqs.len() - i,
    {
        proof {
            assert(all[i as int].len() == seqs@[i as int].deep_view().len());
        }
        if seqs[i].len() == len {
            return Some(i);
        }
        i = i + 1;
    }
    None
}

} // verus!
