//! The engine's cross-cutting guarantees, stated once over the run model
//! and proved for every input.

use vstd::prelude::*;
use vstd::relations::{sorted_by, total_ordering};

use crate::model::{
    apply_steps, lemma_apply_steps_head, lemma_apply_steps_take_succ,
    lemma_ramp_strictly_increasing, ramp_seq, sorted, strictly_increasing, Step,
};

verus! {

/// A primary algorithm run to completion on any permutation of the
/// generated buffer `1..=n` ends in exactly that buffer — in particular, a
/// strictly increasing one.  Every sort's contract gives a sorted
/// permutation; this pins the result down to the ramp itself.
pub proof fn lemma_sorted_permutation_of_ramp(fin: Seq<u32>, n: nat)
    requires
        n <= u32::MAX,
        sorted(fin),
        fin.to_multiset() == ramp_seq(n).to_multiset(),
    ensures
        fin == ramp_seq(n),
        strictly_increasing(fin),
{
    let leq = |a: u32, b: u32| a <= b;
    assert(total_ordering(leq)) by {
        assert forall|x: u32| #[trigger] leq(x, x) by {}
        assert forall|x: u32, y: u32| #[trigger] leq(x, y) && #[trigger] leq(y, x) implies x
            == y by {}
        assert forall|x: u32, y: u32, z: u32|
            #[trigger] leq(x, y) && #[trigger] leq(y, z) implies leq(x, z) by {}
        assert forall|x: u32, y: u32| #[trigger] leq(x, y) || #[trigger] leq(y, x) by {}
    }
    assert(sorted_by(fin, leq)) by {
        assert forall|i: int, j: int| 0 <= i < j < fin.len() implies #[trigger] leq(
            fin[i],
            fin[j],
        ) by {}
    }
    assert(sorted_by(ramp_seq(n), leq)) by {
        assert forall|i: int, j: int| 0 <= i < j < ramp_seq(n).len() implies #[trigger] leq(
            ramp_seq(n)[i],
            ramp_seq(n)[j],
        ) by {}
    }
    vstd::seq_lib::lemma_sorted_unique(fin, ramp_seq(n), leq);
    assert(fin =~= ramp_seq(n));
    lemma_ramp_strictly_increasing(n);
}

/// Pausing affects only timing, never outcome: a replay interrupted after
/// any number of operations and then resumed over the remaining ones ends in
/// the same buffer as a replay that was never interrupted.
pub proof fn lemma_interrupted_replay_unchanged(s: Seq<u32>, tr: Seq<Step>, k: int)
    requires
        0 <= k <= tr.len(),
    ensures
        apply_steps(apply_steps(s, tr.take(k)), tr.skip(k)) == apply_steps(s, tr),
    decreases tr.len() - k,
{
    if k == tr.len() {
        assert(tr.take(k) =~= tr);
        assert(tr.skip(k) =~= Seq::<Step>::empty());
    } else {
        lemma_interrupted_replay_unchanged(s, tr, k + 1);
        lemma_apply_steps_take_succ(s, tr, k);
        assert(tr.skip(k).drop_first() =~= tr.skip(k + 1));
        let mid = apply_steps(s, tr.take(k));
        lemma_apply_steps_head(mid, tr.skip(k));
        assert(tr.skip(k)[0] == tr[k]);
    }
}

} // verus!
