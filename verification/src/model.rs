//! The mathematical model of a run: the step vocabulary, the effect of a
//! trace of steps on a buffer, and the orderings the contracts speak of.

use vstd::prelude::*;
use vstd::seq_lib::group_to_multiset_ensures;

verus! {

/// One buffer operation, as recorded by the access interface: a read of one
/// index or an exchange of two.  Transient — it matters only while a run is
/// live, and carries no weight for correctness of the final buffer.
#[derive(Clone, Copy, PartialEq, Eq, Structural, Debug)]
pub enum Step {
    Read(usize),
    Swap(usize, usize),
}

/// `s` with the values at `i` and `j` exchanged.
pub open spec fn swap_seq(s: Seq<u32>, i: int, j: int) -> Seq<u32> {
    s.update(i, s[j]).update(j, s[i])
}

/// The step touches only indices inside a buffer of length `n`.
pub open spec fn step_in_bounds(st: Step, n: nat) -> bool {
    match st {
        Step::Read(i) => i < n,
        Step::Swap(i, j) => i < n && j < n,
    }
}

/// Every step of the trace touches only indices inside a buffer of length `n`.
pub open spec fn trace_in_bounds(tr: Seq<Step>, n: nat) -> bool {
    forall|k: int| 0 <= k < tr.len() ==> step_in_bounds(#[trigger] tr[k], n)
}

/// The effect of one step on the buffer: a read leaves it unchanged, a swap
/// exchanges two values.  An out-of-range swap is a no-op, so the function is
/// total; recorded traces only ever hold in-bounds steps.
pub open spec fn apply_step(s: Seq<u32>, st: Step) -> Seq<u32> {
    match st {
        Step::Read(_) => s,
        Step::Swap(i, j) => if i < s.len() && j < s.len() {
            swap_seq(s, i as int, j as int)
        } else {
            s
        },
    }
}

/// The buffer after replaying a whole trace of steps, oldest first.
pub open spec fn apply_steps(s: Seq<u32>, tr: Seq<Step>) -> Seq<u32>
    decreases tr.len(),
{
    if tr.len() == 0 {
        s
    } else {
        apply_step(apply_steps(s, tr.drop_last()), tr.last())
    }
}

/// Non-decreasing order on the index range `lo..hi`.
pub open spec fn sorted_between(s: Seq<u32>, lo: int, hi: int) -> bool {
    forall|x: int, y: int| lo <= x < y < hi ==> s[x] <= s[y]
}

/// Non-decreasing order.
pub open spec fn sorted(s: Seq<u32>) -> bool {
    sorted_between(s, 0, s.len() as int)
}

/// Strictly increasing order.
pub open spec fn strictly_increasing(s: Seq<u32>) -> bool {
    forall|x: int, y: int| 0 <= x < y < s.len() ==> s[x] < s[y]
}

/// The buffer `1, 2, .., n`: the shape a fresh buffer is generated in.
pub open spec fn ramp_seq(n: nat) -> Seq<u32> {
    Seq::new(n, |i: int| (i + 1) as u32)
}

/// Exchanging two values never changes the length or the multiset of values.
pub broadcast proof fn lemma_swap_seq_permutes(s: Seq<u32>, i: int, j: int)
    requires
        0 <= i < s.len(),
        0 <= j < s.len(),
    ensures
        (#[trigger] swap_seq(s, i, j)).len() == s.len(),
        swap_seq(s, i, j).to_multiset() == s.to_multiset(),
{
    broadcast use group_to_multiset_ensures;

    let s1 = s.update(i, s[j]);
    let s2 = s1.update(j, s[i]);
    vstd::seq_lib::to_multiset_update(s, i, s[j]);
    vstd::seq_lib::to_multiset_update(s1, j, s[i]);
    assert(s.to_multiset().contains(s[i]));
    assert(s1.to_multiset() == s.to_multiset().insert(s[j]).remove(s[i]));
    if i == j {
        assert(s2.to_multiset() =~= s.to_multiset());
    } else {
        assert(s1[i] == s[j]);
        assert(s2.to_multiset() =~= s.to_multiset());
    }
}

/// One step never changes the length and never changes the multiset of
/// values: a read does nothing and a swap only exchanges positions.
pub proof fn lemma_apply_step_permutes(s: Seq<u32>, st: Step)
    ensures
        apply_step(s, st).len() == s.len(),
        apply_step(s, st).to_multiset() == s.to_multiset(),
{
    match st {
        Step::Read(_) => {
        },
        Step::Swap(i, j) => {
            if i < s.len() && j < s.len() {
                lemma_swap_seq_permutes(s, i as int, j as int);
            }
        },
    }
}

/// A whole trace never changes the length or the multiset of values.
pub proof fn lemma_apply_steps_permutes(s: Seq<u32>, tr: Seq<Step>)
    ensures
        apply_steps(s, tr).len() == s.len(),
        apply_steps(s, tr).to_multiset() == s.to_multiset(),
    decreases tr.len(),
{
    if tr.len() > 0 {
        lemma_apply_steps_permutes(s, tr.drop_last());
        lemma_apply_step_permutes(apply_steps(s, tr.drop_last()), tr.last());
    }
}

/// Appending one step to a trace applies that step after the rest.
pub proof fn lemma_apply_steps_push(s: Seq<u32>, tr: Seq<Step>, st: Step)
    ensures
        apply_steps(s, tr.push(st)) == apply_step(apply_steps(s, tr), st),
{
    assert(tr.push(st).drop_last() =~= tr);
    assert(tr.push(st).last() == st);
}

/// Replaying one more step of a trace applies exactly that step.
pub proof fn lemma_apply_steps_take_succ(s: Seq<u32>, tr: Seq<Step>, k: int)
    requires
        0 <= k < tr.len(),
    ensures
        apply_steps(s, tr.take(k + 1)) == apply_step(apply_steps(s, tr.take(k)), tr[k]),
{
    assert(tr.take(k + 1).drop_last() =~= tr.take(k));
    assert(tr.take(k + 1).last() == tr[k]);
}

/// Replaying a non-empty trace starts with its first step.
pub proof fn lemma_apply_steps_head(s: Seq<u32>, tr: Seq<Step>)
    requires
        tr.len() > 0,
    ensures
        apply_steps(s, tr) == apply_steps(apply_step(s, tr[0]), tr.drop_first()),
    decreases tr.len(),
{
    if tr.len() == 1 {
        assert(tr.drop_last() =~= Seq::<Step>::empty());
        assert(tr.drop_first() =~= Seq::<Step>::empty());
        assert(apply_steps(s, tr.drop_last()) == s);
        assert(tr.last() == tr[0]);
        assert(apply_steps(s, tr) == apply_step(s, tr[0]));
        assert(apply_steps(apply_step(s, tr[0]), tr.drop_first()) == apply_step(s, tr[0]));
    } else {
        let s1 = apply_step(s, tr[0]);
        lemma_apply_steps_head(s, tr.drop_last());
        assert(tr.drop_last()[0] == tr[0]);
        assert(tr.drop_last().drop_first() =~= tr.drop_first().drop_last());
        assert(tr.drop_first().last() == tr.last());
        assert(apply_steps(s, tr.drop_last()) == apply_steps(s1, tr.drop_first().drop_last()));
        assert(tr.drop_first().len() > 0);
        assert(apply_steps(s1, tr.drop_first()) == apply_step(
            apply_steps(s1, tr.drop_first().drop_last()),
            tr.drop_first().last(),
        ));
        assert(apply_steps(s, tr) == apply_step(apply_steps(s, tr.drop_last()), tr.last()));
    }
}

/// A buffer whose every adjacent pair is ordered is sorted outright.
pub proof fn lemma_sorted_from_adjacent(s: Seq<u32>)
    requires
        forall|i: int| #![trigger s[i]] 0 <= i < s.len() - 1 ==> s[i] <= s[i + 1],
    ensures
        sorted(s),
{
    assert forall|x: int, y: int| 0 <= x < y < s.len() implies s[x] <= s[y] by {
        lemma_adjacent_span(s, x, y);
    }
}

proof fn lemma_adjacent_span(s: Seq<u32>, x: int, y: int)
    requires
        forall|i: int| #![trigger s[i]] 0 <= i < s.len() - 1 ==> s[i] <= s[i + 1],
        0 <= x < y < s.len(),
    ensures
        s[x] <= s[y],
    decreases y - x,
{
    if x + 1 < y {
        lemma_adjacent_span(s, x + 1, y);
    }
}

/// A buffer split into a settled sorted prefix, a settled sorted suffix, and
/// a middle window whose adjacent pairs are ordered is sorted outright.
pub proof fn lemma_sorted_from_regions(s: Seq<u32>, start: int, end: int)
    requires
        0 <= start <= s.len(),
        0 <= end < s.len(),
        sorted_between(s, 0, start),
        forall|x: int, y: int| 0 <= x < start <= y < s.len() ==> s[x] <= s[y],
        sorted_between(s, end + 1, s.len() as int),
        forall|x: int, y: int| 0 <= x <= end < y < s.len() ==> s[x] <= s[y],
        forall|k: int| #![trigger s[k]] start <= k < end ==> s[k] <= s[k + 1],
    ensures
        sorted(s),
{
    assert forall|k: int| #![trigger s[k]] 0 <= k < s.len() - 1 implies s[k] <= s[k + 1] by {
        if k + 1 <= start {
            if k + 1 == start {
                assert(s[k] <= s[start]);
            }
        } else if k < end && start <= k {
        } else if k >= end {
            if k == end {
                assert(s[k] <= s[k + 1]);
            }
        }
    }
    lemma_sorted_from_adjacent(s);
}

/// A swap with both ends inside a window rearranges only that window: the
/// window keeps its multiset of values and everything outside is untouched.
pub proof fn lemma_swap_inside_subrange(s: Seq<u32>, lo: int, hi: int, a: int, b: int)
    requires
        0 <= lo <= a < hi <= s.len(),
        lo <= b < hi,
    ensures
        swap_seq(s, a, b).subrange(lo, hi).to_multiset() == s.subrange(lo, hi).to_multiset(),
        forall|m: int| 0 <= m < lo || hi <= m < s.len() ==> swap_seq(s, a, b)[m] == s[m],
{
    assert(swap_seq(s, a, b).subrange(lo, hi) =~= swap_seq(s.subrange(lo, hi), a - lo, b - lo));
    lemma_swap_seq_permutes(s.subrange(lo, hi), a - lo, b - lo);
}

/// Rearranging a collection of values bounded above by `v` keeps them
/// bounded above by `v`.
pub proof fn lemma_multiset_bound_le(s: Seq<u32>, t: Seq<u32>, v: u32)
    requires
        s.to_multiset() == t.to_multiset(),
        forall|m: int| 0 <= m < s.len() ==> s[m] <= v,
    ensures
        forall|m: int| 0 <= m < t.len() ==> t[m] <= v,
{
    broadcast use group_to_multiset_ensures;

    assert forall|m: int| 0 <= m < t.len() implies t[m] <= v by {
        assert(t.contains(t[m]));
        assert(t.to_multiset().count(t[m]) > 0);
        assert(s.to_multiset().count(t[m]) > 0);
        assert(s.contains(t[m]));
        let k = choose|k: int| 0 <= k < s.len() && s[k] == t[m];
        assert(s[k] <= v);
    }
}

/// Rearranging a collection of values bounded below by `v` keeps them
/// bounded below by `v`.
pub proof fn lemma_multiset_bound_ge(s: Seq<u32>, t: Seq<u32>, v: u32)
    requires
        s.to_multiset() == t.to_multiset(),
        forall|m: int| 0 <= m < s.len() ==> s[m] >= v,
    ensures
        forall|m: int| 0 <= m < t.len() ==> t[m] >= v,
{
    broadcast use group_to_multiset_ensures;

    assert forall|m: int| 0 <= m < t.len() implies t[m] >= v by {
        assert(t.contains(t[m]));
        assert(t.to_multiset().count(t[m]) > 0);
        assert(s.to_multiset().count(t[m]) > 0);
        assert(s.contains(t[m]));
        let k = choose|k: int| 0 <= k < s.len() && s[k] == t[m];
        assert(s[k] >= v);
    }
}

/// Two buffers that agree outside `lo..mid` and hold the same values inside
/// it also hold the same values over the wider window `lo..hi`.
pub proof fn lemma_subrange_multiset_glue_left(s: Seq<u32>, t: Seq<u32>, lo: int, mid: int, hi: int)
    requires
        0 <= lo <= mid <= hi <= s.len(),
        s.len() == t.len(),
        s.subrange(lo, mid).to_multiset() == t.subrange(lo, mid).to_multiset(),
        forall|m: int| mid <= m < hi ==> s[m] == t[m],
    ensures
        s.subrange(lo, hi).to_multiset() == t.subrange(lo, hi).to_multiset(),
{
    assert(s.subrange(lo, hi) =~= s.subrange(lo, mid) + s.subrange(mid, hi));
    assert(t.subrange(lo, hi) =~= t.subrange(lo, mid) + t.subrange(mid, hi));
    assert(s.subrange(mid, hi) =~= t.subrange(mid, hi));
    vstd::seq_lib::lemma_multiset_commutative(s.subrange(lo, mid), s.subrange(mid, hi));
    vstd::seq_lib::lemma_multiset_commutative(t.subrange(lo, mid), t.subrange(mid, hi));
}

/// The mirror image: agreement below `mid` and equal values from `mid` up.
pub proof fn lemma_subrange_multiset_glue_right(
    s: Seq<u32>,
    t: Seq<u32>,
    lo: int,
    mid: int,
    hi: int,
)
    requires
        0 <= lo <= mid <= hi <= s.len(),
        s.len() == t.len(),
        s.subrange(mid, hi).to_multiset() == t.subrange(mid, hi).to_multiset(),
        forall|m: int| lo <= m < mid ==> s[m] == t[m],
    ensures
        s.subrange(lo, hi).to_multiset() == t.subrange(lo, hi).to_multiset(),
{
    assert(s.subrange(lo, hi) =~= s.subrange(lo, mid) + s.subrange(mid, hi));
    assert(t.subrange(lo, hi) =~= t.subrange(lo, mid) + t.subrange(mid, hi));
    assert(s.subrange(lo, mid) =~= t.subrange(lo, mid));
    vstd::seq_lib::lemma_multiset_commutative(s.subrange(lo, mid), s.subrange(mid, hi));
    vstd::seq_lib::lemma_multiset_commutative(t.subrange(lo, mid), t.subrange(mid, hi));
}

/// A trace is a prefix of itself.
pub proof fn lemma_prefix_refl(a: Seq<Step>)
    ensures
        a.is_prefix_of(a),
{
    assert(a.subrange(0, a.len() as int) =~= a);
}

/// Prefixes chain: a prefix of a prefix is a prefix.
pub proof fn lemma_prefix_trans(a: Seq<Step>, b: Seq<Step>, c: Seq<Step>)
    requires
        a.is_prefix_of(b),
        b.is_prefix_of(c),
    ensures
        a.is_prefix_of(c),
{
    assert forall|i: int| 0 <= i < a.len() implies a[i] == c[i] by {
        assert(a[i] == b[i]);
    }
    assert(a =~= c.subrange(0, a.len() as int));
}

/// Extending a trace keeps every prefix it already had.
pub broadcast proof fn lemma_prefix_push(a: Seq<Step>, b: Seq<Step>, st: Step)
    requires
        a.is_prefix_of(b),
    ensures
        #[trigger] a.is_prefix_of(b.push(st)),
{
    assert(b.push(st).subrange(0, a.len() as int) =~= b.subrange(0, a.len() as int));
}

/// The generated ramp is strictly increasing.
pub proof fn lemma_ramp_strictly_increasing(n: nat)
    requires
        n <= u32::MAX,
    ensures
        strictly_increasing(ramp_seq(n)),
{
}

} // verus!
