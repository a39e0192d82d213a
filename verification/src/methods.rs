//! The algorithm registry: primary sorting algorithms and state-preparation
//! modifiers, all running against the instrumented [`Interface`] and nothing
//! else.

use vstd::prelude::*;

use crate::model::{
    lemma_multiset_bound_ge, lemma_multiset_bound_le, lemma_prefix_push, lemma_prefix_refl,
    lemma_prefix_trans, lemma_sorted_from_adjacent, lemma_sorted_from_regions,
    lemma_subrange_multiset_glue_left, lemma_subrange_multiset_glue_right,
    lemma_swap_inside_subrange, lemma_swap_seq_permutes, sorted, sorted_between, swap_seq, Step,
};
use crate::sorter::Interface;

verus! {

broadcast use lemma_prefix_push, lemma_swap_seq_permutes;

/// Every registered algorithm, as a tagged variant.  The engine dispatches on
/// the tag, so a run needs no function pointers.
#[derive(Clone, Copy, PartialEq, Eq, Structural, Debug)]
pub enum MethodId {
    Bubble,
    Bogo,
    Quick,
    Insertion,
    Selection,
    Gnome,
    Shell,
    Cocktail,
    Shuffle,
    Invert,
    Pyramid,
}

/// A named registry entry.
#[derive(Clone, Copy, Debug)]
pub struct Method {
    pub name: &'static str,
    pub id: MethodId,
}

/// The primary algorithms promise a sorted buffer on completion; the
/// modifiers only rearrange it.
pub open spec fn is_sort(m: MethodId) -> bool {
    match m {
        MethodId::Shuffle => false,
        MethodId::Invert => false,
        MethodId::Pyramid => false,
        _ => true,
    }
}

/// What every algorithm guarantees of the interface it ran on: the recorded
/// trace still accounts for the buffer, it only grew, and the buffer holds
/// the same values as before, merely rearranged.
pub open spec fn run_extends(pre: Interface, post: Interface) -> bool {
    &&& post.wf()
    &&& post.start_buf() == pre.start_buf()
    &&& post.buf().len() == pre.buf().len()
    &&& post.buf().to_multiset() == pre.buf().to_multiset()
    &&& pre.ops().is_prefix_of(post.ops())
}

/// Relies on `rand::Rng::gen_range` over `lo..hi`: it returns a value of
/// that range and panics only if the range is empty, which the precondition
/// rules out.  Nothing more is assumed of the sample.
#[verifier::external_body]
fn gen_index(lo: usize, hi: usize) -> (r: usize)
    requires
        lo < hi,
    ensures
        lo <= r < hi,
{
    rand::Rng::gen_range(&mut rand::thread_rng(), lo..hi)
}

/// Rearranges the buffer at random, one exchange per position.  Whatever the
/// samples come out as, no value is ever duplicated or lost: the buffer stays
/// a permutation of what it was.
pub fn shuffle(iface: &mut Interface)
    requires
        old(iface).wf(),
    ensures
        run_extends(*old(iface), *final(iface)),
{
    let ghost orig = *iface;
    proof {
        lemma_prefix_refl(iface.ops());
    }
    let len = iface.len();
    let mut i: usize = 0;
    while i < len
        invariant
            iface.wf(),
            i <= len,
            len == iface.buf().len(),
            iface.start_buf() == orig.start_buf(),
            len == orig.buf().len(),
            iface.buf().to_multiset() == orig.buf().to_multiset(),
            orig.ops().is_prefix_of(iface.ops()),
        decreases len - i,
    {
        let j = gen_index(i, len);
        iface.swap(i, j);
        i += 1;
    }
}

/// Insertion sort: grows a sorted prefix, sinking each freshly read key into
/// place by adjacent swaps.
pub fn insertion(iface: &mut Interface)
    requires
        old(iface).wf(),
    ensures
        run_extends(*old(iface), *final(iface)),
        sorted(final(iface).buf()),
{
    let ghost orig = *iface;
    proof {
        lemma_prefix_refl(iface.ops());
    }
    let len = iface.len();
    let mut i: usize = 1;
    while i < len
        invariant
            iface.wf(),
            1 <= i,
            len == iface.buf().len(),
            iface.start_buf() == orig.start_buf(),
            len == orig.buf().len(),
            iface.buf().to_multiset() == orig.buf().to_multiset(),
            orig.ops().is_prefix_of(iface.ops()),
            sorted_between(
                iface.buf(),
                0,
                if i as int <= len as int {
                    i as int
                } else {
                    len as int
                },
            ),
        decreases len - i,
    {
        let key = iface.read(i);
        let ghost b0 = iface.buf();
        let mut j: usize = i;
        loop
            invariant
                iface.wf(),
                0 <= j <= i < len,
                len == iface.buf().len(),
                iface.start_buf() == orig.start_buf(),
                len == orig.buf().len(),
                iface.buf().to_multiset() == orig.buf().to_multiset(),
                orig.ops().is_prefix_of(iface.ops()),
                b0.len() == len,
                sorted_between(b0, 0, i as int),
                key == b0[i as int],
                iface.buf()[j as int] == key,
                forall|m: int| 0 <= m < j ==> iface.buf()[m] == b0[m],
                forall|m: int| j < m <= i ==> iface.buf()[m] == b0[m - 1],
                forall|m: int| j < m <= i ==> iface.buf()[m] > key,
            ensures
                iface.wf(),
                0 <= j <= i < len,
                len == iface.buf().len(),
                iface.start_buf() == orig.start_buf(),
                len == orig.buf().len(),
                iface.buf().to_multiset() == orig.buf().to_multiset(),
                orig.ops().is_prefix_of(iface.ops()),
                b0.len() == len,
                sorted_between(b0, 0, i as int),
                key == b0[i as int],
                iface.buf()[j as int] == key,
                forall|m: int| 0 <= m < j ==> iface.buf()[m] == b0[m],
                forall|m: int| j < m <= i ==> iface.buf()[m] == b0[m - 1],
                forall|m: int| j < m <= i ==> iface.buf()[m] > key,
                j > 0 ==> b0[j - 1] <= key,
            decreases j,
        {
            if j == 0 {
                break ;
            }
            let prev = iface.read(j - 1);
            if prev <= key {
                break ;
            }
            iface.swap(j, j - 1);
            j -= 1;
        }
        proof {
            let b = iface.buf();
            assert forall|x: int, y: int| 0 <= x < y <= i implies b[x] <= b[y] by {
                if x < j {
                    assert(b[x] == b0[x]);
                    if y < j {
                        assert(b[y] == b0[y]);
                        assert(b0[x] <= b0[y]);
                    } else if y == j {
                        assert(b[y] == key);
                        assert(b0[x] <= b0[j - 1]);
                        assert(b0[j - 1] <= key);
                    } else {
                        assert(b0[x] <= b0[j - 1]);
                        assert(b0[j - 1] <= key);
                        assert(b[y] > key);
                    }
                } else if x == j {
                    assert(b[x] == key);
                    assert(b[y] > key);
                } else {
                    assert(b[x] == b0[x - 1]);
                    assert(b[y] == b0[y - 1]);
                    assert(b0[x - 1] <= b0[y - 1]);
                }
            }
        }
        i += 1;
    }
}

/// Selection sort: repeatedly scans the unsorted region for its least value
/// and swaps it to the front.
pub fn selection(iface: &mut Interface)
    requires
        old(iface).wf(),
    ensures
        run_extends(*old(iface), *final(iface)),
        sorted(final(iface).buf()),
{
    let ghost orig = *iface;
    proof {
        lemma_prefix_refl(iface.ops());
    }
    let len = iface.len();
    let mut i: usize = 0;
    while i < len
        invariant
            iface.wf(),
            i <= len,
            len == iface.buf().len(),
            iface.start_buf() == orig.start_buf(),
            len == orig.buf().len(),
            iface.buf().to_multiset() == orig.buf().to_multiset(),
            orig.ops().is_prefix_of(iface.ops()),
            sorted_between(iface.buf(), 0, i as int),
            forall|x: int, y: int|
                0 <= x < i <= y < len ==> iface.buf()[x] <= iface.buf()[y],
        decreases len - i,
    {
        let mut min_index: usize = i;
        let mut min_value = iface.read(i);
        let ghost bi = iface.buf();
        let mut j: usize = i + 1;
        while j < len
            invariant
                iface.wf(),
                i < len,
                i + 1 <= j <= len,
                len == iface.buf().len(),
                iface.start_buf() == orig.start_buf(),
                len == orig.buf().len(),
                iface.buf().to_multiset() == orig.buf().to_multiset(),
                orig.ops().is_prefix_of(iface.ops()),
                iface.buf() == bi,
                i <= min_index < len,
                iface.buf()[min_index as int] == min_value,
                forall|k: int| i <= k < j ==> iface.buf()[k] >= min_value,
            decreases len - j,
        {
            let v = iface.read(j);
            if v < min_value {
                min_index = j;
                min_value = iface.read(j);
            }
            j += 1;
        }
        if min_index != i {
            iface.swap(i, min_index);
        }
        proof {
            let b = iface.buf();
            assert forall|x: int, y: int|
                0 <= x < i + 1 <= y < len implies b[x] <= b[y] by {
                if x < i {
                    assert(bi[x] <= bi[i as int]);
                    assert(bi[x] <= bi[min_index as int]);
                } else {
                    assert(b[x] == min_value);
                    assert(bi[y] >= min_value);
                }
            }
            assert(sorted_between(b, 0, i as int + 1)) by {
                assert forall|x: int, y: int|
                    0 <= x < y < i + 1 implies b[x] <= b[y] by {
                    if y < i + 1 && y == i {
                        assert(b[x] <= b[y]);
                    }
                }
            }
        }
        i += 1;
    }
}

/// Bubble sort: repeated adjacent-exchange passes, stopping early once a
/// pass finds nothing out of order.
#[verifier::rlimit(50)]
pub fn bubble(iface: &mut Interface)
    requires
        old(iface).wf(),
    ensures
        run_extends(*old(iface), *final(iface)),
        sorted(final(iface).buf()),
{
    let ghost orig = *iface;
    proof {
        lemma_prefix_refl(iface.ops());
    }
    let len = iface.len();
    let mut i: usize = 0;
    while i < len
        invariant_except_break
            iface.wf(),
            i <= len,
            len == iface.buf().len(),
            iface.start_buf() == orig.start_buf(),
            len == orig.buf().len(),
            iface.buf().to_multiset() == orig.buf().to_multiset(),
            orig.ops().is_prefix_of(iface.ops()),
            forall|x: int, y: int|
                0 <= x < y < len && len - i <= y ==> iface.buf()[x] <= iface.buf()[y],
        ensures
            iface.wf(),
            len == iface.buf().len(),
            iface.start_buf() == orig.start_buf(),
            len == orig.buf().len(),
            iface.buf().to_multiset() == orig.buf().to_multiset(),
            orig.ops().is_prefix_of(iface.ops()),
            sorted(iface.buf()),
        decreases len - i,
    {
        let mut clean = true;
        let mut j: usize = 0;
        while j < len - i - 1
            invariant
                iface.wf(),
                i < len,
                j <= len - i - 1,
                len == iface.buf().len(),
                iface.start_buf() == orig.start_buf(),
                len == orig.buf().len(),
                iface.buf().to_multiset() == orig.buf().to_multiset(),
                orig.ops().is_prefix_of(iface.ops()),
                forall|k: int| 0 <= k <= j ==> iface.buf()[k] <= iface.buf()[j as int],
                clean ==> forall|k: int|
                    #![trigger iface.buf()[k]]
                    0 <= k < j ==> iface.buf()[k] <= iface.buf()[k + 1],
                forall|x: int, y: int|
                    0 <= x < y < len && len - i <= y ==> iface.buf()[x] <= iface.buf()[y],
            decreases len - i - 1 - j,
        {
            let a = iface.read(j);
            let b = iface.read(j + 1);
            if a > b {
                iface.swap(j, j + 1);
                clean = false;
            }
            j += 1;
        }
        if clean {
            proof {
                let b = iface.buf();
                assert forall|k: int| #![trigger b[k]] 0 <= k < len - 1 implies b[k] <= b[k
                    + 1] by {
                    if k < len - i - 1 {
                    } else {
                        assert(len - i <= k + 1 < len);
                    }
                }
                lemma_sorted_from_adjacent(b);
            }
            break ;
        }
        proof {
            let b = iface.buf();
            assert forall|x: int, y: int|
                0 <= x < y < len && len - (i + 1) <= y implies b[x] <= b[y] by {
                if y == len - i - 1 {
                    assert(b[x] <= b[(len - i - 1) as int]);
                }
            }
        }
        i += 1;
    }
}

/// Cocktail shaker sort: alternating forward and backward bubble passes over
/// a shrinking window, stopping once a pass finds nothing out of order.
#[verifier::rlimit(80)]
pub fn cocktail(iface: &mut Interface)
    requires
        old(iface).wf(),
    ensures
        run_extends(*old(iface), *final(iface)),
        sorted(final(iface).buf()),
{
    let ghost orig = *iface;
    proof {
        lemma_prefix_refl(iface.ops());
    }
    let len = iface.len();
    if len == 0 {
        return ;
    }
    let mut start: usize = 0;
    let mut end: usize = len - 1;
    let mut swapped = true;
    while swapped
        invariant_except_break
            iface.wf(),
            len == iface.buf().len(),
            1 <= len,
            iface.start_buf() == orig.start_buf(),
            len == orig.buf().len(),
            iface.buf().to_multiset() == orig.buf().to_multiset(),
            orig.ops().is_prefix_of(iface.ops()),
            start <= len,
            end < len,
            sorted_between(iface.buf(), 0, start as int),
            forall|x: int, y: int|
                0 <= x < start <= y < len ==> iface.buf()[x] <= iface.buf()[y],
            sorted_between(iface.buf(), end as int + 1, len as int),
            forall|x: int, y: int|
                0 <= x <= end < y < len ==> iface.buf()[x] <= iface.buf()[y],
            !swapped ==> sorted(iface.buf()),
        ensures
            iface.wf(),
            len == iface.buf().len(),
            iface.start_buf() == orig.start_buf(),
            len == orig.buf().len(),
            iface.buf().to_multiset() == orig.buf().to_multiset(),
            orig.ops().is_prefix_of(iface.ops()),
            sorted(iface.buf()),
        decreases end,
    {
        swapped = false;
        let mut i: usize = start;
        while i < end
            invariant
                iface.wf(),
                len == iface.buf().len(),
                iface.start_buf() == orig.start_buf(),
                len == orig.buf().len(),
                iface.buf().to_multiset() == orig.buf().to_multiset(),
                orig.ops().is_prefix_of(iface.ops()),
                start <= i <= len,
                end < len,
                i <= end || i == start,
                forall|k: int| start <= k <= i ==> iface.buf()[k] <= iface.buf()[i as int],
                swapped ==> start < end,
                !swapped ==> forall|k: int|
                    #![trigger iface.buf()[k]]
                    start <= k < i ==> iface.buf()[k] <= iface.buf()[k + 1],
                sorted_between(iface.buf(), 0, start as int),
                forall|x: int, y: int|
                    0 <= x < start <= y < len ==> iface.buf()[x] <= iface.buf()[y],
                sorted_between(iface.buf(), end as int + 1, len as int),
                forall|x: int, y: int|
                    0 <= x <= end < y < len ==> iface.buf()[x] <= iface.buf()[y],
            decreases end - i,
        {
            let a = iface.read(i);
            let b = iface.read(i + 1);
            if a > b {
                iface.swap(i, i + 1);
                swapped = true;
            }
            i += 1;
        }
        if !swapped {
            proof {
                lemma_sorted_from_regions(iface.buf(), start as int, end as int);
            }
            break ;
        }
        swapped = false;
        proof {
            let b = iface.buf();
            assert forall|x: int, y: int|
                0 <= x <= end - 1 < y < len implies b[x] <= b[y] by {
                if y == end {
                    if x < start {
                        assert(b[x] <= b[y]);
                    } else {
                        assert(b[x] <= b[end as int]);
                    }
                }
            }
        }
        end -= 1;
        let mut k: usize = end;
        while k > start
            invariant
                iface.wf(),
                len == iface.buf().len(),
                iface.start_buf() == orig.start_buf(),
                len == orig.buf().len(),
                iface.buf().to_multiset() == orig.buf().to_multiset(),
                orig.ops().is_prefix_of(iface.ops()),
                start <= k <= end,
                end < len,
                forall|m: int| k <= m <= end ==> iface.buf()[k as int] <= iface.buf()[m],
                !swapped ==> forall|m: int|
                    #![trigger iface.buf()[m]]
                    k <= m < end ==> iface.buf()[m] <= iface.buf()[m + 1],
                sorted_between(iface.buf(), 0, start as int),
                forall|x: int, y: int|
                    0 <= x < start <= y < len ==> iface.buf()[x] <= iface.buf()[y],
                sorted_between(iface.buf(), end as int + 1, len as int),
                forall|x: int, y: int|
                    0 <= x <= end < y < len ==> iface.buf()[x] <= iface.buf()[y],
            decreases k,
        {
            k -= 1;
            let a = iface.read(k);
            let b = iface.read(k + 1);
            if a > b {
                iface.swap(k, k + 1);
                swapped = true;
            }
        }
        proof {
            let b = iface.buf();
            assert forall|x: int, y: int|
                0 <= x < start + 1 <= y < len implies b[x] <= b[y] by {
                if x == start {
                    if y <= end {
                        assert(b[start as int] <= b[y]);
                    } else {
                        assert(b[x] <= b[y]);
                    }
                } else {
                    assert(b[x] <= b[y]);
                }
            }
            assert(sorted_between(b, 0, start as int + 1)) by {
                assert forall|x: int, y: int|
                    0 <= x < y < start + 1 implies b[x] <= b[y] by {
                    if y == start {
                        assert(b[x] <= b[start as int]);
                    }
                }
            }
            if !swapped {
                lemma_sorted_from_regions(b, start as int, end as int);
            }
        }
        start += 1;
    }
}

/// One shell-sort pass with the given gap: a gapped insertion of every
/// element into its stride.  With a gap of one this is exactly an insertion
/// sort, so that final pass leaves the buffer sorted.
fn gap_pass(iface: &mut Interface, gap: usize)
    requires
        old(iface).wf(),
        1 <= gap,
    ensures
        run_extends(*old(iface), *final(iface)),
        gap == 1 ==> sorted(final(iface).buf()),
{
    let ghost orig = *iface;
    proof {
        lemma_prefix_refl(iface.ops());
    }
    let len = iface.len();
    let mut i: usize = gap;
    while i < len
        invariant
            iface.wf(),
            1 <= gap <= i,
            len == iface.buf().len(),
            iface.start_buf() == orig.start_buf(),
            len == orig.buf().len(),
            iface.buf().to_multiset() == orig.buf().to_multiset(),
            orig.ops().is_prefix_of(iface.ops()),
            gap == 1 ==> sorted_between(
                iface.buf(),
                0,
                if i as int <= len as int {
                    i as int
                } else {
                    len as int
                },
            ),
        decreases len - i,
    {
        let temp = iface.read(i);
        let ghost b0 = iface.buf();
        let mut j: usize = i;
        loop
            invariant
                iface.wf(),
                1 <= gap,
                0 <= j <= i < len,
                len == iface.buf().len(),
                iface.start_buf() == orig.start_buf(),
                len == orig.buf().len(),
                iface.buf().to_multiset() == orig.buf().to_multiset(),
                orig.ops().is_prefix_of(iface.ops()),
                b0.len() == len,
                iface.buf()[j as int] == temp,
                gap == 1 ==> sorted_between(b0, 0, i as int),
                gap == 1 ==> temp == b0[i as int],
                gap == 1 ==> forall|m: int| 0 <= m < j ==> iface.buf()[m] == b0[m],
                gap == 1 ==> forall|m: int| j < m <= i ==> iface.buf()[m] == b0[m - 1],
                gap == 1 ==> forall|m: int| j < m <= i ==> iface.buf()[m] > temp,
            ensures
                iface.wf(),
                0 <= j <= i < len,
                len == iface.buf().len(),
                iface.start_buf() == orig.start_buf(),
                len == orig.buf().len(),
                iface.buf().to_multiset() == orig.buf().to_multiset(),
                orig.ops().is_prefix_of(iface.ops()),
                iface.buf()[j as int] == temp,
                gap == 1 ==> sorted_between(b0, 0, i as int),
                gap == 1 ==> temp == b0[i as int],
                gap == 1 ==> forall|m: int| 0 <= m < j ==> iface.buf()[m] == b0[m],
                gap == 1 ==> forall|m: int| j < m <= i ==> iface.buf()[m] == b0[m - 1],
                gap == 1 ==> forall|m: int| j < m <= i ==> iface.buf()[m] > temp,
                gap == 1 && j > 0 ==> b0[j - 1] <= temp,
            decreases j,
        {
            if j < gap {
                break ;
            }
            let prev = iface.read(j - gap);
            if prev <= temp {
                break ;
            }
            iface.swap(j, j - gap);
            j -= gap;
        }
        proof {
            if gap == 1 {
                let b = iface.buf();
                assert forall|x: int, y: int| 0 <= x < y <= i implies b[x] <= b[y] by {
                    if x < j {
                        assert(b[x] == b0[x]);
                        if y < j {
                            assert(b[y] == b0[y]);
                            assert(b0[x] <= b0[y]);
                        } else if y == j {
                            assert(b[y] == temp);
                            assert(b0[x] <= b0[j - 1]);
                            assert(b0[j - 1] <= temp);
                        } else {
                            assert(b0[x] <= b0[j - 1]);
                            assert(b0[j - 1] <= temp);
                            assert(b[y] > temp);
                        }
                    } else if x == j {
                        assert(b[x] == temp);
                        assert(b[y] > temp);
                    } else {
                        assert(b[x] == b0[x - 1]);
                        assert(b[y] == b0[y - 1]);
                        assert(b0[x - 1] <= b0[y - 1]);
                    }
                }
            }
        }
        i += 1;
    }
}

/// Shell sort: gapped insertion passes with a halving gap; the final pass
/// has a gap of one and leaves the buffer sorted.
pub fn shell(iface: &mut Interface)
    requires
        old(iface).wf(),
    ensures
        run_extends(*old(iface), *final(iface)),
        sorted(final(iface).buf()),
{
    let ghost orig = *iface;
    proof {
        lemma_prefix_refl(iface.ops());
    }
    let len = iface.len();
    let mut gap = len / 2;
    while gap > 0
        invariant
            iface.wf(),
            len == iface.buf().len(),
            iface.start_buf() == orig.start_buf(),
            len == orig.buf().len(),
            iface.buf().to_multiset() == orig.buf().to_multiset(),
            orig.ops().is_prefix_of(iface.ops()),
            gap == 0 ==> sorted(iface.buf()),
        decreases gap,
    {
        let ghost pre = *iface;
        gap_pass(iface, gap);
        proof {
            lemma_prefix_trans(orig.ops(), pre.ops(), iface.ops());
        }
        gap = gap / 2;
    }
}

/// Bogo sort: shuffle until the buffer happens to be sorted.  The attempt
/// counter gives the retry loop a measure; it cannot run out in any feasible
/// execution, and a final direct insertion pass keeps the promise if it ever
/// did.
pub fn bogo(iface: &mut Interface)
    requires
        old(iface).wf(),
    ensures
        run_extends(*old(iface), *final(iface)),
        sorted(final(iface).buf()),
{
    let ghost orig = *iface;
    proof {
        lemma_prefix_refl(iface.ops());
    }
    let len = iface.len();
    if len == 0 {
        return ;
    }
    let mut fuel: u64 = u64::MAX;
    loop
        invariant
            iface.wf(),
            1 <= len,
            len == iface.buf().len(),
            iface.start_buf() == orig.start_buf(),
            len == orig.buf().len(),
            iface.buf().to_multiset() == orig.buf().to_multiset(),
            orig.ops().is_prefix_of(iface.ops()),
        ensures
            iface.wf(),
            len == iface.buf().len(),
            iface.start_buf() == orig.start_buf(),
            len == orig.buf().len(),
            iface.buf().to_multiset() == orig.buf().to_multiset(),
            orig.ops().is_prefix_of(iface.ops()),
            sorted(iface.buf()),
        decreases fuel,
    {
        let mut is_ordered = true;
        let mut i: usize = 0;
        while i < len - 1 && is_ordered
            invariant
                iface.wf(),
                1 <= len,
                i <= len - 1,
                len == iface.buf().len(),
                iface.start_buf() == orig.start_buf(),
                len == orig.buf().len(),
                iface.buf().to_multiset() == orig.buf().to_multiset(),
                orig.ops().is_prefix_of(iface.ops()),
                is_ordered ==> forall|k: int|
                    #![trigger iface.buf()[k]]
                    0 <= k < i ==> iface.buf()[k] <= iface.buf()[k + 1],
            decreases len - 1 - i,
        {
            let a = iface.read(i);
            let b = iface.read(i + 1);
            if a > b {
                is_ordered = false;
            }
            i += 1;
        }
        if is_ordered {
            proof {
                lemma_sorted_from_adjacent(iface.buf());
            }
            break ;
        }
        if fuel == 0 {
            let ghost pre = *iface;
            insertion(iface);
            proof {
                lemma_prefix_trans(orig.ops(), pre.ops(), iface.ops());
            }
            break ;
        }
        fuel = fuel - 1;
        let mut k: usize = 0;
        while k < len
            invariant
                iface.wf(),
                k <= len,
                len == iface.buf().len(),
                iface.start_buf() == orig.start_buf(),
                len == orig.buf().len(),
                iface.buf().to_multiset() == orig.buf().to_multiset(),
                orig.ops().is_prefix_of(iface.ops()),
            decreases len - k,
        {
            let j = gen_index(k, len);
            iface.swap(k, j);
            k += 1;
        }
    }
}

/// How many values before position `x` exceed `v`.
spec fn count_gt(s: Seq<u32>, v: u32, x: int) -> nat
    decreases x,
{
    if x <= 0 {
        0
    } else {
        count_gt(s, v, x - 1) + if 0 <= x - 1 < s.len() && s[x - 1] > v {
            1nat
        } else {
            0nat
        }
    }
}

/// How many inverted pairs have their upper index below `y`.
spec fn invs_upto(s: Seq<u32>, y: int) -> nat
    decreases y,
{
    if y <= 0 {
        0
    } else {
        invs_upto(s, y - 1) + count_gt(s, s[y - 1], y - 1)
    }
}

/// The number of out-of-order pairs: the termination measure of gnome sort,
/// which removes exactly one with every backward swap.
spec fn invs(s: Seq<u32>) -> nat {
    invs_upto(s, s.len() as int)
}

proof fn lemma_count_gt_congruent(s: Seq<u32>, t: Seq<u32>, v: u32, x: int)
    requires
        s.len() == t.len(),
        forall|m: int| 0 <= m < x ==> s[m] == t[m],
    ensures
        count_gt(s, v, x) == count_gt(t, v, x),
    decreases x,
{
    if x > 0 {
        lemma_count_gt_congruent(s, t, v, x - 1);
    }
}

/// The shape of an adjacent exchange at `p`, as the lemmas below need it.
spec fn adjacent_swap(s: Seq<u32>, t: Seq<u32>, p: int) -> bool {
    &&& 0 <= p
    &&& p + 1 < s.len()
    &&& t.len() == s.len()
    &&& t[p] == s[p + 1]
    &&& t[p + 1] == s[p]
    &&& forall|m: int| 0 <= m < s.len() && m != p && m != p + 1 ==> t[m] == s[m]
}

proof fn lemma_count_gt_adjacent_swap(s: Seq<u32>, t: Seq<u32>, v: u32, x: int, p: int)
    requires
        adjacent_swap(s, t, p),
        p + 2 <= x,
    ensures
        count_gt(s, v, x) == count_gt(t, v, x),
    decreases x,
{
    if x == p + 2 {
        lemma_count_gt_congruent(s, t, v, p);
        assert(count_gt(s, v, p + 1) == count_gt(s, v, p) + if 0 <= p < s.len() && s[p] > v {
            1nat
        } else {
            0nat
        });
        assert(count_gt(s, v, p + 2) == count_gt(s, v, p + 1) + if 0 <= p + 1 < s.len() && s[p
            + 1] > v {
            1nat
        } else {
            0nat
        });
        assert(count_gt(t, v, p + 1) == count_gt(t, v, p) + if 0 <= p < t.len() && t[p] > v {
            1nat
        } else {
            0nat
        });
        assert(count_gt(t, v, p + 2) == count_gt(t, v, p + 1) + if 0 <= p + 1 < t.len() && t[p
            + 1] > v {
            1nat
        } else {
            0nat
        });
    } else {
        lemma_count_gt_adjacent_swap(s, t, v, x - 1, p);
    }
}

proof fn lemma_invs_upto_congruent(s: Seq<u32>, t: Seq<u32>, y: int)
    requires
        s.len() == t.len(),
        forall|m: int| 0 <= m < y ==> s[m] == t[m],
    ensures
        invs_upto(s, y) == invs_upto(t, y),
    decreases y,
{
    if y > 0 {
        lemma_invs_upto_congruent(s, t, y - 1);
        lemma_count_gt_congruent(s, t, s[y - 1], y - 1);
    }
}

proof fn lemma_invs_upto_adjacent_swap(s: Seq<u32>, t: Seq<u32>, p: int, y: int)
    requires
        adjacent_swap(s, t, p),
        s[p] > s[p + 1],
        p + 2 <= y <= s.len(),
    ensures
        invs_upto(t, y) + 1 == invs_upto(s, y),
    decreases y,
{
    if y == p + 2 {
        lemma_invs_upto_congruent(s, t, p);
        lemma_count_gt_congruent(s, t, s[p + 1], p);
        lemma_count_gt_congruent(s, t, s[p], p);
        assert(invs_upto(t, p + 1) == invs_upto(t, p) + count_gt(t, t[p], p));
        assert(invs_upto(t, p + 2) == invs_upto(t, p + 1) + count_gt(t, t[p + 1], p + 1));
        assert(invs_upto(s, p + 1) == invs_upto(s, p) + count_gt(s, s[p], p));
        assert(invs_upto(s, p + 2) == invs_upto(s, p + 1) + count_gt(s, s[p + 1], p + 1));
        assert(invs_upto(t, p + 2) == invs_upto(t, p) + count_gt(t, t[p], p) + count_gt(
            t,
            t[p + 1],
            p + 1,
        ));
        assert(count_gt(t, t[p + 1], p + 1) == count_gt(t, s[p], p) + 1nat * (if 0 <= p < t.len()
            && t[p] > s[p] {
            1nat
        } else {
            0nat
        }));
        assert(!(t[p] > s[p]));
        assert(invs_upto(s, p + 2) == invs_upto(s, p) + count_gt(s, s[p], p) + count_gt(
            s,
            s[p + 1],
            p + 1,
        ));
        assert(count_gt(s, s[p + 1], p + 1) == count_gt(s, s[p + 1], p) + 1nat);
    } else {
        lemma_invs_upto_adjacent_swap(s, t, p, y - 1);
        lemma_count_gt_adjacent_swap(s, t, s[y - 1], y - 1, p);
        assert(t[y - 1] == s[y - 1]);
    }
}

/// A backward swap of an out-of-order adjacent pair removes an inversion.
proof fn lemma_swap_reduces_invs(s: Seq<u32>, p: int)
    requires
        0 <= p,
        p + 1 < s.len(),
        s[p] > s[p + 1],
    ensures
        invs(swap_seq(s, p, p + 1)) < invs(s),
{
    let t = swap_seq(s, p, p + 1);
    assert(adjacent_swap(s, t, p));
    lemma_invs_upto_adjacent_swap(s, t, p, s.len() as int);
}

/// Gnome sort: walk forward while the pair behind is ordered, swap backward
/// when it is not.
#[verifier::rlimit(80)]
pub fn gnome(iface: &mut Interface)
    requires
        old(iface).wf(),
    ensures
        run_extends(*old(iface), *final(iface)),
        sorted(final(iface).buf()),
{
    let ghost orig = *iface;
    proof {
        lemma_prefix_refl(iface.ops());
    }
    let len = iface.len();
    let mut i: usize = 0;
    let ghost mut h: int = 0;
    while i < len
        invariant
            iface.wf(),
            i <= len,
            i as int <= h <= len as int,
            len == iface.buf().len(),
            iface.start_buf() == orig.start_buf(),
            len == orig.buf().len(),
            iface.buf().to_multiset() == orig.buf().to_multiset(),
            orig.ops().is_prefix_of(iface.ops()),
            forall|x: int, y: int|
                0 <= x < y < h && y != i ==> iface.buf()[x] <= iface.buf()[y],
        decreases invs(iface.buf()), len - i,
    {
        if i == 0 {
            i += 1;
            proof {
                if h < i as int {
                    h = i as int;
                }
            }
        } else {
            let a = iface.read(i - 1);
            let b = iface.read(i);
            if a <= b {
                proof {
                    let bf = iface.buf();
                    assert forall|x: int, y: int|
                        0 <= x < y < h && y == i implies bf[x] <= bf[y] by {
                        if x < i - 1 {
                            assert(bf[x] <= bf[i - 1]);
                        }
                    }
                }
                i += 1;
                proof {
                    if h < i as int {
                        h = i as int;
                    }
                }
            } else {
                let ghost pre = iface.buf();
                iface.swap(i, i - 1);
                proof {
                    assert(iface.buf() =~= swap_seq(pre, i as int - 1, i as int));
                    lemma_swap_reduces_invs(pre, i as int - 1);
                    let bf = iface.buf();
                    assert forall|x: int, y: int|
                        0 <= x < y < h && y != i - 1 implies bf[x] <= bf[y] by {
                        if y == i {
                            if x < i - 1 {
                                assert(pre[x] <= pre[i - 1]);
                            } else {
                                assert(x == i - 1);
                                assert(bf[x] == pre[i as int]);
                                assert(bf[y] == pre[i - 1]);
                            }
                        } else if y > i {
                            if x == i - 1 {
                                assert(pre[i as int] <= pre[y]);
                            } else if x == i {
                                assert(pre[i - 1] <= pre[y]);
                            }
                        }
                    }
                }
                i -= 1;
            }
        }
    }
    proof {
        assert(h == len as int);
    }
}

/// One divide-and-conquer stage of quicksort over the half-open window
/// `lo..hi`: partition around a pivot, then sort each side.  Everything
/// outside the window is left untouched, and the window keeps its values.
fn quick_sort(iface: &mut Interface, lo: usize, hi: usize)
    requires
        old(iface).wf(),
        lo <= hi <= old(iface).buf().len(),
    ensures
        final(iface).wf(),
        final(iface).start_buf() == old(iface).start_buf(),
        final(iface).buf().len() == old(iface).buf().len(),
        old(iface).ops().is_prefix_of(final(iface).ops()),
        sorted_between(final(iface).buf(), lo as int, hi as int),
        forall|m: int|
            0 <= m < old(iface).buf().len() && !(lo <= m < hi) ==> final(iface).buf()[m] == old(
                iface,
            ).buf()[m],
        final(iface).buf().subrange(lo as int, hi as int).to_multiset() == old(iface).buf()
            .subrange(lo as int, hi as int).to_multiset(),
    decreases hi - lo,
{
    let ghost orig = *iface;
    proof {
        lemma_prefix_refl(iface.ops());
    }
    if hi - lo < 2 {
        return ;
    }
    let pivot = iface.read(hi - 1);
    let mut p: usize = lo;
    let mut j: usize = lo;
    while j < hi - 1
        invariant
            iface.wf(),
            iface.start_buf() == orig.start_buf(),
            iface.buf().len() == orig.buf().len(),
            orig.ops().is_prefix_of(iface.ops()),
            lo <= p <= j <= hi - 1,
            2 <= hi - lo,
            hi <= iface.buf().len(),
            iface.buf()[hi - 1] == pivot,
            forall|m: int| lo <= m < p ==> iface.buf()[m] <= pivot,
            forall|m: int| p <= m < j ==> iface.buf()[m] > pivot,
            forall|m: int|
                0 <= m < iface.buf().len() && !(lo <= m < hi) ==> iface.buf()[m] == orig.buf()[m],
            iface.buf().subrange(lo as int, hi as int).to_multiset() == orig.buf().subrange(
                lo as int,
                hi as int,
            ).to_multiset(),
        decreases hi - 1 - j,
    {
        let v = iface.read(j);
        if v <= pivot {
            let ghost pre = iface.buf();
            iface.swap(p, j);
            proof {
                lemma_swap_inside_subrange(pre, lo as int, hi as int, p as int, j as int);
            }
            p += 1;
        }
        j += 1;
    }
    let ghost pre2 = iface.buf();
    iface.swap(p, hi - 1);
    proof {
        lemma_swap_inside_subrange(pre2, lo as int, hi as int, p as int, hi as int - 1);
    }
    let ghost s1 = *iface;
    proof {
        assert(s1.buf()[p as int] == pivot);
        assert forall|m: int| p < m < hi implies s1.buf()[m] > pivot by {
            if m < hi - 1 {
                assert(pre2[m] > pivot);
            } else {
                assert(s1.buf()[m] == pre2[p as int]);
            }
        }
    }
    quick_sort(iface, lo, p);
    let ghost s2 = *iface;
    proof {
        lemma_prefix_trans(orig.ops(), s1.ops(), s2.ops());
        lemma_multiset_bound_le(
            s1.buf().subrange(lo as int, p as int),
            s2.buf().subrange(lo as int, p as int),
            pivot,
        );
        lemma_subrange_multiset_glue_left(
            s2.buf(),
            s1.buf(),
            lo as int,
            p as int,
            hi as int,
        );
    }
    quick_sort(iface, p + 1, hi);
    proof {
        let b = iface.buf();
        lemma_prefix_trans(orig.ops(), s2.ops(), iface.ops());
        lemma_multiset_bound_ge(
            s2.buf().subrange(p as int + 1, hi as int),
            b.subrange(p as int + 1, hi as int),
            pivot,
        );
        lemma_subrange_multiset_glue_right(
            b,
            s2.buf(),
            lo as int,
            p as int + 1,
            hi as int,
        );
        assert(b.subrange(lo as int, hi as int).to_multiset() == orig.buf().subrange(
            lo as int,
            hi as int,
        ).to_multiset());
        assert(b.subrange(lo as int, p as int) =~= s2.buf().subrange(lo as int, p as int));
        assert(b[p as int] == pivot);
        assert forall|x: int, y: int| lo <= x < y < hi implies b[x] <= b[y] by {
            if y < p {
            } else if y == p {
                if x < p {
                    assert(b.subrange(lo as int, p as int)[x - lo] <= pivot);
                }
            } else {
                assert(b.subrange(p as int + 1, hi as int)[y - (p + 1)] >= pivot);
                assert(b[y] >= pivot);
                if x < p {
                    assert(b.subrange(lo as int, p as int)[x - lo] <= pivot);
                    assert(b[x] <= pivot);
                } else if x == p {
                } else {
                    assert(b.subrange(p as int + 1, hi as int)[x - (p + 1)] >= pivot);
                }
            }
        }
    }
}

/// Quicksort over the whole buffer.
pub fn quick(iface: &mut Interface)
    requires
        old(iface).wf(),
    ensures
        run_extends(*old(iface), *final(iface)),
        sorted(final(iface).buf()),
{
    let ghost orig = *iface;
    let len = iface.len();
    quick_sort(iface, 0, len);
    proof {
        assert(iface.buf().subrange(0, len as int) =~= iface.buf());
        assert(orig.buf().subrange(0, len as int) =~= orig.buf());
    }
}

/// Where the pyramid modifier sends the value at position `m`: even
/// positions fan out to the left half in descending order, odd positions to
/// the right half in ascending order.
spec fn pyramid_target(len: int, m: int) -> int {
    if m % 2 == 0 {
        m / 2
    } else {
        len - 1 - (m - 1) / 2
    }
}

/// The inverse of [`pyramid_target`]: which position of the original buffer
/// the pyramid puts at position `k`.
pub open spec fn pyramid_src(len: int, k: int) -> int {
    if k <= (len - 1) / 2 {
        2 * k
    } else {
        2 * (len - 1 - k) + 1
    }
}

/// The buffer after the pyramid rearrangement: values fan out from the ends
/// toward a peak in the middle.
pub open spec fn pyramid_of(s: Seq<u32>) -> Seq<u32> {
    Seq::new(s.len(), |k: int| s[pyramid_src(s.len() as int, k)])
}

proof fn lemma_pyramid_src_inverse(len: int, m: int)
    requires
        1 <= len,
        0 <= m < len,
    ensures
        0 <= pyramid_target(len, m) < len,
        pyramid_src(len, pyramid_target(len, m)) == m,
{
    lemma_pyramid_target_bounds(len, m);
    if m % 2 == 0 {
        assert(m / 2 <= (len - 1) / 2);
    } else {
        assert(len - 1 - (m - 1) / 2 > (len - 1) / 2);
    }
}

proof fn lemma_pyramid_target_bounds(len: int, m: int)
    requires
        1 <= len,
        0 <= m < len,
    ensures
        0 <= pyramid_target(len, m) < len,
{
}

proof fn lemma_pyramid_target_injective(len: int, x: int, y: int)
    requires
        1 <= len,
        0 <= x < y < len,
    ensures
        pyramid_target(len, x) != pyramid_target(len, y),
{
    if x % 2 == 0 && y % 2 == 0 {
        assert(x <= y - 2);
    } else if x % 2 == 1 && y % 2 == 1 {
        assert(x <= y - 2);
    } else if x % 2 == 0 {
        assert(x / 2 <= (len - 1) / 2);
        assert((y - 1) / 2 <= (len - 2) / 2);
    } else {
        assert(y / 2 <= (len - 1) / 2);
        assert((x - 1) / 2 <= (len - 2) / 2);
    }
}

/// How many positions of the first `k` do not yet hold their own index: the
/// termination measure of the cycle-chasing rearrangement below.
spec fn misplaced(tp: Seq<usize>, k: int) -> nat
    decreases k,
{
    if k <= 0 {
        0
    } else {
        misplaced(tp, k - 1) + if tp[k - 1] as int != k - 1 {
            1nat
        } else {
            0nat
        }
    }
}

proof fn lemma_misplaced_le(a: Seq<usize>, b: Seq<usize>, k: int)
    requires
        forall|m: int| #![trigger a[m]] 0 <= m < k ==> (a[m] as int != m ==> b[m] as int != m),
    ensures
        misplaced(a, k) <= misplaced(b, k),
    decreases k,
{
    if k > 0 {
        lemma_misplaced_le(a, b, k - 1);
    }
}

proof fn lemma_misplaced_lt(a: Seq<usize>, b: Seq<usize>, k: int, m0: int)
    requires
        forall|m: int| #![trigger a[m]] 0 <= m < k ==> (a[m] as int != m ==> b[m] as int != m),
        0 <= m0 < k,
        a[m0] as int == m0,
        b[m0] as int != m0,
    ensures
        misplaced(a, k) < misplaced(b, k),
    decreases k,
{
    if m0 == k - 1 {
        lemma_misplaced_le(a, b, k - 1);
    } else {
        lemma_misplaced_lt(a, b, k - 1, m0);
    }
}

/// Rearranges the buffer into a pyramid: the largest values meet in the
/// middle, falling away toward both ends.
#[verifier::rlimit(80)]
pub fn pyramid(iface: &mut Interface)
    requires
        old(iface).wf(),
    ensures
        run_extends(*old(iface), *final(iface)),
        final(iface).buf() == pyramid_of(old(iface).buf()),
{
    let ghost orig = *iface;
    proof {
        lemma_prefix_refl(iface.ops());
    }
    let len = iface.len();
    if len == 0 {
        proof {
            assert(iface.buf() =~= pyramid_of(orig.buf()));
        }
        return ;
    }
    let ghost g = pyramid_of(orig.buf());
    let mid = (len - 1) / 2;
    let mut target_pos: Vec<usize> = vec![0; len];
    let mut left = mid;
    let mut right = mid + 1;
    let mut ii = len;
    while ii > 0
        invariant
            1 <= len,
            mid == (len - 1) / 2,
            ii <= len,
            target_pos@.len() == len,
            forall|m: int|
                ii <= m < len ==> target_pos@[m] as int == pyramid_target(len as int, m),
            ii >= 1 ==> left as int == (ii - 1) as int / 2,
            ii == 0 ==> left == 0,
            ii >= 2 ==> right as int == len - (ii as int / 2),
            ii <= 1 && len >= 2 ==> right as int == len - 1,
            len == 1 ==> right == 1,
        decreases ii,
    {
        ii -= 1;
        let i = ii;
        if i % 2 == 0 {
            target_pos.set(i, left);
            if left > 0 {
                left -= 1;
            }
        } else {
            target_pos.set(i, right);
            if right < len - 1 {
                right += 1;
            }
        }
    }
    proof {
        assert forall|x: int, y: int|
            0 <= x < y < len implies target_pos@[x] != target_pos@[y] by {
            lemma_pyramid_target_injective(len as int, x, y);
        }
        assert forall|m: int| 0 <= m < len implies target_pos@[m] < len by {
            lemma_pyramid_target_bounds(len as int, m);
        }
        assert(g.len() == len);
        assert forall|m: int|
            0 <= m < len implies g[target_pos@[m] as int] == iface.buf()[m] by {
            lemma_pyramid_src_inverse(len as int, m);
        }
    }
    let mut i: usize = 0;
    while i < len
        invariant
            iface.wf(),
            i <= len,
            len == iface.buf().len(),
            iface.start_buf() == orig.start_buf(),
            len == orig.buf().len(),
            iface.buf().to_multiset() == orig.buf().to_multiset(),
            orig.ops().is_prefix_of(iface.ops()),
            target_pos@.len() == len,
            forall|m: int| 0 <= m < len ==> target_pos@[m] < len,
            forall|x: int, y: int| 0 <= x < y < len ==> target_pos@[x] != target_pos@[y],
            forall|m: int| 0 <= m < i ==> target_pos@[m] as int == m,
            g.len() == len,
            forall|m: int| 0 <= m < len ==> g[target_pos@[m] as int] == iface.buf()[m],
        decreases len - i,
    {
        loop
            invariant
                iface.wf(),
                i < len,
                len == iface.buf().len(),
                iface.start_buf() == orig.start_buf(),
                len == orig.buf().len(),
                iface.buf().to_multiset() == orig.buf().to_multiset(),
                orig.ops().is_prefix_of(iface.ops()),
                target_pos@.len() == len,
                forall|m: int| 0 <= m < len ==> target_pos@[m] < len,
                forall|x: int, y: int| 0 <= x < y < len ==> target_pos@[x] != target_pos@[y],
                forall|m: int| 0 <= m < i ==> target_pos@[m] as int == m,
                g.len() == len,
                forall|m: int| 0 <= m < len ==> g[target_pos@[m] as int] == iface.buf()[m],
            ensures
                iface.wf(),
                len == iface.buf().len(),
                iface.start_buf() == orig.start_buf(),
                len == orig.buf().len(),
                iface.buf().to_multiset() == orig.buf().to_multiset(),
                orig.ops().is_prefix_of(iface.ops()),
                target_pos@.len() == len,
                forall|m: int| 0 <= m < len ==> target_pos@[m] < len,
                forall|x: int, y: int| 0 <= x < y < len ==> target_pos@[x] != target_pos@[y],
                forall|m: int| 0 <= m < i ==> target_pos@[m] as int == m,
                g.len() == len,
                forall|m: int| 0 <= m < len ==> g[target_pos@[m] as int] == iface.buf()[m],
                target_pos@[i as int] as int == i,
            decreases misplaced(target_pos@, len as int),
        {
            let swap_with = target_pos[i];
            if swap_with == i {
                break ;
            }
            proof {
                if swap_with < i {
                    assert(target_pos@[swap_with as int] as int == swap_with as int);
                    assert(false);
                }
                assert(target_pos@[swap_with as int] as int != swap_with as int);
            }
            let ghost tp_old = target_pos@;
            let ghost buf_old = iface.buf();
            iface.swap(i, swap_with);
            let a = target_pos[i];
            let b = target_pos[swap_with];
            target_pos.set(i, b);
            target_pos.set(swap_with, a);
            proof {
                let t = target_pos@;
                assert(t[swap_with as int] as int == swap_with as int);
                assert forall|x: int, y: int| 0 <= x < y < len implies t[x] != t[y] by {
                    assert(t[i as int] == tp_old[swap_with as int]);
                    assert(t[swap_with as int] == tp_old[i as int]);
                }
                lemma_misplaced_lt(t, tp_old, len as int, swap_with as int);
                assert forall|m: int|
                    0 <= m < len implies g[t[m] as int] == iface.buf()[m] by {
                    if m == i {
                        assert(t[m] == tp_old[swap_with as int]);
                        assert(iface.buf()[m] == buf_old[swap_with as int]);
                    } else if m == swap_with as int {
                        assert(t[m] == tp_old[i as int]);
                        assert(iface.buf()[m] == buf_old[i as int]);
                    }
                }
            }
        }
        i += 1;
    }
    proof {
        assert(iface.buf() =~= g);
    }
}

/// Reverses the buffer by exchanging ends toward the middle.
pub fn invert(iface: &mut Interface)
    requires
        old(iface).wf(),
    ensures
        run_extends(*old(iface), *final(iface)),
        final(iface).buf() == old(iface).buf().reverse(),
{
    let ghost orig = *iface;
    proof {
        lemma_prefix_refl(iface.ops());
    }
    let len = iface.len();
    let half = len / 2;
    let mut i: usize = 0;
    while i < half
        invariant
            iface.wf(),
            i <= half,
            half == len / 2,
            len == iface.buf().len(),
            iface.start_buf() == orig.start_buf(),
            len == orig.buf().len(),
            iface.buf().to_multiset() == orig.buf().to_multiset(),
            orig.ops().is_prefix_of(iface.ops()),
            forall|k: int| 0 <= k < i ==> iface.buf()[k] == orig.buf()[len - 1 - k],
            forall|k: int| 0 <= k < i ==> iface.buf()[len - 1 - k] == orig.buf()[k],
            forall|k: int| i <= k < len - i ==> iface.buf()[k] == orig.buf()[k],
        decreases half - i,
    {
        let j = len - 1 - i;
        iface.swap(i, j);
        i += 1;
    }
    proof {
        assert(iface.buf() =~= orig.buf().reverse());
    }
}

/// Runs the chosen algorithm against the interface.  Whatever the choice,
/// the buffer only gets rearranged; a primary algorithm leaves it sorted.
pub fn run_method(m: MethodId, iface: &mut Interface)
    requires
        old(iface).wf(),
    ensures
        run_extends(*old(iface), *final(iface)),
        is_sort(m) ==> sorted(final(iface).buf()),
        m == MethodId::Invert ==> final(iface).buf() == old(iface).buf().reverse(),
        m == MethodId::Pyramid ==> final(iface).buf() == pyramid_of(old(iface).buf()),
{
    match m {
        MethodId::Bubble => bubble(iface),
        MethodId::Bogo => bogo(iface),
        MethodId::Quick => quick(iface),
        MethodId::Insertion => insertion(iface),
        MethodId::Selection => selection(iface),
        MethodId::Gnome => gnome(iface),
        MethodId::Shell => shell(iface),
        MethodId::Cocktail => cocktail(iface),
        MethodId::Shuffle => shuffle(iface),
        MethodId::Invert => invert(iface),
        MethodId::Pyramid => pyramid(iface),
    }
}

/// The primary algorithms, in presentation order.
pub fn methods() -> (ms: Vec<Method>)
    ensures
        ms@.len() == 8,
        forall|k: int| 0 <= k < 8 ==> is_sort(#[trigger] ms@[k].id),
        ms@[0].id == MethodId::Bubble && ms@[0].name@ == "bubble"@,
        ms@[1].id == MethodId::Bogo && ms@[1].name@ == "bogo"@,
        ms@[2].id == MethodId::Quick && ms@[2].name@ == "quick"@,
        ms@[3].id == MethodId::Insertion && ms@[3].name@ == "insertion"@,
        ms@[4].id == MethodId::Selection && ms@[4].name@ == "selection"@,
        ms@[5].id == MethodId::Gnome && ms@[5].name@ == "gnome"@,
        ms@[6].id == MethodId::Shell && ms@[6].name@ == "shell"@,
        ms@[7].id == MethodId::Cocktail && ms@[7].name@ == "cocktail"@,
{
    let mut ms: Vec<Method> = Vec::new();
    ms.push(Method { name: "bubble", id: MethodId::Bubble });
    ms.push(Method { name: "bogo", id: MethodId::Bogo });
    ms.push(Method { name: "quick", id: MethodId::Quick });
    ms.push(Method { name: "insertion", id: MethodId::Insertion });
    ms.push(Method { name: "selection", id: MethodId::Selection });
    ms.push(Method { name: "gnome", id: MethodId::Gnome });
    ms.push(Method { name: "shell", id: MethodId::Shell });
    ms.push(Method { name: "cocktail", id: MethodId::Cocktail });
    ms
}

/// The state-preparation modifiers, in presentation order.
pub fn modifiers() -> (ms: Vec<Method>)
    ensures
        ms@.len() == 3,
        forall|k: int| 0 <= k < 3 ==> !is_sort(#[trigger] ms@[k].id),
        ms@[0].id == MethodId::Shuffle && ms@[0].name@ == "shuffle"@,
        ms@[1].id == MethodId::Invert && ms@[1].name@ == "invert"@,
        ms@[2].id == MethodId::Pyramid && ms@[2].name@ == "pyramid"@,
{
    let mut ms: Vec<Method> = Vec::new();
    ms.push(Method { name: "shuffle", id: MethodId::Shuffle });
    ms.push(Method { name: "invert", id: MethodId::Invert });
    ms.push(Method { name: "pyramid", id: MethodId::Pyramid });
    ms
}

} // verus!
