//! In-place sorting: bubble sort, quick sort, and merge sort, each proved
//! to leave a sorted permutation of its input.

use vstd::prelude::*;
use vstd::seq_lib::{group_to_multiset_ensures, lemma_multiset_commutative};
use vstd::multiset::group_multiset_axioms;

verus! {

/// The elements of `s` are in non-decreasing order.
pub open spec fn sorted(s: Seq<i32>) -> bool {
    forall|i: int, j: int| 0 <= i <= j < s.len() ==> s[i] <= s[j]
}

/// The elements of `s` between `lo` (inclusive) and `hi` (exclusive) are in
/// non-decreasing order.
pub open spec fn sorted_between(s: Seq<i32>, lo: int, hi: int) -> bool {
    forall|i: int, j: int| lo <= i <= j < hi ==> s[i] <= s[j]
}

/// Exchanging two positions of a sequence preserves its multiset.
proof fn lemma_swap_multiset(s: Seq<i32>, a: int, b: int)
    requires
        0 <= a < s.len(),
        0 <= b < s.len(),
    ensures
        s.update(a, s[b]).update(b, s[a]).to_multiset() == s.to_multiset(),
{
    broadcast use group_to_multiset_ensures;
    broadcast use group_multiset_axioms;

    if a == b {
        assert(s.update(a, s[b]).update(b, s[a]) =~= s);
    } else {
        let s1 = s.update(a, s[b]);
        let s2 = s1.update(b, s[a]);
        assert(s.contains(s[a]));
        assert(s.to_multiset().count(s[a]) > 0);
        assert(s1.to_multiset() == s.to_multiset().insert(s[b]).remove(s[a]));
        assert(s1[b] == s[b]);
        assert(s2.to_multiset() == s1.to_multiset().insert(s[a]).remove(s[b]));
        assert(s2.to_multiset() =~= s.to_multiset());
    }
}

/// Exchanging two positions inside `[lo, hi)` preserves the multiset of
/// that subrange.
proof fn lemma_swap_multiset_in_range(s: Seq<i32>, lo: int, hi: int, a: int, b: int)
    requires
        0 <= lo <= a < hi <= s.len(),
        lo <= b < hi,
    ensures
        s.update(a, s[b]).update(b, s[a]).subrange(lo, hi).to_multiset() == s.subrange(
            lo,
            hi,
        ).to_multiset(),
{
    let sub = s.subrange(lo, hi);
    assert(s.update(a, s[b]).update(b, s[a]).subrange(lo, hi) =~= sub.update(
        a - lo,
        sub[b - lo],
    ).update(b - lo, sub[a - lo]));
    lemma_swap_multiset(sub, a - lo, b - lo);
}

/// Two sequences with equal multisets hold the same values.
proof fn lemma_multiset_members(s1: Seq<i32>, s2: Seq<i32>)
    requires
        s1.to_multiset() == s2.to_multiset(),
    ensures
        forall|k: int| 0 <= k < s2.len() ==> s1.contains(#[trigger] s2[k]),
{
    broadcast use group_to_multiset_ensures;

    assert forall|k: int| 0 <= k < s2.len() implies s1.contains(#[trigger] s2[k]) by {
        assert(s2.contains(s2[k]));
        assert(s2.to_multiset().count(s2[k]) > 0);
        assert(s1.to_multiset().count(s2[k]) > 0);
    }
}

/// Exchanges the values at positions `a` and `b`.
fn swap_at(values: &mut Vec<i32>, a: usize, b: usize)
    requires
        a < old(values)@.len(),
        b < old(values)@.len(),
    ensures
        final(values)@ == old(values)@.update(a as int, old(values)@[b as int]).update(
            b as int,
            old(values)@[a as int],
        ),
        final(values)@.len() == old(values)@.len(),
        final(values)@.to_multiset() == old(values)@.to_multiset(),
{
    let x = values[a];
    let y = values[b];
    values.set(a, y);
    values.set(b, x);
    proof {
        lemma_swap_multiset(old(values)@, a as int, b as int);
    }
}

/// Bubble sort: repeatedly exchanges adjacent out-of-order elements until a
/// whole pass makes no exchange; each pass floats the largest remaining
/// element to the end of the unsorted prefix.
pub fn bubble_sort(values: &mut Vec<i32>)
    ensures
        sorted(final(values)@),
        final(values)@.to_multiset() == old(values)@.to_multiset(),
        final(values)@.len() == old(values)@.len(),
{
    let mut swapped = true;
    let mut n = values.len();
    while swapped
        invariant
            n <= values@.len(),
            values@.len() == old(values)@.len(),
            values@.to_multiset() == old(values)@.to_multiset(),
            forall|a: int, b: int|
                0 <= a < n <= b < values@.len() ==> values@[a] <= values@[b],
            sorted_between(values@, n as int, values@.len() as int),
            !swapped ==> sorted(values@),
        decreases n, (if swapped {
            1int
        } else {
            0int
        }),
    {
        swapped = false;
        let mut i: usize = 1;
        while i < n
            invariant
                1 <= i,
                n == 0 ==> i == 1,
                n >= 1 ==> i <= n,
                n <= values@.len(),
                values@.len() == old(values)@.len(),
                values@.to_multiset() == old(values)@.to_multiset(),
                forall|a: int, b: int|
                    0 <= a < n <= b < values@.len() ==> values@[a] <= values@[b],
                sorted_between(values@, n as int, values@.len() as int),
                forall|a: int| 0 <= a < i ==> (#[trigger] values@[a]) <= values@[i - 1],
                !swapped ==> sorted_between(values@, 0, i as int),
                n == 0 ==> !swapped,
            decreases n - i,
        {
            if values[i - 1] > values[i] {
                swap_at(values, i - 1, i);
                swapped = true;
            }
            i += 1;
        }
        n = if n > 0 {
            n - 1
        } else {
            0
        };
    }
}

/// Partitions `[lo, hi)` around the value in its last slot: values smaller
/// than the pivot move before it, the pivot lands at the returned index,
/// and everything after is at least the pivot.
fn partition(values: &mut Vec<i32>, lo: usize, hi: usize) -> (pi: usize)
    requires
        lo < hi,
        hi <= old(values)@.len(),
    ensures
        lo <= pi < hi,
        final(values)@.len() == old(values)@.len(),
        forall|k: int|
            (0 <= k < lo || hi <= k < old(values)@.len()) ==> final(values)@[k] == old(
                values,
            )@[k],
        final(values)@.subrange(lo as int, hi as int).to_multiset() == old(values)@.subrange(
            lo as int,
            hi as int,
        ).to_multiset(),
        forall|k: int| lo <= k < pi ==> final(values)@[k] < final(values)@[pi as int],
        forall|k: int| pi < k < hi ==> final(values)@[pi as int] <= final(values)@[k],
{
    let pivot = values[hi - 1];
    let mut store = lo;
    let mut i = lo;
    while i < hi - 1
        invariant
            lo <= store <= i <= hi - 1,
            hi <= values@.len(),
            values@.len() == old(values)@.len(),
            values@[hi - 1] == pivot,
            forall|k: int|
                (0 <= k < lo || hi <= k < old(values)@.len()) ==> values@[k] == old(values)@[k],
            values@.subrange(lo as int, hi as int).to_multiset() == old(values)@.subrange(
                lo as int,
                hi as int,
            ).to_multiset(),
            forall|k: int| lo <= k < store ==> values@[k] < pivot,
            forall|k: int| store <= k < i ==> values@[k] >= pivot,
        decreases hi - 1 - i,
    {
        if values[i] < pivot {
            let ghost pre = values@;
            swap_at(values, i, store);
            proof {
                lemma_swap_multiset_in_range(pre, lo as int, hi as int, i as int, store as int);
            }
            store += 1;
        }
        i += 1;
    }
    let ghost pre = values@;
    swap_at(values, store, hi - 1);
    proof {
        lemma_swap_multiset_in_range(pre, lo as int, hi as int, store as int, hi as int - 1);
    }
    store
}

/// Quick sort over the subrange `[lo, hi)`: partition around a pivot, then
/// sort the two sides recursively.
fn quick_sort_range(values: &mut Vec<i32>, lo: usize, hi: usize)
    requires
        lo <= hi,
        hi <= old(values)@.len(),
    ensures
        final(values)@.len() == old(values)@.len(),
        forall|k: int|
            (0 <= k < lo || hi <= k < old(values)@.len()) ==> final(values)@[k] == old(
                values,
            )@[k],
        final(values)@.subrange(lo as int, hi as int).to_multiset() == old(values)@.subrange(
            lo as int,
            hi as int,
        ).to_multiset(),
        sorted_between(final(values)@, lo as int, hi as int),
    decreases hi - lo,
{
    if hi - lo <= 1 {
        return ;
    }
    let pi = partition(values, lo, hi);
    let ghost s0 = values@;
    let ghost pivot = s0[pi as int];
    quick_sort_range(values, lo, pi);
    let ghost s1 = values@;
    quick_sort_range(values, pi + 1, hi);
    let ghost s2 = values@;
    proof {
        broadcast use group_to_multiset_ensures;

        // The pivot slot is outside both recursive subranges.
        assert(s2[pi as int] == pivot);
        // Values before the pivot keep their bound: they are drawn from the
        // multiset of the left side, all below the pivot.
        lemma_multiset_members(s0.subrange(lo as int, pi as int), s1.subrange(lo as int, pi as int));
        assert(s2.subrange(lo as int, pi as int) =~= s1.subrange(lo as int, pi as int));
        assert forall|k: int| lo <= k < pi implies s2[k] < pivot by {
            let sub = s1.subrange(lo as int, pi as int);
            assert(sub[k - lo] == s2[k]);
            assert(s0.subrange(lo as int, pi as int).contains(sub[k - lo]));
            let j = choose|j: int|
                0 <= j < s0.subrange(lo as int, pi as int).len() && (#[trigger] s0.subrange(
                    lo as int,
                    pi as int,
                )[j]) == sub[k - lo];
            assert(s0[lo + j] < pivot);
        }
        // Values after the pivot keep their bound likewise.
        lemma_multiset_members(
            s1.subrange(pi as int + 1, hi as int),
            s2.subrange(pi as int + 1, hi as int),
        );
        assert(s1.subrange(pi as int + 1, hi as int) =~= s0.subrange(pi as int + 1, hi as int));
        assert forall|k: int| pi < k < hi implies pivot <= s2[k] by {
            let sub = s2.subrange(pi as int + 1, hi as int);
            assert(sub[k - pi - 1] == s2[k]);
            assert(s1.subrange(pi as int + 1, hi as int).contains(sub[k - pi - 1]));
            let j = choose|j: int|
                0 <= j < s1.subrange(pi as int + 1, hi as int).len() && (#[trigger] s1.subrange(
                    pi as int + 1,
                    hi as int,
                )[j]) == sub[k - pi - 1];
            assert(s0[pi + 1 + j] >= pivot);
        }
        // The sorted left half is untouched by the right recursion.
        assert(sorted_between(s2, lo as int, pi as int));
        assert(sorted_between(s2, pi as int + 1, hi as int));
        assert(sorted_between(s2, lo as int, hi as int));
        // Multiset bookkeeping: the range splits at the pivot slot.
        lemma_quick_multiset(s0, s1, s2, lo as int, pi as int, hi as int);
    }
}

/// Splices the multiset facts of the two recursive quick-sort calls into
/// one fact about the whole range.
proof fn lemma_quick_multiset(s0: Seq<i32>, s1: Seq<i32>, s2: Seq<i32>, lo: int, pi: int, hi: int)
    requires
        0 <= lo <= pi < hi,
        hi <= s0.len(),
        s0.len() == s1.len() == s2.len(),
        s1.subrange(lo, pi).to_multiset() == s0.subrange(lo, pi).to_multiset(),
        forall|k: int| (0 <= k < lo || pi <= k < s0.len()) ==> s1[k] == s0[k],
        s2.subrange(pi + 1, hi).to_multiset() == s1.subrange(pi + 1, hi).to_multiset(),
        forall|k: int| (0 <= k < pi + 1 || hi <= k < s1.len()) ==> s2[k] == s1[k],
    ensures
        s2.subrange(lo, hi).to_multiset() == s0.subrange(lo, hi).to_multiset(),
{
    lemma_multiset_commutative(s0.subrange(lo, pi), s0.subrange(pi, hi));
    lemma_multiset_commutative(s1.subrange(lo, pi), s1.subrange(pi, hi));
    lemma_multiset_commutative(s1.subrange(pi, pi + 1), s1.subrange(pi + 1, hi));
    lemma_multiset_commutative(s2.subrange(pi, pi + 1), s2.subrange(pi + 1, hi));
    assert(s0.subrange(lo, pi) + s0.subrange(pi, hi) =~= s0.subrange(lo, hi));
    assert(s1.subrange(lo, pi) + s1.subrange(pi, hi) =~= s1.subrange(lo, hi));
    assert(s1.subrange(pi, pi + 1) + s1.subrange(pi + 1, hi) =~= s1.subrange(pi, hi));
    assert(s2.subrange(pi, pi + 1) + s2.subrange(pi + 1, hi) =~= s2.subrange(pi, hi));
    assert(s0.subrange(pi, hi) =~= s1.subrange(pi, hi));
    assert(s1.subrange(pi, pi + 1) =~= s2.subrange(pi, pi + 1));
    assert(s2.subrange(lo, pi) =~= s1.subrange(lo, pi));
    lemma_multiset_commutative(s2.subrange(lo, pi), s2.subrange(pi, hi));
    assert(s2.subrange(lo, pi) + s2.subrange(pi, hi) =~= s2.subrange(lo, hi));
}

/// Merge sort over the subrange `[lo, hi)`: sort the two halves
/// recursively, merge them into a scratch buffer in order, and copy the
/// buffer back.
fn merge_sort_range(values: &mut Vec<i32>, lo: usize, hi: usize)
    requires
        lo <= hi,
        hi <= old(values)@.len(),
    ensures
        final(values)@.len() == old(values)@.len(),
        forall|k: int|
            (0 <= k < lo || hi <= k < old(values)@.len()) ==> final(values)@[k] == old(
                values,
            )@[k],
        final(values)@.subrange(lo as int, hi as int).to_multiset() == old(values)@.subrange(
            lo as int,
            hi as int,
        ).to_multiset(),
        sorted_between(final(values)@, lo as int, hi as int),
    decreases hi - lo,
{
    broadcast use group_to_multiset_ensures;
    broadcast use group_multiset_axioms;

    if hi - lo <= 1 {
        return ;
    }
    let mid = lo + (hi - lo) / 2;
    let ghost orig = values@;
    merge_sort_range(values, lo, mid);
    let ghost half = values@;
    merge_sort_range(values, mid, hi);
    let ghost vs = values@;
    proof {
        assert(vs.subrange(lo as int, mid as int) =~= half.subrange(lo as int, mid as int));
        assert(half.subrange(mid as int, hi as int) =~= orig.subrange(mid as int, hi as int));
    }
    let mut merged: Vec<i32> = Vec::new();
    let mut a = lo;
    let mut b = mid;
    while a < mid && b < hi
        invariant
            lo <= a <= mid <= b <= hi,
            hi <= values@.len(),
            values@ == vs,
            sorted_between(vs, lo as int, mid as int),
            sorted_between(vs, mid as int, hi as int),
            merged@.len() == a - lo + b - mid,
            merged@.to_multiset() == (vs.subrange(lo as int, a as int) + vs.subrange(
                mid as int,
                b as int,
            )).to_multiset(),
            sorted(merged@),
            forall|k: int|
                0 <= k < merged@.len() && a < mid ==> (#[trigger] merged@[k]) <= vs[a as int],
            forall|k: int|
                0 <= k < merged@.len() && b < hi ==> (#[trigger] merged@[k]) <= vs[b as int],
        decreases hi + mid - a - b,
    {
        let ghost pre = merged@;
        if values[a] <= values[b] {
            merged.push(values[a]);
            proof {
                broadcast use group_to_multiset_ensures;
                broadcast use group_multiset_axioms;

                assert(merged@ == pre.push(vs[a as int]));
                assert(merged@.to_multiset() == pre.to_multiset().insert(vs[a as int]));
                lemma_merge_push(vs, lo as int, a as int, mid as int, b as int, true);
            }
            a += 1;
        } else {
            merged.push(values[b]);
            proof {
                broadcast use group_to_multiset_ensures;
                broadcast use group_multiset_axioms;

                assert(merged@ == pre.push(vs[b as int]));
                assert(merged@.to_multiset() == pre.to_multiset().insert(vs[b as int]));
                lemma_merge_push(vs, lo as int, a as int, mid as int, b as int, false);
            }
            b += 1;
        }
    }
    while a < mid
        invariant
            lo <= a <= mid <= b <= hi,
            hi <= values@.len(),
            values@ == vs,
            sorted_between(vs, lo as int, mid as int),
            sorted_between(vs, mid as int, hi as int),
            merged@.len() == a - lo + b - mid,
            merged@.to_multiset() == (vs.subrange(lo as int, a as int) + vs.subrange(
                mid as int,
                b as int,
            )).to_multiset(),
            sorted(merged@),
            a < mid ==> b == hi,
            forall|k: int|
                0 <= k < merged@.len() && a < mid ==> (#[trigger] merged@[k]) <= vs[a as int],
            forall|k: int|
                0 <= k < merged@.len() && b < hi ==> (#[trigger] merged@[k]) <= vs[b as int],
        decreases mid - a,
    {
        let ghost pre = merged@;
        merged.push(values[a]);
        proof {
            broadcast use group_to_multiset_ensures;
            broadcast use group_multiset_axioms;

            assert(merged@ == pre.push(vs[a as int]));
            assert(merged@.to_multiset() == pre.to_multiset().insert(vs[a as int]));
            lemma_merge_push(vs, lo as int, a as int, mid as int, b as int, true);
        }
        a += 1;
    }
    while b < hi
        invariant
            lo <= a <= mid <= b <= hi,
            a == mid,
            hi <= values@.len(),
            values@ == vs,
            sorted_between(vs, lo as int, mid as int),
            sorted_between(vs, mid as int, hi as int),
            merged@.len() == a - lo + b - mid,
            merged@.to_multiset() == (vs.subrange(lo as int, a as int) + vs.subrange(
                mid as int,
                b as int,
            )).to_multiset(),
            sorted(merged@),
            forall|k: int|
                0 <= k < merged@.len() && b < hi ==> (#[trigger] merged@[k]) <= vs[b as int],
        decreases hi - b,
    {
        let ghost pre = merged@;
        merged.push(values[b]);
        proof {
            broadcast use group_to_multiset_ensures;
            broadcast use group_multiset_axioms;

            assert(merged@ == pre.push(vs[b as int]));
            assert(merged@.to_multiset() == pre.to_multiset().insert(vs[b as int]));
            lemma_merge_push(vs, lo as int, a as int, mid as int, b as int, false);
        }
        b += 1;
    }
    let total = hi - lo;
    let mut t: usize = 0;
    while t < total
        invariant
            t <= total,
            total == hi - lo,
            lo + total <= values@.len(),
            values@.len() == vs.len(),
            merged@.len() == total,
            forall|k: int|
                0 <= k < values@.len() && !(lo <= k < lo + t) ==> values@[k] == vs[k],
            forall|k: int| lo <= k < lo + t ==> values@[k] == merged@[k - lo],
        decreases total - t,
    {
        values.set(lo + t, merged[t]);
        t += 1;
    }
    proof {
        assert(values@.subrange(lo as int, hi as int) =~= merged@);
        lemma_multiset_commutative(
            vs.subrange(lo as int, mid as int),
            vs.subrange(mid as int, hi as int),
        );
        assert(vs.subrange(lo as int, mid as int) + vs.subrange(mid as int, hi as int)
            =~= vs.subrange(lo as int, hi as int));
        lemma_multiset_commutative(
            orig.subrange(lo as int, mid as int),
            orig.subrange(mid as int, hi as int),
        );
        assert(orig.subrange(lo as int, mid as int) + orig.subrange(mid as int, hi as int)
            =~= orig.subrange(lo as int, hi as int));
        assert(values@.subrange(lo as int, hi as int).to_multiset() == orig.subrange(
            lo as int,
            hi as int,
        ).to_multiset());
    }
}

/// One merge step: pushing the smaller frontier element keeps the scratch
/// buffer's multiset in step with the consumed prefixes.
proof fn lemma_merge_push(vs: Seq<i32>, lo: int, a: int, mid: int, b: int, from_left: bool)
    requires
        0 <= lo <= a <= mid <= b <= vs.len(),
        from_left ==> a < mid,
        !from_left ==> b < vs.len(),
    ensures
        from_left ==> (vs.subrange(lo, a + 1) + vs.subrange(mid, b)).to_multiset() == (
        vs.subrange(lo, a) + vs.subrange(mid, b)).to_multiset().insert(vs[a]),
        !from_left ==> (vs.subrange(lo, a) + vs.subrange(mid, b + 1)).to_multiset() == (
        vs.subrange(lo, a) + vs.subrange(mid, b)).to_multiset().insert(vs[b]),
{
    broadcast use group_to_multiset_ensures;
    broadcast use group_multiset_axioms;

    let left = vs.subrange(lo, a);
    let right = vs.subrange(mid, b);
    if from_left {
        assert(vs.subrange(lo, a + 1) =~= left.push(vs[a]));
        lemma_multiset_commutative(left.push(vs[a]), right);
        lemma_multiset_commutative(left, right);
        assert(left.push(vs[a]).to_multiset() == left.to_multiset().insert(vs[a]));
        assert(left.to_multiset().insert(vs[a]).add(right.to_multiset()) =~= left.to_multiset().add(
            right.to_multiset(),
        ).insert(vs[a]));
    } else {
        assert(vs.subrange(mid, b + 1) =~= right.push(vs[b]));
        lemma_multiset_commutative(left, right.push(vs[b]));
        lemma_multiset_commutative(left, right);
        assert(right.push(vs[b]).to_multiset() == right.to_multiset().insert(vs[b]));
        assert(left.to_multiset().add(right.to_multiset().insert(vs[b]))
            =~= left.to_multiset().add(right.to_multiset()).insert(vs[b]));
    }
}

/// Merge sort: split the range in half, sort each half recursively, and
/// merge the sorted halves.
pub fn merge_sort(values: &mut Vec<i32>)
    ensures
        sorted(final(values)@),
        final(values)@.to_multiset() == old(values)@.to_multiset(),
        final(values)@.len() == old(values)@.len(),
{
    let len = values.len();
    merge_sort_range(values, 0, len);
    proof {
        assert(values@.subrange(0, len as int) =~= values@);
        assert(old(values)@.subrange(0, len as int) =~= old(values)@);
    }
}

/// Quick sort: partition around a pivot and sort both sides recursively.
pub fn quick_sort(values: &mut Vec<i32>)
    ensures
        sorted(final(values)@),
        final(values)@.to_multiset() == old(values)@.to_multiset(),
        final(values)@.len() == old(values)@.len(),
{
    let len = values.len();
    quick_sort_range(values, 0, len);
    proof {
        assert(values@.subrange(0, len as int) =~= values@);
        assert(old(values)@.subrange(0, len as int) =~= old(values)@);
    }
}

} // verus!
