//! Ascending order on sequences of `u64`, and a merge sort that establishes it.

use vstd::multiset::{group_multiset_axioms, group_multiset_properties};
use vstd::prelude::*;
use vstd::seq_lib::{group_to_multiset_ensures, lemma_multiset_commutative, lemma_sorted_unique};

verus! {

/// No element of `s` is larger than one that follows it.
pub open spec fn ascending(s: Seq<u64>) -> bool {
    forall|i: int, j: int| 0 <= i < j < s.len() ==> s[i] <= s[j]
}

/// `sorted` is `values` put in ascending order: the same values, each as
/// often as before.
pub open spec fn is_sorting_of(sorted: Seq<u64>, values: Seq<u64>) -> bool {
    ascending(sorted) && sorted.to_multiset() == values.to_multiset()
}

/// A sequence has only one ascending arrangement.
pub proof fn lemma_ascending_unique(a: Seq<u64>, b: Seq<u64>)
    requires
        ascending(a),
        ascending(b),
        a.to_multiset() == b.to_multiset(),
    ensures
        a == b,
{
    let leq = |x: u64, y: u64| x <= y;
    lemma_sorted_unique(a, b, leq);
}

/// Where `whole` holds the values of `a` and `b` together, a value pushed to
/// `whole` and to either part keeps it so.
proof fn lemma_push_into_union(whole: Seq<u64>, a: Seq<u64>, b: Seq<u64>, x: u64)
    requires
        whole.to_multiset() == a.to_multiset().add(b.to_multiset()),
    ensures
        whole.push(x).to_multiset() == a.push(x).to_multiset().add(b.to_multiset()),
        whole.push(x).to_multiset() == a.to_multiset().add(b.push(x).to_multiset()),
{
    broadcast use {group_to_multiset_ensures, group_multiset_axioms, group_multiset_properties};

}

/// Merges two ascending vectors into one.
fn merge(left: &Vec<u64>, right: &Vec<u64>) -> (merged: Vec<u64>)
    requires
        ascending(left@),
        ascending(right@),
    ensures
        ascending(merged@),
        merged@.to_multiset() == left@.to_multiset().add(right@.to_multiset()),
        merged@.len() == left@.len() + right@.len(),
{
    broadcast use {group_to_multiset_ensures, group_multiset_axioms};

    let mut merged: Vec<u64> = Vec::new();
    let mut i: usize = 0;
    let mut j: usize = 0;
    while i < left.len() || j < right.len()
        invariant
            i <= left.len(),
            j <= right.len(),
            ascending(left@),
            ascending(right@),
            ascending(merged@),
            merged@.len() == i + j,
            merged@.to_multiset() == left@.take(i as int).to_multiset().add(
                right@.take(j as int).to_multiset(),
            ),
            forall|k: int| 0 <= k < merged@.len() && i < left.len() ==> merged@[k] <= left@[i as int],
            forall|k: int|
                0 <= k < merged@.len() && j < right.len() ==> merged@[k] <= right@[j as int],
        decreases left.len() - i + (right.len() - j),
    {
        let take_left = if i < left.len() && j < right.len() {
            left[i] <= right[j]
        } else {
            i < left.len()
        };
        let ghost before = merged@;
        let ghost from_left = left@.take(i as int);
        let ghost from_right = right@.take(j as int);
        if take_left {
            let x = left[i];
            merged.push(x);
            i += 1;
            assert(left@.take(i as int) =~= from_left.push(x));
            proof {
                lemma_push_into_union(before, from_left, from_right, x);
            }
        } else {
            let x = right[j];
            merged.push(x);
            j += 1;
            assert(right@.take(j as int) =~= from_right.push(x));
            proof {
                lemma_push_into_union(before, from_left, from_right, x);
            }
        }
    }
    assert(left@.take(i as int) =~= left@);
    assert(right@.take(j as int) =~= right@);
    merged
}

/// Sorts the part of `values` from index `low` up to, not including, `high`.
fn sort_range(values: &Vec<u64>, low: usize, high: usize) -> (sorted: Vec<u64>)
    requires
        low <= high <= values.len(),
    ensures
        is_sorting_of(sorted@, values@.subrange(low as int, high as int)),
        sorted@.len() == high - low,
    decreases high - low,
{
    let ghost part = values@.subrange(low as int, high as int);
    if high - low <= 1 {
        let mut sorted: Vec<u64> = Vec::new();
        if low < high {
            sorted.push(values[low]);
        }
        assert(sorted@ =~= part);
        sorted
    } else {
        let middle = low + (high - low) / 2;
        let left = sort_range(values, low, middle);
        let right = sort_range(values, middle, high);
        proof {
            let first = values@.subrange(low as int, middle as int);
            let second = values@.subrange(middle as int, high as int);
            assert(part =~= first + second);
            lemma_multiset_commutative(first, second);
        }
        merge(&left, &right)
    }
}

/// Returns `values` in ascending order.
pub fn sort_ascending(values: Vec<u64>) -> (sorted: Vec<u64>)
    ensures
        is_sorting_of(sorted@, values@),
        sorted@.len() == values@.len(),
{
    assert(values@.subrange(0, values@.len() as int) =~= values@);
    sort_range(&values, 0, values.len())
}

} // verus!
