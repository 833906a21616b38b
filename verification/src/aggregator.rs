//! The collection of primes found during a scan, and the statistics drawn
//! from it once the scan is over.

use crate::sorting::{is_sorting_of, lemma_ascending_unique, sort_ascending};
use vstd::prelude::*;
use vstd::seq_lib::group_to_multiset_ensures;

verus! {

/// How many of the largest primes a summary lists.
pub const TOP_COUNT: usize = 10;

/// The sum of `values`.
pub open spec fn total(values: Seq<u64>) -> nat
    decreases values.len(),
{
    if values.len() == 0 {
        0
    } else {
        total(values.drop_last()) + values.last() as nat
    }
}

/// The last `count` elements of `sorted`, or all of it where it has fewer.
pub open spec fn largest(sorted: Seq<u64>, count: nat) -> Seq<u64> {
    if sorted.len() <= count {
        sorted
    } else {
        sorted.subrange(sorted.len() - count, sorted.len() as int)
    }
}

/// What is known of a finished scan.
#[derive(Debug)]
pub struct Summary {
    /// The primes found, in ascending order.
    pub primes: Vec<u64>,
    /// How many primes were found.
    pub count: usize,
    /// The sum of the primes found.
    pub sum: u128,
    /// The largest primes found, `TOP_COUNT` of them at most, in ascending order.
    pub largest: Vec<u64>,
}

/// `summary` is the summary of a scan in which `recorded` was recorded, in
/// that order.
pub open spec fn summarizes(summary: Summary, recorded: Seq<u64>) -> bool {
    &&& is_sorting_of(summary.primes@, recorded)
    &&& summary.count == recorded.len()
    &&& summary.sum == total(recorded)
    &&& summary.largest@ == largest(summary.primes@, TOP_COUNT as nat)
}

/// Removing one element lowers the sum by that element.
proof fn lemma_total_remove(values: Seq<u64>, i: int)
    requires
        0 <= i < values.len(),
    ensures
        total(values) == total(values.remove(i)) + values[i],
    decreases values.len(),
{
    if i < values.len() - 1 {
        assert(values.remove(i).drop_last() =~= values.drop_last().remove(i));
        lemma_total_remove(values.drop_last(), i);
    }
}

/// The sum does not depend on the order of the values.
pub proof fn lemma_total_of_permutation(a: Seq<u64>, b: Seq<u64>)
    requires
        a.to_multiset() == b.to_multiset(),
    ensures
        total(a) == total(b),
    decreases a.len(),
{
    broadcast use group_to_multiset_ensures;

    if a.len() == 0 {
        assert(b.to_multiset().len() == 0);
    } else {
        let x = a.last();
        assert(a.to_multiset().count(x) > 0);
        let i = choose|i: int| 0 <= i < b.len() && b[i] == x;
        assert(a.drop_last() =~= a.remove(a.len() - 1));
        lemma_total_remove(b, i);
        lemma_total_of_permutation(a.drop_last(), b.remove(i));
    }
}

/// Each value is below 2^64, so the sum of `n` of them is below `n` * 2^64.
proof fn lemma_total_bound(values: Seq<u64>)
    ensures
        total(values) <= values.len() * 0xffff_ffff_ffff_ffff,
    decreases values.len(),
{
    if values.len() > 0 {
        lemma_total_bound(values.drop_last());
    }
}

/// The sum of `values`, in a width that holds it whatever they are.
pub fn sum_of(values: &Vec<u64>) -> (sum: u128)
    ensures
        sum == total(values@),
{
    let mut sum: u128 = 0;
    let mut i: usize = 0;
    while i < values.len()
        invariant
            i <= values.len(),
            sum == total(values@.take(i as int)),
        decreases values.len() - i,
    {
        proof {
            let next = values@.take(i + 1);
            assert(next.drop_last() =~= values@.take(i as int));
            lemma_total_bound(next);
            assert(next.len() * 0xffff_ffff_ffff_ffff <= u128::MAX) by (nonlinear_arith)
                requires
                    next.len() <= usize::MAX,
            ;
        }
        sum = sum + values[i] as u128;
        i += 1;
    }
    assert(values@.take(i as int) =~= values@);
    sum
}

/// The last `count` elements of `sorted`, or all of it where it has fewer.
pub fn largest_of(sorted: &Vec<u64>, count: usize) -> (top: Vec<u64>)
    ensures
        top@ == largest(sorted@, count as nat),
{
    let start = if sorted.len() <= count {
        0
    } else {
        sorted.len() - count
    };
    let mut top: Vec<u64> = Vec::new();
    let mut i: usize = start;
    while i < sorted.len()
        invariant
            start <= i <= sorted.len(),
            top@ == sorted@.subrange(start as int, i as int),
        decreases sorted.len() - i,
    {
        top.push(sorted[i]);
        i += 1;
    }
    top
}

/// The primes recorded so far, in the order in which they were recorded.
pub struct Aggregator {
    primes: Vec<u64>,
}

impl View for Aggregator {
    type V = Seq<u64>;

    closed spec fn view(&self) -> Seq<u64> {
        self.primes@
    }
}

impl Aggregator {
    /// An aggregator in which nothing is recorded.
    pub fn new() -> (aggregator: Self)
        ensures
            aggregator@ == Seq::<u64>::empty(),
    {
        Aggregator { primes: Vec::new() }
    }

    /// Records `p` after all that was recorded before.
    pub fn record(&mut self, p: u64)
        ensures
            final(self)@ == old(self)@.push(p),
    {
        self.primes.push(p);
    }

    /// How many values are recorded.
    pub fn len(&self) -> (count: usize)
        ensures
            count == self@.len(),
    {
        self.primes.len()
    }

    /// What is recorded, in the order in which it was recorded.
    pub fn recorded(&self) -> (values: &Vec<u64>)
        ensures
            values@ == self@,
    {
        &self.primes
    }

    /// Ends the collection: sorts what was recorded and draws the statistics.
    pub fn finalize(self) -> (summary: Summary)
        ensures
            summarizes(summary, self@),
    {
        let count = self.primes.len();
        let sum = sum_of(&self.primes);
        let primes = sort_ascending(self.primes);
        let largest = largest_of(&primes, TOP_COUNT);
        Summary { primes, count, sum, largest }
    }
}

/// Two collections that hold the same values, recorded in whatever order,
/// have the same summary: the same sorted list, count, sum and largest
/// primes.
pub proof fn lemma_summary_ignores_order(
    first: Seq<u64>,
    second: Seq<u64>,
    of_first: Summary,
    of_second: Summary,
)
    requires
        first.to_multiset() == second.to_multiset(),
        summarizes(of_first, first),
        summarizes(of_second, second),
    ensures
        of_first.primes@ == of_second.primes@,
        of_first.count == of_second.count,
        of_first.sum == of_second.sum,
        of_first.largest@ == of_second.largest@,
{
    broadcast use group_to_multiset_ensures;

    lemma_ascending_unique(of_first.primes@, of_second.primes@);
    lemma_total_of_permutation(first, second);
    assert(second.len() == second.to_multiset().len());
}

} // verus!
