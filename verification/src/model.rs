//! A scan as a transition system: workers that take candidates from the
//! shared counter, test them, and record the primes, one step at a time and
//! in any order.
//!
//! A worker is idle, holds a candidate that it has taken and not yet dealt
//! with, or is done. A step moves one worker on: an idle worker takes the
//! next candidate; a worker that holds one records it if it is a prime within
//! the limit, and stops if it is beyond the limit. Taking a candidate and
//! recording a prime are separate steps, so primes are recorded in no
//! particular order. Whatever the order of the steps, a scan that has ended
//! has recorded each prime up to the limit once.

use crate::aggregator::{lemma_total_of_permutation, summarizes, Summary};
use crate::distributor::{candidate_after, FIRST_CANDIDATE};
use crate::primality::{lemma_primes_up_to, prime, primes_up_to};
use crate::sorting::lemma_ascending_unique;
use crate::worker::{decision, Action};
use vstd::multiset::{group_multiset_axioms, group_multiset_properties, Multiset};
use vstd::prelude::*;
use vstd::seq_lib::group_to_multiset_ensures;

verus! {

/// Where a worker stands.
#[derive(Clone, Copy, Debug, PartialEq, Eq, Structural)]
pub enum Worker {
    /// Ready to take a candidate.
    Idle,
    /// Has taken this candidate and not yet dealt with it.
    Holding(u64),
    /// Has met a candidate beyond the limit and stopped.
    Done,
}

/// The state of a scan.
pub struct State {
    /// The largest number to test.
    pub limit: u64,
    /// How many candidates the counter has handed out.
    pub issued: nat,
    /// The workers.
    pub workers: Seq<Worker>,
    /// The primes recorded so far, in the order in which they were recorded.
    pub recorded: Seq<u64>,
}

/// The state in which a scan up to `limit` with `thread_count` workers begins.
pub open spec fn initial(limit: u64, thread_count: nat) -> State {
    State {
        limit,
        issued: 0,
        workers: Seq::new(thread_count, |w: int| Worker::Idle),
        recorded: Seq::empty(),
    }
}

/// The counter is wide enough for the candidates of a scan up to `limit`
/// with `thread_count` workers.
pub open spec fn counter_suffices(limit: u64, thread_count: nat) -> bool {
    initial(limit, thread_count).beyond() + thread_count <= 0x1_0000_0000_0000_0000
}

/// For a number of workers that fits in 32 bits, the counter is wide enough
/// exactly where `limit + thread_count` fits in 64 bits.
pub proof fn lemma_counter_suffices(limit: u64, thread_count: u32)
    ensures
        counter_suffices(limit, thread_count as nat) <==> limit + thread_count <= u64::MAX,
{
}

/// What a scan up to `limit` with `thread_count` workers finds: the primes
/// up to `limit`, or nothing where there is no worker to find them.
pub open spec fn found(limit: u64, thread_count: nat) -> Seq<u64> {
    if thread_count == 0 {
        Seq::empty()
    } else {
        primes_up_to(limit)
    }
}

/// A worker that takes no further candidate: it is done, or holds a candidate
/// beyond the limit and will be done at its next step.
pub open spec fn halting(worker: Worker, limit: u64) -> bool {
    match worker {
        Worker::Idle => false,
        Worker::Holding(candidate) => candidate > limit,
        Worker::Done => true,
    }
}

/// How many of the workers are halting.
pub open spec fn count_halting(workers: Seq<Worker>, limit: u64) -> nat
    decreases workers.len(),
{
    if workers.len() == 0 {
        0
    } else {
        count_halting(workers.drop_last(), limit) + if halting(workers.last(), limit) {
            1nat
        } else {
            0nat
        }
    }
}

/// How many of the workers hold a candidate.
pub open spec fn count_holding(workers: Seq<Worker>) -> nat
    decreases workers.len(),
{
    if workers.len() == 0 {
        0
    } else {
        count_holding(workers.drop_last()) + if workers.last() is Holding {
            1nat
        } else {
            0nat
        }
    }
}

/// Some worker holds `candidate`.
pub open spec fn held(workers: Seq<Worker>, candidate: u64) -> bool {
    exists|w: int| 0 <= w < workers.len() && #[trigger] workers[w] == Worker::Holding(candidate)
}

impl State {
    /// The state after one step of worker `w`. A worker that is done, or
    /// that does not exist, changes nothing.
    pub open spec fn advance(self, w: int) -> State {
        if 0 <= w < self.workers.len() {
            match self.workers[w] {
                Worker::Idle => State {
                    issued: self.issued + 1,
                    workers: self.workers.update(w, Worker::Holding(candidate_after(self.issued))),
                    ..self
                },
                Worker::Holding(candidate) => match decision(candidate, self.limit) {
                    Action::Record(p) => State {
                        workers: self.workers.update(w, Worker::Idle),
                        recorded: self.recorded.push(p),
                        ..self
                    },
                    Action::Skip => State { workers: self.workers.update(w, Worker::Idle), ..self },
                    Action::Stop => State { workers: self.workers.update(w, Worker::Done), ..self },
                },
                Worker::Done => self,
            }
        } else {
            self
        }
    }

    /// The state after the steps of `schedule`, which names the worker of
    /// each step in turn.
    pub open spec fn after(self, schedule: Seq<int>) -> State
        decreases schedule.len(),
    {
        if schedule.len() == 0 {
            self
        } else {
            self.after(schedule.drop_last()).advance(schedule.last())
        }
    }

    /// Every worker is done.
    pub open spec fn finished(self) -> bool {
        forall|w: int| 0 <= w < self.workers.len() ==> self.workers[w] == Worker::Done
    }

    /// The candidates that the counter has handed out, first to last.
    pub open spec fn handed_out(self) -> Seq<u64> {
        Seq::new(self.issued, |k: int| candidate_after(k as nat))
    }

    /// The candidate that the counter hands out next, had it no width.
    pub open spec fn frontier(self) -> int {
        FIRST_CANDIDATE + self.issued
    }

    /// The first candidate beyond the limit.
    pub open spec fn beyond(self) -> int {
        if self.limit < FIRST_CANDIDATE {
            FIRST_CANDIDATE as int
        } else {
            self.limit + 1
        }
    }

    /// How many steps are left until the scan has ended: two for each
    /// candidate still to hand out, one for each candidate held.
    pub open spec fn steps_left(self) -> int {
        2 * (self.beyond() + self.workers.len() - self.frontier()) + count_holding(self.workers)
    }

    /// What holds of every state that a scan reaches, provided the counter is
    /// wide enough for the candidates of the scan: one beyond the limit for
    /// each worker, and all those up to the limit.
    pub open spec fn inv(self) -> bool {
        &&& self.beyond() + self.workers.len() <= 0x1_0000_0000_0000_0000
        &&& self.issued > 0 ==> self.workers.len() > 0
        &&& forall|w: int|
            0 <= w < self.workers.len() ==> match #[trigger] self.workers[w] {
                Worker::Holding(candidate) => FIRST_CANDIDATE <= candidate < self.frontier(),
                _ => true,
            }
        &&& forall|a: int, b: int|
            0 <= a < b < self.workers.len() && self.workers[a] is Holding
                ==> self.workers[a] != self.workers[b]
        &&& if self.frontier() <= self.beyond() {
            count_halting(self.workers, self.limit) == 0
        } else {
            count_halting(self.workers, self.limit) == self.frontier() - self.beyond()
        }
        &&& forall|v: u64| #[trigger]
            self.recorded.to_multiset().count(v) == if prime(v as int) && v <= self.limit && v
                < self.frontier() && !held(self.workers, v) {
                1nat
            } else {
                0nat
            }
    }
}

/// How replacing one worker changes the counts.
proof fn lemma_counts_update(workers: Seq<Worker>, limit: u64, w: int, worker: Worker)
    requires
        0 <= w < workers.len(),
    ensures
        count_halting(workers.update(w, worker), limit) + (if halting(workers[w], limit) {
            1nat
        } else {
            0nat
        }) == count_halting(workers, limit) + (if halting(worker, limit) {
            1nat
        } else {
            0nat
        }),
        count_holding(workers.update(w, worker)) + (if workers[w] is Holding {
            1nat
        } else {
            0nat
        }) == count_holding(workers) + (if worker is Holding {
            1nat
        } else {
            0nat
        }),
    decreases workers.len(),
{
    let updated = workers.update(w, worker);
    if w == workers.len() - 1 {
        assert(updated.drop_last() =~= workers.drop_last());
    } else {
        assert(updated.drop_last() =~= workers.drop_last().update(w, worker));
        lemma_counts_update(workers.drop_last(), limit, w, worker);
    }
}

/// The halting workers are as many as the workers if and only if every
/// worker is halting, and none if and only if no worker is.
proof fn lemma_count_halting_bounds(workers: Seq<Worker>, limit: u64)
    ensures
        count_halting(workers, limit) <= workers.len(),
        count_halting(workers, limit) == workers.len() <==> forall|w: int|
            0 <= w < workers.len() ==> halting(#[trigger] workers[w], limit),
        count_halting(workers, limit) == 0 <==> forall|w: int|
            0 <= w < workers.len() ==> !halting(#[trigger] workers[w], limit),
    decreases workers.len(),
{
    if workers.len() > 0 {
        let front = workers.drop_last();
        lemma_count_halting_bounds(front, limit);
        if count_halting(workers, limit) == workers.len() {
            assert forall|w: int| 0 <= w < workers.len() implies halting(
                #[trigger] workers[w],
                limit,
            ) by {
                if w < front.len() {
                    assert(halting(front[w], limit));
                }
            }
        }
        if count_halting(workers, limit) == 0 {
            assert forall|w: int| 0 <= w < workers.len() implies !halting(
                #[trigger] workers[w],
                limit,
            ) by {
                if w < front.len() {
                    assert(!halting(front[w], limit));
                }
            }
        }
    }
}

/// Where no worker holds a candidate, the count of those that do is zero.
proof fn lemma_none_holding(workers: Seq<Worker>)
    requires
        forall|w: int| 0 <= w < workers.len() ==> !(#[trigger] workers[w] is Holding),
    ensures
        count_holding(workers) == 0,
    decreases workers.len(),
{
    if workers.len() > 0 {
        lemma_none_holding(workers.drop_last());
    }
}

/// Which candidates are held after one worker is replaced.
proof fn lemma_held_update(workers: Seq<Worker>, w: int, worker: Worker, v: u64)
    requires
        0 <= w < workers.len(),
    ensures
        held(workers.update(w, worker), v) ==> worker == Worker::Holding(v) || exists|j: int|
            0 <= j < workers.len() && j != w && #[trigger] workers[j] == Worker::Holding(v),
        worker == Worker::Holding(v) ==> held(workers.update(w, worker), v),
        held(workers, v) && workers[w] != Worker::Holding(v) ==> held(
            workers.update(w, worker),
            v,
        ),
{
    let updated = workers.update(w, worker);
    if held(updated, v) {
        let j = choose|j: int| 0 <= j < updated.len() && #[trigger] updated[j] == Worker::Holding(v);
        assert(j != w ==> workers[j] == Worker::Holding(v));
    }
    if worker == Worker::Holding(v) {
        assert(updated[w] == Worker::Holding(v));
    }
    if held(workers, v) && workers[w] != Worker::Holding(v) {
        let j = choose|j: int| 0 <= j < workers.len() && #[trigger] workers[j] == Worker::Holding(v);
        assert(updated[j] == Worker::Holding(v));
    }
}

/// A scan begins in a state of which the invariant holds.
pub proof fn lemma_initial_inv(limit: u64, thread_count: nat)
    requires
        counter_suffices(limit, thread_count),
    ensures
        initial(limit, thread_count).inv(),
{
    broadcast use {group_to_multiset_ensures, group_multiset_axioms};

    let state = initial(limit, thread_count);
    lemma_count_halting_bounds(state.workers, limit);
}

/// In a state that a scan reaches, the candidates handed out stay within
/// the counter's width, and the steps left are not negative.
pub proof fn lemma_inv_bounds(state: State)
    requires
        state.inv(),
    ensures
        state.frontier() <= state.beyond() + state.workers.len(),
        state.steps_left() >= 0,
        forall|w: int|
            0 <= w < state.workers.len() && !halting(#[trigger] state.workers[w], state.limit)
                ==> state.frontier() < state.beyond() + state.workers.len(),
{
    lemma_count_halting_bounds(state.workers, state.limit);
}

/// A step of an idle worker keeps the invariant.
proof fn lemma_take_inv(state: State, w: int)
    requires
        state.inv(),
        0 <= w < state.workers.len(),
        state.workers[w] == Worker::Idle,
    ensures
        state.advance(w).inv(),
        candidate_after(state.issued) == state.frontier(),
        state.advance(w).steps_left() == state.steps_left() - 1,
{
    let next = state.advance(w);
    let c = candidate_after(state.issued);
    lemma_inv_bounds(state);
    lemma_counts_update(state.workers, state.limit, w, Worker::Holding(c));
    // The candidate taken is larger than every candidate held.
    assert forall|a: int, b: int|
        0 <= a < b < next.workers.len() && next.workers[a] is Holding implies next.workers[a]
        != next.workers[b] by {
        assert(a == w || b == w || state.workers[a] != state.workers[b]);
    }
    assert forall|v: u64| #[trigger]
        next.recorded.to_multiset().count(v) == if prime(v as int) && v <= next.limit && v
            < next.frontier() && !held(next.workers, v) {
            1nat
        } else {
            0nat
        } by {
        lemma_held_update(state.workers, w, Worker::Holding(c), v);
    }
}

/// A step of a worker that holds a candidate keeps the invariant.
proof fn lemma_settle_inv(state: State, w: int, candidate: u64)
    requires
        state.inv(),
        0 <= w < state.workers.len(),
        state.workers[w] == Worker::Holding(candidate),
    ensures
        state.advance(w).inv(),
        state.advance(w).steps_left() == state.steps_left() - 1,
{
    broadcast use {group_to_multiset_ensures, group_multiset_axioms, group_multiset_properties};

    let next = state.advance(w);
    let replacement = next.workers[w];
    lemma_counts_update(state.workers, state.limit, w, replacement);
    assert forall|a: int, b: int|
        0 <= a < b < next.workers.len() && next.workers[a] is Holding implies next.workers[a]
        != next.workers[b] by {
        assert(state.workers[a] != state.workers[b]);
    }
    assert forall|v: u64| #[trigger]
        next.recorded.to_multiset().count(v) == if prime(v as int) && v <= next.limit && v
            < next.frontier() && !held(next.workers, v) {
            1nat
        } else {
            0nat
        } by {
        lemma_held_update(state.workers, w, replacement, v);
        if v == candidate && held(next.workers, v) {
            // No other worker holds the candidate that `w` held.
            let j = choose|j: int|
                0 <= j < state.workers.len() && j != w && #[trigger] state.workers[j]
                    == Worker::Holding(v);
            assert(state.workers[j] != state.workers[w]);
        }
    }
}

/// A step keeps the invariant, whichever worker takes it, and the step of
/// a worker that is not done brings the end of the scan one step nearer.
pub proof fn lemma_advance_inv(state: State, w: int)
    requires
        state.inv(),
    ensures
        state.advance(w).inv(),
        0 <= w < state.workers.len() && state.workers[w] != Worker::Done ==> state.advance(
            w,
        ).steps_left() == state.steps_left() - 1,
{
    if 0 <= w < state.workers.len() {
        match state.workers[w] {
            Worker::Idle => lemma_take_inv(state, w),
            Worker::Holding(candidate) => lemma_settle_inv(state, w, candidate),
            Worker::Done => {},
        }
    }
}

/// The invariant holds after any schedule.
pub proof fn lemma_after_inv(state: State, schedule: Seq<int>)
    requires
        state.inv(),
    ensures
        state.after(schedule).inv(),
    decreases schedule.len(),
{
    if schedule.len() > 0 {
        lemma_after_inv(state, schedule.drop_last());
        lemma_advance_inv(state.after(schedule.drop_last()), schedule.last());
    }
}

/// Steps change neither the limit nor the number of workers.
pub proof fn lemma_after_keeps_shape(state: State, schedule: Seq<int>)
    ensures
        state.after(schedule).limit == state.limit,
        state.after(schedule).workers.len() == state.workers.len(),
    decreases schedule.len(),
{
    if schedule.len() > 0 {
        lemma_after_keeps_shape(state, schedule.drop_last());
    }
}

/// In a state that a scan reaches, what is recorded are primes up to the
/// limit, none of them twice, and no candidate was handed out twice.
pub proof fn lemma_nothing_twice(state: State)
    requires
        state.inv(),
    ensures
        state.recorded.no_duplicates(),
        forall|i: int|
            0 <= i < state.recorded.len() ==> prime(#[trigger] state.recorded[i] as int)
                && state.recorded[i] <= state.limit,
        state.handed_out().no_duplicates(),
        forall|k: int|
            0 <= k < state.issued ==> #[trigger] state.handed_out()[k] == FIRST_CANDIDATE + k,
{
    broadcast use {group_to_multiset_ensures, group_multiset_axioms};

    lemma_inv_bounds(state);
    state.recorded.lemma_multiset_has_no_duplicates_conv();
    assert forall|i: int| 0 <= i < state.recorded.len() implies prime(
        #[trigger] state.recorded[i] as int,
    ) && state.recorded[i] <= state.limit by {
        assert(state.recorded.to_multiset().count(state.recorded[i]) > 0);
    }
}

/// A scan with at least one worker that has ended has recorded each prime up
/// to the limit once, and nothing else. The counter has then handed out 2,
/// 3 and so on without a gap: every number up to the limit, and one beyond
/// the limit for each worker.
pub proof fn lemma_finished_is_complete(state: State)
    requires
        state.inv(),
        state.finished(),
        state.workers.len() > 0,
    ensures
        state.recorded.to_multiset() == primes_up_to(state.limit).to_multiset(),
        state.frontier() == state.beyond() + state.workers.len(),
        state.handed_out() == Seq::new(
            (state.beyond() - FIRST_CANDIDATE + state.workers.len()) as nat,
            |k: int| (FIRST_CANDIDATE + k) as u64,
        ),
        state.steps_left() == 0,
{
    lemma_count_halting_bounds(state.workers, state.limit);
    lemma_primes_up_to(state.limit);
    lemma_none_holding(state.workers);
    assert forall|v: u64| !held(state.workers, v) by {
        if held(state.workers, v) {
            let j = choose|j: int|
                0 <= j < state.workers.len() && #[trigger] state.workers[j] == Worker::Holding(v);
            assert(state.workers[j] == Worker::Done);
        }
    }
    assert(state.recorded.to_multiset() =~= primes_up_to(state.limit).to_multiset());
}

/// The summary of a scan that has ended is that of the primes up to its limit.
pub proof fn lemma_summary_of_finished(state: State, summary: Summary)
    requires
        state.inv(),
        state.finished(),
        summarizes(summary, state.recorded),
    ensures
        summary.primes@ == found(state.limit, state.workers.len()),
        summarizes(summary, found(state.limit, state.workers.len())),
{
    broadcast use group_to_multiset_ensures;

    let all = found(state.limit, state.workers.len());
    if state.workers.len() > 0 {
        lemma_finished_is_complete(state);
        lemma_primes_up_to(state.limit);
    } else {
        assert(state.recorded.to_multiset() =~= Multiset::<u64>::empty());
    }
    assert(state.recorded.to_multiset() == all.to_multiset());
    lemma_ascending_unique(summary.primes@, all);
    lemma_total_of_permutation(state.recorded, all);
    assert(all.len() == all.to_multiset().len());
}

/// Two scans up to the same limit that have ended have the same summary,
/// however many workers each had, if it had any, and in whatever order these
/// took their steps: the sorted list, the count, the sum and the largest
/// primes are those of the primes up to the limit.
pub proof fn lemma_outcome_ignores_schedule(
    limit: u64,
    first_count: nat,
    first_schedule: Seq<int>,
    of_first: Summary,
    second_count: nat,
    second_schedule: Seq<int>,
    of_second: Summary,
)
    requires
        first_count > 0,
        second_count > 0,
        counter_suffices(limit, first_count),
        counter_suffices(limit, second_count),
        initial(limit, first_count).after(first_schedule).finished(),
        initial(limit, second_count).after(second_schedule).finished(),
        summarizes(of_first, initial(limit, first_count).after(first_schedule).recorded),
        summarizes(of_second, initial(limit, second_count).after(second_schedule).recorded),
    ensures
        of_first.primes@ == primes_up_to(limit),
        of_second.primes@ == primes_up_to(limit),
        of_first.count == of_second.count,
        of_first.sum == of_second.sum,
        of_first.largest@ == of_second.largest@,
{
    let first = initial(limit, first_count).after(first_schedule);
    let second = initial(limit, second_count).after(second_schedule);
    lemma_initial_inv(limit, first_count);
    lemma_initial_inv(limit, second_count);
    lemma_after_inv(initial(limit, first_count), first_schedule);
    lemma_after_inv(initial(limit, second_count), second_schedule);
    lemma_after_keeps_shape(initial(limit, first_count), first_schedule);
    lemma_after_keeps_shape(initial(limit, second_count), second_schedule);
    lemma_summary_of_finished(first, of_first);
    lemma_summary_of_finished(second, of_second);
}

} // verus!
