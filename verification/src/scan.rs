//! A scan that is carried out step by step, and a run of it from beginning
//! to end.

use crate::aggregator::{summarizes, Aggregator, Summary};
use crate::distributor::Distributor;
use crate::model::{
    counter_suffices, found, initial, lemma_advance_inv, lemma_counter_suffices,
    lemma_initial_inv, lemma_inv_bounds, lemma_summary_of_finished, State, Worker,
};
use crate::worker::{decide, Action};
use vstd::prelude::*;

verus! {

/// A scan in progress.
pub struct Scan {
    limit: u64,
    distributor: Distributor,
    aggregator: Aggregator,
    workers: Vec<Worker>,
}

impl View for Scan {
    type V = State;

    closed spec fn view(&self) -> State {
        State {
            limit: self.limit,
            issued: self.distributor.issued(),
            workers: self.workers@,
            recorded: self.aggregator@,
        }
    }
}

impl Scan {
    /// What holds of a scan that `new` made and `advance` moved on: where
    /// the counter is wide enough for its candidates, its state is one that
    /// a scan reaches.
    pub open spec fn wf(&self) -> bool {
        counter_suffices(self@.limit, self@.workers.len()) ==> self@.inv()
    }

    /// A scan up to `limit`, inclusive, with `thread_count` workers, before
    /// its first step.
    pub fn new(limit: u64, thread_count: u32) -> (scan: Self)
        ensures
            scan@ == initial(limit, thread_count as nat),
            scan.wf(),
    {
        proof {
            if counter_suffices(limit, thread_count as nat) {
                lemma_initial_inv(limit, thread_count as nat);
            }
        }
        let mut workers: Vec<Worker> = Vec::new();
        let mut w: u32 = 0;
        while w < thread_count
            invariant
                w <= thread_count,
                workers@ == Seq::new(w as nat, |w: int| Worker::Idle),
            decreases thread_count - w,
        {
            workers.push(Worker::Idle);
            w += 1;
        }
        Scan { limit, distributor: Distributor::new(), aggregator: Aggregator::new(), workers }
    }

    /// The largest number that the scan tests.
    pub fn limit(&self) -> (limit: u64)
        ensures
            limit == self@.limit,
    {
        self.limit
    }

    /// Where worker `worker` stands, if there is such a worker.
    pub fn worker(&self, worker: usize) -> (state: Option<Worker>)
        ensures
            state == if worker < self@.workers.len() {
                Some(self@.workers[worker as int])
            } else {
                None
            },
    {
        if worker < self.workers.len() {
            Some(self.workers[worker])
        } else {
            None
        }
    }

    /// The primes recorded so far, in the order in which they were recorded.
    pub fn recorded(&self) -> (primes: &Vec<u64>)
        ensures
            primes@ == self@.recorded,
    {
        self.aggregator.recorded()
    }

    /// Takes one step of worker `worker`.
    pub fn advance(&mut self, worker: usize)
        requires
            old(self).wf(),
        ensures
            final(self)@ == old(self)@.advance(worker as int),
            final(self).wf(),
    {
        proof {
            if counter_suffices(self@.limit, self@.workers.len()) {
                lemma_advance_inv(self@, worker as int);
            }
        }
        if worker >= self.workers.len() {
            return ;
        }
        match self.workers[worker] {
            Worker::Idle => {
                let candidate = self.distributor.next_candidate();
                self.workers.set(worker, Worker::Holding(candidate));
            },
            Worker::Holding(candidate) => match decide(candidate, self.limit) {
                Action::Record(p) => {
                    self.aggregator.record(p);
                    self.workers.set(worker, Worker::Idle);
                },
                Action::Skip => {
                    self.workers.set(worker, Worker::Idle);
                },
                Action::Stop => {
                    self.workers.set(worker, Worker::Done);
                },
            },
            Worker::Done => {},
        }
    }

    /// Whether every worker is done.
    pub fn is_finished(&self) -> (finished: bool)
        ensures
            finished == self@.finished(),
    {
        let mut w: usize = 0;
        while w < self.workers.len()
            invariant
                w <= self.workers.len(),
                forall|j: int| 0 <= j < w ==> self.workers@[j] == Worker::Done,
            decreases self.workers.len() - w,
        {
            match self.workers[w] {
                Worker::Done => {},
                _ => {
                    return false;
                },
            }
            w += 1;
        }
        true
    }

    /// Ends the scan: sorts what was recorded and draws the statistics.
    ///
    /// Once every worker is done, and provided the counter was wide enough
    /// for the candidates of the scan, these are the statistics of the primes
    /// up to the limit.
    pub fn finalize(self) -> (summary: Summary)
        requires
            self.wf(),
        ensures
            summarizes(summary, self@.recorded),
            self@.finished() && counter_suffices(self@.limit, self@.workers.len()) ==> {
                &&& summary.primes@ == found(self@.limit, self@.workers.len())
                &&& summarizes(summary, found(self@.limit, self@.workers.len()))
            },
    {
        let ghost state = self@;
        let summary = self.aggregator.finalize();
        proof {
            if state.finished() && counter_suffices(state.limit, state.workers.len()) {
                lemma_summary_of_finished(state, summary);
            }
        }
        summary
    }
}

/// Runs a scan up to `limit`, inclusive, with `thread_count` workers that
/// take their steps in turn, and returns its summary.
///
/// The counter must be wide enough for the candidates of the scan: every
/// number from 2 up to the limit, and one beyond the limit for each worker.
pub fn run(limit: u64, thread_count: u32) -> (summary: Summary)
    requires
        limit + thread_count <= u64::MAX,
    ensures
        summary.primes@ == found(limit, thread_count as nat),
        summarizes(summary, found(limit, thread_count as nat)),
{
    let mut scan = Scan::new(limit, thread_count);
    let count = thread_count as usize;
    proof {
        lemma_counter_suffices(limit, thread_count);
    }
    while !scan.is_finished()
        invariant
            scan@.inv(),
            scan@.limit == limit,
            scan@.workers.len() == count,
            count == thread_count,
        decreases scan@.steps_left(),
    {
        let ghost at_start = scan@;
        let mut w: usize = 0;
        while w < count
            invariant
                w <= count,
                scan@.inv(),
                scan@.limit == limit,
                scan@.workers.len() == count,
                scan@.steps_left() <= at_start.steps_left(),
                forall|j: int| w <= j < count ==> scan@.workers[j] == at_start.workers[j],
                (exists|j: int| 0 <= j < w && at_start.workers[j] != Worker::Done)
                    ==> scan@.steps_left() < at_start.steps_left(),
            decreases count - w,
        {
            proof {
                lemma_advance_inv(scan@, w as int);
            }
            scan.advance(w);
            w += 1;
        }
        proof {
            lemma_inv_bounds(scan@);
        }
    }
    scan.finalize()
}

} // verus!
