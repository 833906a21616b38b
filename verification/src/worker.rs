//! What a worker does with a candidate it was handed.

use crate::primality::{is_prime, prime};
use vstd::prelude::*;

verus! {

/// A worker's answer to a candidate.
#[derive(Clone, Copy, Debug, PartialEq, Eq, Structural)]
pub enum Action {
    /// The candidate is a prime within the limit: record it, then go on.
    Record(u64),
    /// The candidate is within the limit and not prime: go on.
    Skip,
    /// The candidate is beyond the limit: discard it and stop.
    Stop,
}

/// The action that `candidate` calls for in a scan up to `limit`, inclusive.
pub open spec fn decision(candidate: u64, limit: u64) -> Action {
    if candidate > limit {
        Action::Stop
    } else if prime(candidate as int) {
        Action::Record(candidate)
    } else {
        Action::Skip
    }
}

/// Decides what to do with `candidate` in a scan up to `limit`, inclusive.
pub fn decide(candidate: u64, limit: u64) -> (action: Action)
    ensures
        action == decision(candidate, limit),
{
    if candidate > limit {
        Action::Stop
    } else if is_prime(candidate) {
        Action::Record(candidate)
    } else {
        Action::Skip
    }
}

} // verus!
