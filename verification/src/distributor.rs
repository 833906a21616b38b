//! The counter that hands out candidates, each to one caller.
//!
//! The counter is 64 bits wide and starts at 2. A call returns its value and
//! moves it on by one; past `u64::MAX` it starts again at 0. Up to that point
//! every call returns a value that no earlier call returned.

use vstd::prelude::*;

verus! {

/// The first candidate handed out: 0 and 1 are not prime.
pub const FIRST_CANDIDATE: u64 = 2;

/// The candidate that a call returns when `issued` calls came before it.
pub open spec fn candidate_after(issued: nat) -> u64 {
    ((FIRST_CANDIDATE + issued) % 0x1_0000_0000_0000_0000) as u64
}

/// Until the counter starts again, the candidates are 2, 3, 4 and so on.
pub proof fn lemma_candidate_counts_up(issued: nat)
    requires
        FIRST_CANDIDATE + issued <= u64::MAX,
    ensures
        candidate_after(issued) == FIRST_CANDIDATE + issued,
{
}

/// Until the counter starts again, a later call returns a larger candidate,
/// so no two calls return the same one.
pub proof fn lemma_candidates_increase(earlier: nat, later: nat)
    requires
        earlier < later,
        FIRST_CANDIDATE + later <= u64::MAX,
    ensures
        candidate_after(earlier) < candidate_after(later),
{
}

/// A counter of candidates.
pub struct Distributor {
    next: u64,
    issued: Ghost<nat>,
}

impl Distributor {
    #[verifier::type_invariant]
    spec fn counter_matches_calls(self) -> bool {
        self.next == candidate_after(self.issued@)
    }

    /// How many candidates were handed out so far.
    pub closed spec fn issued(&self) -> nat {
        self.issued@
    }

    /// A counter that has handed out nothing.
    pub fn new() -> (distributor: Self)
        ensures
            distributor.issued() == 0,
    {
        Distributor { next: FIRST_CANDIDATE, issued: Ghost(0) }
    }

    /// Hands out the next candidate.
    pub fn next_candidate(&mut self) -> (candidate: u64)
        ensures
            candidate == candidate_after(old(self).issued()),
            final(self).issued() == old(self).issued() + 1,
    {
        proof {
            use_type_invariant(&*self);
        }
        let candidate = self.next;
        let following = if candidate == u64::MAX {
            0
        } else {
            candidate + 1
        };
        *self = Distributor { next: following, issued: Ghost(self.issued@ + 1) };
        candidate
    }
}

} // verus!
