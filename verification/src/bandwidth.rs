//! The course of the search for the bandwidth of a row.
//!
//! The bandwidth is sought between a lower bound, which starts at zero, and
//! an upper bound, which starts at one. First the upper bound is doubled, up
//! to eight times, until the soft neighbour count at it exceeds the target.
//! Then the interval is halved, for a given number of rounds or until the
//! count at its middle is close to the target. The caller holds the bounds
//! and evaluates the count; what to evaluate next, and what to do with the
//! bounds after a reading, is decided here.

use vstd::prelude::*;

verus! {

/// How often the upper bound is doubled at most.
pub const EXPANSIONS: usize = 8;

/// Where a search stands.
#[derive(Clone, Copy, Debug, PartialEq, Eq, Structural)]
pub enum Phase {
    /// Widening the interval; `done` doublings were made.
    Widening { done: usize },
    /// Halving the interval; `done` rounds were made.
    Halving { done: usize },
    /// The search is over.
    Settled,
}

/// The bandwidth at which the caller evaluates the soft neighbour count next.
#[derive(Clone, Copy, Debug, PartialEq, Eq, Structural)]
pub enum Probe {
    /// At the upper bound.
    Upper,
    /// At the middle between the two bounds.
    Middle,
    /// Nowhere: the search is over.
    Nothing,
}

/// How the count at the probed bandwidth compares with the target.
#[derive(Clone, Copy, Debug, PartialEq, Eq, Structural)]
pub struct Reading {
    /// The count exceeds the target.
    pub above: bool,
    /// The count is within the tolerance of the target.
    pub close: bool,
}

/// What the caller does after a reading.
#[derive(Clone, Copy, Debug, PartialEq, Eq, Structural)]
pub enum Move {
    /// Double the upper bound; the bandwidth so far is the new upper bound.
    DoubleUpper,
    /// Leave the bounds; the bandwidth so far is the upper bound.
    Hold,
    /// Move the upper bound to the middle, which is the bandwidth so far.
    LowerUpper,
    /// Move the lower bound to the middle, which is the bandwidth so far.
    RaiseLower,
    /// Take the middle as the bandwidth.
    Settle,
    /// Nothing: the search was over already.
    Rest,
}

/// The phase with which the halving starts: settled at once where no rounds
/// are allowed.
pub open spec fn halving_from_start(rounds: usize) -> Phase {
    if rounds == 0 {
        Phase::Settled
    } else {
        Phase::Halving { done: 0 }
    }
}

/// The bandwidth to probe in a phase.
pub open spec fn probe_in(phase: Phase) -> Probe {
    match phase {
        Phase::Widening { .. } => Probe::Upper,
        Phase::Halving { .. } => Probe::Middle,
        Phase::Settled => Probe::Nothing,
    }
}

/// The move after a reading in a phase.
pub open spec fn move_after(phase: Phase, reading: Reading) -> Move {
    match phase {
        Phase::Widening { .. } => if reading.above {
            Move::Hold
        } else {
            Move::DoubleUpper
        },
        Phase::Halving { .. } => if reading.close {
            Move::Settle
        } else if reading.above {
            Move::LowerUpper
        } else {
            Move::RaiseLower
        },
        Phase::Settled => Move::Rest,
    }
}

/// The phase after a reading in a phase, for a search of `rounds` rounds.
pub open spec fn phase_after(phase: Phase, rounds: usize, reading: Reading) -> Phase {
    match phase {
        Phase::Widening { done } => if reading.above || done + 1 >= EXPANSIONS {
            halving_from_start(rounds)
        } else {
            Phase::Widening { done: (done + 1) as usize }
        },
        Phase::Halving { done } => if reading.close || done + 1 >= rounds {
            Phase::Settled
        } else {
            Phase::Halving { done: (done + 1) as usize }
        },
        Phase::Settled => Phase::Settled,
    }
}

/// The greatest number of readings that a search still takes from a phase.
pub open spec fn readings_left(phase: Phase, rounds: usize) -> int {
    match phase {
        Phase::Widening { done } => EXPANSIONS - done + rounds,
        Phase::Halving { done } => rounds - done,
        Phase::Settled => 0,
    }
}

/// The search for one bandwidth.
pub struct Search {
    phase: Phase,
    rounds: usize,
}

impl Search {
    #[verifier::type_invariant]
    spec fn well_formed(self) -> bool {
        match self.phase {
            Phase::Widening { done } => done < EXPANSIONS,
            Phase::Halving { done } => done < self.rounds,
            Phase::Settled => true,
        }
    }

    /// Where the search stands.
    pub closed spec fn phase(&self) -> Phase {
        self.phase
    }

    /// The number of halving rounds allowed.
    pub closed spec fn rounds(&self) -> usize {
        self.rounds
    }

    /// A search at its start, with `rounds` halving rounds allowed.
    pub fn new(rounds: usize) -> (search: Search)
        ensures
            search.phase() == (Phase::Widening { done: 0 }),
            search.rounds() == rounds,
    {
        Search { phase: Phase::Widening { done: 0 }, rounds }
    }

    /// Tells where to evaluate next.
    pub fn probe(&self) -> (probe: Probe)
        ensures
            probe == probe_in(self.phase()),
    {
        match self.phase {
            Phase::Widening { .. } => Probe::Upper,
            Phase::Halving { .. } => Probe::Middle,
            Phase::Settled => Probe::Nothing,
        }
    }

    /// Takes the reading at the probed bandwidth, tells what to do with the
    /// bounds, and moves on. Every reading brings the end nearer: a search
    /// takes at most eight readings and one for each round.
    pub fn resolve(&mut self, reading: Reading) -> (step: Move)
        ensures
            step == move_after(old(self).phase(), reading),
            final(self).phase() == phase_after(old(self).phase(), old(self).rounds(), reading),
            final(self).rounds() == old(self).rounds(),
            0 <= readings_left(final(self).phase(), final(self).rounds()),
            old(self).phase() != Phase::Settled ==> readings_left(
                final(self).phase(),
                final(self).rounds(),
            ) < readings_left(old(self).phase(), old(self).rounds()),
    {
        proof {
            use_type_invariant(&*self);
        }
        let start: Phase = if self.rounds == 0 {
            Phase::Settled
        } else {
            Phase::Halving { done: 0 }
        };
        match self.phase {
            Phase::Widening { done } => {
                if reading.above {
                    self.phase = start;
                    Move::Hold
                } else {
                    if done + 1 >= EXPANSIONS {
                        self.phase = start;
                    } else {
                        self.phase = Phase::Widening { done: done + 1 };
                    }
                    Move::DoubleUpper
                }
            },
            Phase::Halving { done } => {
                if reading.close {
                    self.phase = Phase::Settled;
                    Move::Settle
                } else {
                    if done + 1 >= self.rounds {
                        self.phase = Phase::Settled;
                    } else {
                        self.phase = Phase::Halving { done: done + 1 };
                    }
                    if reading.above {
                        Move::LowerUpper
                    } else {
                        Move::RaiseLower
                    }
                }
            },
            Phase::Settled => Move::Rest,
        }
    }
}

} // verus!
