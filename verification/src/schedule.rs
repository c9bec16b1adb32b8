//! The order of updates in the stochastic optimisation of a layout.
//!
//! The optimiser visits every edge once per epoch. For each visit it first
//! pulls the two ends of the edge together and then pushes the first end away
//! from a number of rows drawn at random. The arithmetic of an update is the
//! caller's; which update comes next is decided here, one step at a time.

use vstd::prelude::*;
use rand::rngs::StdRng;

verus! {

/// `rand::rngs::StdRng`, the generator that the caller seeds and that the
/// schedule draws rows from. Nothing is known here of its state.
#[verifier::external_type_specification]
#[verifier::external_body]
pub struct ExStdRng(StdRng);

/// Where the optimiser stands: the epoch, the edge within it, and the stage
/// of the visit to that edge. Stage `0` is the attractive update; stage `s`,
/// from `1` up to the number of negative samples, is the `s`-th repulsive one.
#[derive(Clone, Copy, Debug, PartialEq, Eq)]
pub struct Cursor {
    pub epoch: usize,
    pub edge: usize,
    pub stage: usize,
}

/// What the caller does for one step.
#[derive(Clone, Copy, Debug, PartialEq, Eq)]
pub enum Step {
    /// Pull together the two ends of the edge at this position.
    Attract { edge: usize },
    /// Push row `from` and the drawn row `to` apart.
    Repel { from: usize, to: usize },
    /// The draw hit the row itself: nothing to update.
    Skip,
    /// All epochs are over.
    Done,
}

/// No step is left: the epochs are used up, or there is no edge to visit.
pub open spec fn finished(at: Cursor, epochs: int, edges: int) -> bool {
    at.epoch >= epochs || edges == 0
}

/// The cursor after the step at `at`: the next stage of the same visit, or
/// the first stage at the next edge, or at the first edge of the next epoch.
pub open spec fn following(at: Cursor, edges: int, negatives: int) -> Cursor {
    if at.stage < negatives {
        Cursor { epoch: at.epoch, edge: at.edge, stage: (at.stage + 1) as usize }
    } else if at.edge + 1 < edges {
        Cursor { epoch: at.epoch, edge: (at.edge + 1) as usize, stage: 0 }
    } else {
        Cursor { epoch: (at.epoch + 1) as usize, edge: 0, stage: 0 }
    }
}

/// The step taken at `at`, where `draw` is the row drawn for a repulsive
/// stage and `heads[e]` is the first end of edge `e`.
pub open spec fn step_at(at: Cursor, heads: Seq<usize>, draw: usize) -> Step {
    if at.stage == 0 {
        Step::Attract { edge: at.edge }
    } else if draw == heads[at.edge as int] {
        Step::Skip
    } else {
        Step::Repel { from: heads[at.edge as int], to: draw }
    }
}

/// The number of steps from `at` to the end.
pub open spec fn steps_left(at: Cursor, epochs: int, edges: int, negatives: int) -> int {
    if finished(at, epochs, edges) {
        0
    } else {
        ((epochs - at.epoch - 1) * edges + (edges - at.edge - 1)) * (negatives + 1) + (negatives
            + 1 - at.stage)
    }
}

/// The schedule of one optimisation run.
pub struct Schedule {
    rows: usize,
    heads: Vec<usize>,
    epochs: usize,
    negatives: usize,
    at: Cursor,
}

impl Schedule {
    #[verifier::type_invariant]
    spec fn well_formed(self) -> bool {
        &&& forall|e: int| 0 <= e < self.heads.len() ==> (#[trigger] self.heads[e]) < self.rows
        &&& self.at.epoch <= self.epochs
        &&& self.at.stage <= self.negatives
        &&& (self.at.epoch < self.epochs && self.heads.len() > 0 ==> self.at.edge
            < self.heads.len())
    }

    /// The number of rows of the layout.
    pub closed spec fn rows(&self) -> usize {
        self.rows
    }

    /// The first end of each edge, in visiting order.
    pub closed spec fn heads(&self) -> Seq<usize> {
        self.heads@
    }

    /// The number of epochs.
    pub closed spec fn epochs(&self) -> usize {
        self.epochs
    }

    /// The number of rows drawn after each attractive update.
    pub closed spec fn negatives(&self) -> usize {
        self.negatives
    }

    /// Where the run stands.
    pub closed spec fn cursor(&self) -> Cursor {
        self.at
    }

    /// No step is left.
    pub open spec fn is_finished(&self) -> bool {
        finished(self.cursor(), self.epochs() as int, self.heads().len() as int)
    }

    /// The next step needs a drawn row.
    pub open spec fn awaits_draw(&self) -> bool {
        !self.is_finished() && self.cursor().stage > 0
    }

    /// The number of steps left.
    pub open spec fn remaining(&self) -> int {
        steps_left(
            self.cursor(),
            self.epochs() as int,
            self.heads().len() as int,
            self.negatives() as int,
        )
    }

    /// A schedule at its start, for a layout of `rows` rows and the edges
    /// whose first ends are `heads`. `None` where an edge names a row that the
    /// layout does not have.
    pub fn new(rows: usize, heads: Vec<usize>, epochs: usize, negatives: usize) -> (made: Option<
        Schedule,
    >)
        ensures
            made is Some <==> forall|e: int| 0 <= e < heads.len() ==> (#[trigger] heads[e]) < rows,
            made matches Some(s) ==> {
                &&& s.rows() == rows
                &&& s.heads() == heads@
                &&& s.epochs() == epochs
                &&& s.negatives() == negatives
                &&& s.cursor() == Cursor { epoch: 0, edge: 0, stage: 0 }
                &&& s.remaining() == epochs * heads.len() * (negatives + 1)
            },
    {
        proof {
            steps_in_all(epochs as int, heads.len() as int, negatives as int);
        }
        let mut e: usize = 0;
        while e < heads.len()
            invariant
                e <= heads.len(),
                forall|t: int| 0 <= t < e ==> (#[trigger] heads[t]) < rows,
            decreases heads.len() - e,
        {
            if heads[e] >= rows {
                return None;
            }
            e = e + 1;
        }
        Some(Schedule { rows, heads, epochs, negatives, at: Cursor { epoch: 0, edge: 0, stage: 0 } })
    }

    /// Tells whether a step is left.
    pub fn has_next(&self) -> (more: bool)
        ensures
            more == !self.is_finished(),
    {
        self.at.epoch < self.epochs && self.heads.len() > 0
    }

    /// Tells whether the next step is a repulsive one, for which a row has to
    /// be drawn.
    pub fn needs_draw(&self) -> (due: bool)
        ensures
            due == self.awaits_draw(),
    {
        self.has_next() && self.at.stage > 0
    }

    /// Takes one step with the row `draw` and moves on. At an attractive
    /// stage, and when the run is over, `draw` is not looked at.
    pub fn step_with(&mut self, draw: usize) -> (step: Step)
        requires
            old(self).awaits_draw() ==> draw < old(self).rows(),
        ensures
            final(self).rows() == old(self).rows(),
            final(self).heads() == old(self).heads(),
            final(self).epochs() == old(self).epochs(),
            final(self).negatives() == old(self).negatives(),
            old(self).is_finished() ==> step == Step::Done && final(self).cursor() == old(
                self,
            ).cursor(),
            !old(self).is_finished() ==> {
                &&& step == step_at(old(self).cursor(), old(self).heads(), draw)
                &&& final(self).cursor() == following(
                    old(self).cursor(),
                    old(self).heads().len() as int,
                    old(self).negatives() as int,
                )
                &&& final(self).remaining() == old(self).remaining() - 1
            },
            step matches Step::Attract { edge } ==> edge < old(self).heads().len(),
            step matches Step::Repel { from, to } ==> from < old(self).rows() && to < old(
                self,
            ).rows() && from != to,
    {
        proof {
            use_type_invariant(&*self);
        }
        if !self.has_next() {
            return Step::Done;
        }
        let at = self.at;
        let head: usize = self.heads[at.edge];
        let step = if at.stage == 0 {
            Step::Attract { edge: at.edge }
        } else if draw == head {
            Step::Skip
        } else {
            Step::Repel { from: head, to: draw }
        };
        let next = if at.stage < self.negatives {
            Cursor { epoch: at.epoch, edge: at.edge, stage: at.stage + 1 }
        } else if at.edge + 1 < self.heads.len() {
            Cursor { epoch: at.epoch, edge: at.edge + 1, stage: 0 }
        } else {
            Cursor { epoch: at.epoch + 1, edge: 0, stage: 0 }
        };
        proof {
            step_shortens_run(
                at,
                self.epochs as int,
                self.heads.len() as int,
                self.negatives as int,
            );
        }
        self.at = next;
        step
    }

    /// Takes one step, drawing the row for a repulsive stage from `rng`, and
    /// moves on. The step is the one that `step_with` takes with the row drawn.
    pub fn advance(&mut self, rng: &mut StdRng) -> (step: Step)
        ensures
            final(self).rows() == old(self).rows(),
            final(self).heads() == old(self).heads(),
            final(self).epochs() == old(self).epochs(),
            final(self).negatives() == old(self).negatives(),
            old(self).is_finished() ==> step == Step::Done && final(self).cursor() == old(
                self,
            ).cursor(),
            !old(self).is_finished() ==> {
                &&& exists|draw: usize|
                    draw < old(self).rows() && step == #[trigger] step_at(
                        old(self).cursor(),
                        old(self).heads(),
                        draw,
                    )
                &&& final(self).cursor() == following(
                    old(self).cursor(),
                    old(self).heads().len() as int,
                    old(self).negatives() as int,
                )
                &&& final(self).remaining() == old(self).remaining() - 1
            },
            step matches Step::Attract { edge } ==> edge < old(self).heads().len(),
            step matches Step::Repel { from, to } ==> from < old(self).rows() && to < old(
                self,
            ).rows() && from != to,
    {
        proof {
            use_type_invariant(&*self);
        }
        if !self.has_next() {
            return Step::Done;
        }
        assert(self.heads[self.at.edge as int] < self.rows);
        let draw: usize = if self.at.stage > 0 {
            draw_below(rng, self.rows)
        } else {
            0
        };
        self.step_with(draw)
    }
}

/// A run takes one step for every stage of every visit: the number of
/// epochs times the number of edges times one more than the number of
/// negative samples.
pub proof fn steps_in_all(epochs: int, edges: int, negatives: int)
    requires
        0 <= epochs,
        0 <= edges,
        0 <= negatives,
    ensures
        steps_left(Cursor { epoch: 0, edge: 0, stage: 0 }, epochs, edges, negatives) == epochs
            * edges * (negatives + 1),
{
    if epochs == 0 || edges == 0 {
        assert(epochs * edges == 0) by (nonlinear_arith)
            requires
                epochs == 0 || edges == 0,
        ;
        assert(epochs * edges * (negatives + 1) == 0) by (nonlinear_arith)
            requires
                epochs * edges == 0,
        ;
    } else {
        assert(((epochs - 0 - 1) * edges + (edges - 0 - 1)) * (negatives + 1) + (negatives + 1 - 0)
            == epochs * edges * (negatives + 1)) by (nonlinear_arith);
    }
}

/// Each step brings the end one step nearer.
pub proof fn step_shortens_run(at: Cursor, epochs: int, edges: int, negatives: int)
    requires
        !finished(at, epochs, edges),
        0 <= at.edge < edges,
        0 <= at.stage <= negatives,
        epochs <= usize::MAX,
        edges <= usize::MAX,
        negatives <= usize::MAX,
    ensures
        steps_left(following(at, edges, negatives), epochs, edges, negatives) == steps_left(
            at,
            epochs,
            edges,
            negatives,
        ) - 1,
{
    let next = following(at, edges, negatives);
    if at.stage < negatives {
    } else if at.edge + 1 < edges {
        assert(((epochs - at.epoch - 1) * edges + (edges - at.edge - 1)) * (negatives + 1) == ((
            epochs - at.epoch - 1) * edges + (edges - at.edge - 2)) * (negatives + 1) + (negatives
            + 1)) by (nonlinear_arith);
    } else {
        assert(at.edge == edges - 1);
        if at.epoch + 1 >= epochs {
            assert(epochs - at.epoch - 1 == 0);
            assert((0 * edges + 0) * (negatives + 1) == 0) by (nonlinear_arith);
        } else {
            assert(((epochs - at.epoch - 1) * edges + 0) * (negatives + 1) == ((epochs - at.epoch
                - 2) * edges + (edges - 1)) * (negatives + 1) + (negatives + 1))
                by (nonlinear_arith);
        }
    }
}

/// Draws a row below `n` from the generator, by `rand::Rng::gen_range` on
/// the range from `0` up to, not including, `n`. The call does not accept an
/// empty range. Of the row drawn only its bound is known.
#[verifier::external_body]
fn draw_below(rng: &mut StdRng, n: usize) -> (row: usize)
    requires
        n > 0,
    ensures
        row < n,
{
    rand::Rng::gen_range(rng, 0..n)
}

} // verus!
