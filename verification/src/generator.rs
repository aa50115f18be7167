//! The capability contract every maze generator implements:
//! initialize once, then step until finished, one bounded unit of
//! work at a time.

use crate::grid::Maze;
use crate::rng::Prng;
use vstd::prelude::*;

verus! {

/// A stepwise maze generator over a grid it does not own.
///
/// Shared guarantees, checked of every implementation: a step keeps
/// the grid well-formed and its dimensions fixed, keeps wall
/// symmetry, reports the finished flag truthfully, strictly lowers
/// `work_left` until done — so every generator terminates — and is a
/// no-op once finished.
pub trait MazeGenerator: Sized {
    /// Holds of a freshly constructed generator, before `initialize`.
    spec fn ready(self) -> bool;

    /// Relation the generator maintains with the grid between steps;
    /// implies the grid is well-formed and wall-symmetric.
    spec fn inv(self, maze: Maze) -> bool;

    /// Whether generation is complete.
    spec fn done(self) -> bool;

    /// Bound on the number of steps still to come.
    spec fn work_left(self, maze: Maze) -> nat;

    /// What one step does, beyond the shared guarantees.
    spec fn step_rel(self, maze: Maze, post: Self, post_maze: Maze) -> bool;

    /// What initialization does, beyond the shared guarantees.
    spec fn init_rel(self, maze: Maze, post: Self, post_maze: Maze) -> bool;

    /// Resets internal state and brings the grid to this algorithm's
    /// starting wall configuration.
    fn initialize(&mut self, maze: &mut Maze, rng: &mut Prng)
        requires
            old(self).ready(),
            old(maze).wf(),
        ensures
            final(self).inv(*final(maze)),
            final(maze).wf(),
            (*final(maze)).sym(),
            final(maze).width == old(maze).width,
            final(maze).height == old(maze).height,
            old(self).init_rel(*old(maze), *final(self), *final(maze)),
    ;

    /// Performs one bounded unit of work and reports whether the
    /// generator is now finished.
    fn step(&mut self, maze: &mut Maze, rng: &mut Prng) -> (finished: bool)
        requires
            old(self).inv(*old(maze)),
        ensures
            final(self).inv(*final(maze)),
            final(maze).wf(),
            (*final(maze)).sym(),
            final(maze).width == old(maze).width,
            final(maze).height == old(maze).height,
            finished == final(self).done(),
            old(self).step_rel(*old(maze), *final(self), *final(maze)),
            !old(self).done() ==> final(self).work_left(*final(maze)) < old(self).work_left(
                *old(maze),
            ),
            old(self).done() ==> *final(self) == *old(self) && *final(maze) == *old(maze),
    ;

    /// The terminal-state flag.
    fn is_finished(&self) -> (r: bool)
        ensures
            r == self.done(),
    ;
}

/// Runs an initialized generator to completion. That this loop is
/// accepted proves every generator finishes after finitely many
/// steps, whatever the random draws.
pub fn generate<G: MazeGenerator>(g: &mut G, maze: &mut Maze, rng: &mut Prng)
    requires
        old(g).inv(*old(maze)),
        old(maze).wf(),
        (*old(maze)).sym(),
    ensures
        final(g).inv(*final(maze)),
        final(g).done(),
        final(maze).wf(),
        (*final(maze)).sym(),
        final(maze).width == old(maze).width,
        final(maze).height == old(maze).height,
{
    let ghost w0 = old(maze).width;
    let ghost h0 = old(maze).height;
    while !g.is_finished()
        invariant
            g.inv(*maze),
            maze.wf(),
            (*maze).sym(),
            maze.width == w0,
            maze.height == h0,
        decreases g.work_left(*maze),
    {
        let _ = g.step(maze, rng);
    }
}

/// The counting law shared by the biased and division carvers: a
/// counter that starts at zero, that each step moves up by one until
/// it reaches its bound, and that never moves afterwards. `counters`
/// is the trace of such a counter over any run — for the biased
/// carver the cursor with the cell count as bound, for the division
/// carver the round counter with the resolution as bound, exactly as
/// their `step_rel`s state. The counter reaches the bound after
/// exactly `bound` steps, never earlier and never later.
pub proof fn lemma_counter_reaches_bound(counters: Seq<int>, bound: int, k: int)
    requires
        0 <= bound,
        0 <= k < counters.len(),
        counters[0] == 0,
        forall|j: int|
            0 <= j < counters.len() - 1 ==> {
                &&& (counters[j] < bound ==> (#[trigger] counters[j + 1]) == counters[j]
                    + 1)
                &&& (counters[j] >= bound ==> counters[j + 1] == counters[j])
            },
    ensures
        counters[k] == if k <= bound {
            k
        } else {
            bound
        },
        counters[k] >= bound <==> k >= bound,
    decreases k,
{
    if k > 0 {
        lemma_counter_reaches_bound(counters, bound, k - 1);
        assert(counters[(k - 1) + 1] == counters[k]);
    }
}

} // verus!
