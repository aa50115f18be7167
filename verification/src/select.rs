//! Runtime algorithm selection: the three generators as a closed
//! set of variants behind the one generator interface.

use crate::backtracker::RecursiveBacktracker;
use crate::binary_tree::BinaryTree;
use crate::division::RecursiveDivision;
use crate::generator::MazeGenerator;
use crate::grid::{Dir, Maze, MazeError};
use crate::rng::Prng;
use vstd::prelude::*;

verus! {

/// Which algorithm to construct, with its configuration.
#[derive(PartialEq, Eq, Structural, Debug, Clone, Copy)]
pub enum GeneratorKind {
    RecursiveBacktracker,
    RecursiveDivision { resolution: usize },
    BinaryTree { dir_1: Dir, dir_2: Dir },
}

/// One of the three generators, chosen at construction time.
#[derive(Debug)]
pub enum Generator {
    RecursiveBacktracker(RecursiveBacktracker),
    RecursiveDivision(RecursiveDivision),
    BinaryTree(BinaryTree),
}

impl MazeGenerator for Generator {
    open spec fn ready(self) -> bool {
        match self {
            Generator::RecursiveBacktracker(g) => g.ready(),
            Generator::RecursiveDivision(g) => g.ready(),
            Generator::BinaryTree(g) => g.ready(),
        }
    }

    open spec fn inv(self, maze: Maze) -> bool {
        match self {
            Generator::RecursiveBacktracker(g) => g.inv(maze),
            Generator::RecursiveDivision(g) => g.inv(maze),
            Generator::BinaryTree(g) => g.inv(maze),
        }
    }

    open spec fn done(self) -> bool {
        match self {
            Generator::RecursiveBacktracker(g) => g.done(),
            Generator::RecursiveDivision(g) => g.done(),
            Generator::BinaryTree(g) => g.done(),
        }
    }

    open spec fn work_left(self, maze: Maze) -> nat {
        match self {
            Generator::RecursiveBacktracker(g) => g.work_left(maze),
            Generator::RecursiveDivision(g) => g.work_left(maze),
            Generator::BinaryTree(g) => g.work_left(maze),
        }
    }

    open spec fn step_rel(self, maze: Maze, post: Self, post_maze: Maze) -> bool {
        match (self, post) {
            (Generator::RecursiveBacktracker(g), Generator::RecursiveBacktracker(p)) => g
                .step_rel(maze, p, post_maze),
            (Generator::RecursiveDivision(g), Generator::RecursiveDivision(p)) => g.step_rel(
                maze,
                p,
                post_maze,
            ),
            (Generator::BinaryTree(g), Generator::BinaryTree(p)) => g.step_rel(
                maze,
                p,
                post_maze,
            ),
            _ => false,
        }
    }

    open spec fn init_rel(self, maze: Maze, post: Self, post_maze: Maze) -> bool {
        match (self, post) {
            (Generator::RecursiveBacktracker(g), Generator::RecursiveBacktracker(p)) => g
                .init_rel(maze, p, post_maze),
            (Generator::RecursiveDivision(g), Generator::RecursiveDivision(p)) => g.init_rel(
                maze,
                p,
                post_maze,
            ),
            (Generator::BinaryTree(g), Generator::BinaryTree(p)) => g.init_rel(
                maze,
                p,
                post_maze,
            ),
            _ => false,
        }
    }

    fn initialize(&mut self, maze: &mut Maze, rng: &mut Prng) {
        match self {
            Generator::RecursiveBacktracker(g) => g.initialize(maze, rng),
            Generator::RecursiveDivision(g) => g.initialize(maze, rng),
            Generator::BinaryTree(g) => g.initialize(maze, rng),
        }
    }

    fn step(&mut self, maze: &mut Maze, rng: &mut Prng) -> (finished: bool) {
        match self {
            Generator::RecursiveBacktracker(g) => g.step(maze, rng),
            Generator::RecursiveDivision(g) => g.step(maze, rng),
            Generator::BinaryTree(g) => g.step(maze, rng),
        }
    }

    fn is_finished(&self) -> (r: bool) {
        match self {
            Generator::RecursiveBacktracker(g) => g.is_finished(),
            Generator::RecursiveDivision(g) => g.is_finished(),
            Generator::BinaryTree(g) => g.is_finished(),
        }
    }
}

/// Builds the generator a kind value names; the biased carver's
/// direction pair is validated here, exactly as at direct
/// construction.
pub fn create_generator(kind: GeneratorKind) -> (r: Result<Generator, MazeError>)
    ensures
        r matches Ok(g) ==> g.ready(),
        (match kind {
            GeneratorKind::RecursiveBacktracker => r matches Ok(g) && (g matches
                Generator::RecursiveBacktracker(b) && b.gen_iteration == 0 && b.finished
                == false && b.visited_stack@.len() == 0),
            GeneratorKind::RecursiveDivision { resolution } => r matches Ok(g) && (g matches
                Generator::RecursiveDivision(d) && d.gen_iteration == 0 && d.max_subdivides
                == resolution && d.fields@.len() == 0),
            GeneratorKind::BinaryTree { dir_1, dir_2 } => {
                if dir_1.vertical() != dir_2.vertical() {
                    r matches Ok(g) && (g matches Generator::BinaryTree(t) && t == (
                    BinaryTree { curr_idx: 0, end_idx: 0, dir_1, dir_2 }))
                } else {
                    r matches Err(e) && e == MazeError::SameAxis
                }
            },
        }),
{
    match kind {
        GeneratorKind::RecursiveBacktracker => Ok(
            Generator::RecursiveBacktracker(RecursiveBacktracker::new()),
        ),
        GeneratorKind::RecursiveDivision { resolution } => Ok(
            Generator::RecursiveDivision(RecursiveDivision::new(resolution)),
        ),
        GeneratorKind::BinaryTree { dir_1, dir_2 } => {
            let g = BinaryTree::new(dir_1, dir_2)?;
            Ok(Generator::BinaryTree(g))
        },
    }
}

} // verus!
