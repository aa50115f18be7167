//! A steppable maze generator over a rectangular grid.
//!
//! The grid is a row-major sequence of cells, each carrying four wall flags
//! and a `visited` marker. Three generators carve it incrementally, one
//! bounded unit of work per `step`, so a host can animate generation:
//! a depth-first backtracking carver, a recursive spatial-division carver,
//! and a single-pass biased-direction carver.

pub mod backtracker;
pub mod binary_tree;
pub mod division;
pub mod generator;
pub mod graph;
pub mod grid;
pub mod rng;
pub mod select;
pub mod walls;

pub use backtracker::{lemma_backtracker_complete, RecursiveBacktracker};
pub use binary_tree::{lemma_binary_tree_complete, BinaryTree};
pub use division::{Field, FieldIntersection, RecursiveDivision};
pub use generator::{generate, MazeGenerator};
pub use grid::{Dir, Maze, MazeCell, MazeError};
pub use grid::{get_neighbors, to_idx, to_x_y};
pub use rng::Prng;
pub use select::{create_generator, Generator, GeneratorKind};
pub use walls::{add_wall, remove_wall};
