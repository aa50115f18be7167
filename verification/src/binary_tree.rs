//! The single-pass biased carver: walks the cells once in row-major
//! order and carves each cell's wall toward one of two configured
//! directions on different axes.

use crate::generator::MazeGenerator;
use crate::graph::{
    boundary_closed, lemma_carve_counts, lemma_no_passages, lemma_reach_refl, lemma_reach_sym,
    lemma_reach_step_front, lemma_reach_trans, open_between, passage_count, reach,
};
use crate::grid::{
    lemma_idx_round_trip, lemma_neighbor_valid, lemma_to_idx_in_range, lemma_xy_bounds,
    lemma_xy_round_trip, neighbor_cell, neighbor_idx, neighbor_in, to_x_y, x_of, y_of, Dir,
    Maze, MazeCell, MazeError,
};
use crate::rng::Prng;
use crate::walls::{
    lemma_link_frame, lemma_link_preserves_sym, lemma_sym_pair, remove_wall, set_all_walls,
    spec_link,
};
use vstd::prelude::*;

verus! {

/// Both bias walls of a cell are still present.
pub open spec fn both_biased(c: MazeCell, d1: Dir, d2: Dir) -> bool {
    c.wall(d1) && c.wall(d2)
}

/// Exactly one of a cell's two bias walls is open.
pub open spec fn one_biased_open(c: MazeCell, d1: Dir, d2: Dir) -> bool {
    c.wall(d1) != c.wall(d2)
}

/// The grid after carving from cell `i` toward `d`.
pub open spec fn carved_toward(maze: Maze, i: int, d: Dir, post_maze: Maze) -> bool {
    &&& neighbor_in(i, maze.width as int, maze.height as int, d)
    &&& post_maze.cells@ == spec_link(
        maze.cells@,
        i,
        neighbor_idx(i, maze.width as int, d),
        maze.width as int,
        false,
    )
}

/// Single-pass biased carver: a cursor over the cells and the two
/// bias directions.
#[derive(Debug)]
pub struct BinaryTree {
    pub curr_idx: usize,
    pub end_idx: usize,
    pub dir_1: Dir,
    pub dir_2: Dir,
}

impl BinaryTree {
    /// Configures the carver; the two directions must lie on
    /// different axes.
    pub fn new(dir_1: Dir, dir_2: Dir) -> (r: Result<BinaryTree, MazeError>)
        ensures
            r is Ok <==> dir_1.vertical() != dir_2.vertical(),
            r matches Ok(g) ==> g == (BinaryTree { curr_idx: 0, end_idx: 0, dir_1, dir_2 }),
            r matches Err(e) ==> e == MazeError::SameAxis,
    {
        if dir_1.on_vertical_axis() == dir_2.on_vertical_axis() {
            return Err(MazeError::SameAxis);
        }
        Ok(BinaryTree { curr_idx: 0, end_idx: 0, dir_1, dir_2 })
    }

    /// Column of the one corner at which neither bias direction
    /// stays on the grid.
    pub open spec fn corner_x(self, w: int) -> int {
        if self.dir_1 == Dir::West || self.dir_2 == Dir::West {
            0
        } else {
            w - 1
        }
    }

    /// Row of that corner.
    pub open spec fn corner_y(self, h: int) -> int {
        if self.dir_1 == Dir::North || self.dir_2 == Dir::North {
            0
        } else {
            h - 1
        }
    }

    /// Index of that corner.
    pub open spec fn corner_idx(self, w: int, h: int) -> int {
        self.corner_y(h) * w + self.corner_x(w)
    }

    /// Passages carved so far: one per walked cell except the
    /// skipped corner.
    pub open spec fn carve_count(self, maze: Maze) -> int {
        self.curr_idx - (if self.corner_idx(maze.width as int, maze.height as int)
            < self.curr_idx {
            1int
        } else {
            0int
        })
    }

    /// The walked prefix of the grid is in its final shape: every
    /// passed cell except the opposite corner has exactly one bias
    /// wall open, the corner and all unpassed cells keep both.
    pub open spec fn pass_shape(self, maze: Maze) -> bool {
        &&& forall|i: int|
            self.curr_idx <= i < maze.area() ==> both_biased(
                #[trigger] maze.cells@[i],
                self.dir_1,
                self.dir_2,
            )
        &&& forall|i: int|
            0 <= i < self.curr_idx && i != self.corner_idx(
                maze.width as int,
                maze.height as int,
            ) ==> one_biased_open(#[trigger] maze.cells@[i], self.dir_1, self.dir_2)
        &&& forall|i: int|
            0 <= i < self.curr_idx && i == self.corner_idx(
                maze.width as int,
                maze.height as int,
            ) ==> both_biased(#[trigger] maze.cells@[i], self.dir_1, self.dir_2)
    }
}

impl MazeGenerator for BinaryTree {
    open spec fn ready(self) -> bool {
        self.dir_1.vertical() != self.dir_2.vertical()
    }

    open spec fn inv(self, maze: Maze) -> bool {
        &&& maze.wf()
        &&& maze.sym()
        &&& self.dir_1.vertical() != self.dir_2.vertical()
        &&& self.end_idx + 1 == maze.area()
        &&& self.curr_idx <= maze.area()
        &&& self.pass_shape(maze)
        &&& boundary_closed(maze.cells@, maze.width as int, maze.height as int)
        &&& passage_count(maze.cells@, maze.width as int, maze.height as int)
            == self.carve_count(maze)
    }

    open spec fn done(self) -> bool {
        self.curr_idx > self.end_idx
    }

    open spec fn work_left(self, maze: Maze) -> nat {
        if self.curr_idx <= maze.area() {
            (maze.area() - self.curr_idx) as nat
        } else {
            0
        }
    }

    open spec fn step_rel(self, maze: Maze, post: Self, post_maze: Maze) -> bool {
        if self.done() {
            post == self && post_maze == maze
        } else {
            &&& post.curr_idx == self.curr_idx + 1
            &&& post.end_idx == self.end_idx
            &&& post.dir_1 == self.dir_1
            &&& post.dir_2 == self.dir_2
            &&& if self.curr_idx == self.corner_idx(maze.width as int, maze.height as int) {
                post_maze == maze
            } else {
                carved_toward(maze, self.curr_idx as int, self.dir_1, post_maze)
                    || carved_toward(maze, self.curr_idx as int, self.dir_2, post_maze)
            }
        }
    }

    open spec fn init_rel(self, maze: Maze, post: Self, post_maze: Maze) -> bool {
        &&& post.curr_idx == 0
        &&& post.end_idx + 1 == maze.area()
        &&& post.dir_1 == self.dir_1
        &&& post.dir_2 == self.dir_2
        &&& post_maze.cells@.len() == maze.cells@.len()
        &&& forall|i: int|
            0 <= i < post_maze.cells@.len() ==> {
                &&& (#[trigger] post_maze.cells@[i]).all_walls(true)
                &&& post_maze.cells@[i].visited == maze.cells@[i].visited
            }
    }

    fn initialize(&mut self, maze: &mut Maze, rng: &mut Prng) {
        proof {
            let w = old(maze).width as int;
            let h = old(maze).height as int;
            assert(w * h >= 1) by (nonlinear_arith)
                requires
                    1 <= w,
                    1 <= h,
            ;
        }
        self.curr_idx = 0;
        self.end_idx = maze.cells.len() - 1;
        set_all_walls(maze, true);
        proof {
            lemma_no_passages(
                maze.cells@,
                maze.width as int,
                maze.height as int,
                maze.cells@.len() as int,
            );
        }
    }

    fn step(&mut self, maze: &mut Maze, rng: &mut Prng) -> (finished: bool) {
        if self.curr_idx > self.end_idx {
            return true;
        }
        let w = maze.width;
        let h = maze.height;
        let n_cells = maze.cells.len();
        let curr = self.curr_idx;
        let ghost iw = w as int;
        let ghost ih = h as int;
        let ghost ic = curr as int;
        let ghost pre = *maze;
        let ghost pre_self = *self;
        proof {
            lemma_xy_bounds(ic, iw, ih);
            lemma_idx_round_trip(ic, iw);
        }
        let (x, y) = to_x_y(curr, w);

        let coin = rng.next_below(2);
        let (primary, fallback) = if coin == 0 {
            (self.dir_1, self.dir_2)
        } else {
            (self.dir_2, self.dir_1)
        };

        let chosen: Option<Dir> = if dir_fits(primary, x, y, w, h) {
            Some(primary)
        } else if dir_fits(fallback, x, y, w, h) {
            Some(fallback)
        } else {
            None
        };

        match chosen {
            Some(d) => {
                let nbor = neighbor_cell(curr, d, w, h);
                let res = remove_wall(curr, nbor, w, &mut maze.cells);
                proof {
                    assert(res is Ok);
                    assert(carved_toward(pre, ic, d, *maze));
                }
            },
            None => {
                proof {
                    // Neither direction fits: this is exactly the corner.
                    lemma_xy_round_trip(self.corner_x(iw), self.corner_y(ih), iw);
                    assert(x == self.corner_x(iw) && y == self.corner_y(ih));
                    assert(ic == self.corner_idx(iw, ih));
                }
            },
        }

        self.curr_idx = curr + 1;
        proof {
            match chosen {
                Some(d) => {
                    lemma_bt_carve_step(pre_self, pre, *self, *maze, d);
                },
                None => {
                    lemma_bt_skip_step(pre_self, pre, *self);
                },
            }
        }
        self.curr_idx > self.end_idx
    }

    fn is_finished(&self) -> (r: bool) {
        self.curr_idx > self.end_idx
    }
}

/// One carving move of the biased carver: opening the wall from the
/// walked cell toward a fitting bias direction, then advancing the
/// cursor, re-establishes the carver's whole invariant.
proof fn lemma_bt_carve_step(g: BinaryTree, m: Maze, g2: BinaryTree, m2: Maze, d: Dir)
    requires
        g.inv(m),
        !g.done(),
        d == g.dir_1 || d == g.dir_2,
        neighbor_in(g.curr_idx as int, m.width as int, m.height as int, d),
        g2.curr_idx == g.curr_idx + 1,
        g2.end_idx == g.end_idx,
        g2.dir_1 == g.dir_1,
        g2.dir_2 == g.dir_2,
        m2.width == m.width,
        m2.height == m.height,
        m2.cells@ == spec_link(
            m.cells@,
            g.curr_idx as int,
            neighbor_idx(g.curr_idx as int, m.width as int, d),
            m.width as int,
            false,
        ),
    ensures
        g2.inv(m2),
        g.curr_idx as int != g.corner_idx(m.width as int, m.height as int),
{
    let w = m.width as int;
    let h = m.height as int;
    let ic = g.curr_idx as int;
    lemma_xy_bounds(ic, w, h);
    lemma_idx_round_trip(ic, w);
    lemma_xy_round_trip(g.corner_x(w), g.corner_y(h), w);
    // A direction fits here, so this is not the corner.
    assert(ic != g.corner_idx(w, h));
    lemma_neighbor_valid(ic, w, h, d);
    let inb = neighbor_idx(ic, w, d);
    lemma_sym_pair(m.cells@, ic, inb, w, h);
    lemma_link_frame(m.cells@, ic, inb, w, false);
    lemma_link_preserves_sym(m.cells@, ic, inb, w, h, false);
    lemma_carve_counts(m.cells@, ic, inb, w, h);
    assert(boundary_closed(m2.cells@, w, h));
    assert(g2.pass_shape(m2));
}

/// The skipped move at the opposite corner: only the cursor
/// advances, and the invariant still holds.
proof fn lemma_bt_skip_step(g: BinaryTree, m: Maze, g2: BinaryTree)
    requires
        g.inv(m),
        !g.done(),
        g.curr_idx as int == g.corner_idx(m.width as int, m.height as int),
        g2.curr_idx == g.curr_idx + 1,
        g2.end_idx == g.end_idx,
        g2.dir_1 == g.dir_1,
        g2.dir_2 == g.dir_2,
    ensures
        g2.inv(m),
{
    assert(g2.pass_shape(m));
}

/// Whether carving from a cell at `(x, y)` toward `d` stays on the
/// grid.
fn dir_fits(d: Dir, x: usize, y: usize, w: usize, h: usize) -> (b: bool)
    requires
        x < w,
        y < h,
    ensures
        b == match d {
            Dir::North => y > 0,
            Dir::South => y + 1 < h,
            Dir::West => x > 0,
            Dir::East => x + 1 < w,
        },
{
    match d {
        Dir::North => y > 0,
        Dir::South => y + 1 < h,
        Dir::West => x > 0,
        Dir::East => x + 1 < w,
    }
}

/// Once the biased carver is finished, every cell reaches the
/// skipped corner through open passages: its one open bias wall
/// leads a step closer to that corner.
proof fn lemma_bt_reach_corner(g: BinaryTree, maze: Maze, i: int)
    requires
        g.inv(maze),
        g.done(),
        0 <= i < maze.area(),
    ensures
        reach(
            maze.cells@,
            maze.width as int,
            i,
            g.corner_idx(maze.width as int, maze.height as int),
        ),
    decreases
            (if x_of(i, maze.width as int) <= g.corner_x(maze.width as int) {
                g.corner_x(maze.width as int) - x_of(i, maze.width as int)
            } else {
                x_of(i, maze.width as int) - g.corner_x(maze.width as int)
            }) + (if y_of(i, maze.width as int) <= g.corner_y(maze.height as int) {
                g.corner_y(maze.height as int) - y_of(i, maze.width as int)
            } else {
                y_of(i, maze.width as int) - g.corner_y(maze.height as int)
            }),
{
    let w = maze.width as int;
    let h = maze.height as int;
    let s = maze.cells@;
    let corner = g.corner_idx(w, h);
    lemma_xy_bounds(i, w, h);
    crate::grid::lemma_idx_round_trip(i, w);
    lemma_to_idx_in_range(g.corner_x(w), g.corner_y(h), w, h);
    lemma_xy_round_trip(g.corner_x(w), g.corner_y(h), w);
    if i == corner {
        lemma_reach_refl(s, w, i);
    } else {
        // The walked cell keeps exactly one bias wall open; the open
        // one cannot face the boundary, and it points toward the
        // corner on its axis.
        assert(one_biased_open(s[i], g.dir_1, g.dir_2));
        let d = if !s[i].wall(g.dir_1) {
            g.dir_1
        } else {
            g.dir_2
        };
        assert(!s[i].wall(d));
        assert(neighbor_in(i, w, h, d));
        lemma_neighbor_valid(i, w, h, d);
        let n = neighbor_idx(i, w, d);
        assert(open_between(s, i, n, w));
        lemma_bt_reach_corner(g, maze, n);
        lemma_reach_step_front(s, w, i, n, corner);
    }
}

/// After the biased carver finishes: the single corner opposite both
/// bias directions keeps both bias walls intact, every other cell
/// has exactly one of them open, any two cells are joined through
/// open passages, and the number of open passages is exactly one
/// below the cell count.
pub proof fn lemma_binary_tree_complete(g: BinaryTree, maze: Maze)
    requires
        g.inv(maze),
        g.done(),
    ensures
        0 <= g.corner_idx(maze.width as int, maze.height as int) < maze.area(),
        both_biased(
            maze.cells@[g.corner_idx(maze.width as int, maze.height as int)],
            g.dir_1,
            g.dir_2,
        ),
        forall|i: int|
            0 <= i < maze.area() && i != g.corner_idx(maze.width as int, maze.height as int)
                ==> one_biased_open(#[trigger] maze.cells@[i], g.dir_1, g.dir_2),
        passage_count(maze.cells@, maze.width as int, maze.height as int) + 1
            == maze.cells@.len(),
        forall|a: int, b: int|
            0 <= a < maze.area() && 0 <= b < maze.area() ==> reach(
                maze.cells@,
                maze.width as int,
                a,
                b,
            ),
{
    let w = maze.width as int;
    let h = maze.height as int;
    let s = maze.cells@;
    let corner = g.corner_idx(w, h);
    lemma_to_idx_in_range(g.corner_x(w), g.corner_y(h), w, h);
    assert forall|a: int, b: int|
        0 <= a < maze.area() && 0 <= b < maze.area() implies reach(s, w, a, b) by {
        lemma_bt_reach_corner(g, maze, a);
        lemma_bt_reach_corner(g, maze, b);
        lemma_reach_sym(s, w, h, b, corner);
        lemma_reach_trans(s, w, a, corner, b);
    }
}

} // verus!
