//! The recursive spatial-division carver: starts from a fully open
//! grid and, round by round, splits every pending rectangular field
//! with a wall that leaves one gap, until the configured number of
//! rounds is spent.

use crate::generator::MazeGenerator;
use crate::grid::{lemma_to_idx_in_range, to_idx, Maze, MazeCell};
use crate::rng::Prng;
use crate::walls::{add_wall, lemma_link_frame, lemma_link_preserves_sym, set_all_walls};
use std::collections::VecDeque;
use vstd::prelude::*;

verus! {

/// A transient rectangular subregion awaiting subdivision; never
/// part of the grid itself.
#[derive(PartialEq, Eq, Structural, Debug, Clone, Copy)]
pub struct Field {
    pub x: usize,
    pub y: usize,
    pub width: usize,
    pub height: usize,
}

/// The line along which a field was split: the fixed row or column
/// `split_coord`, running over `[start, end)` of the other axis.
#[derive(PartialEq, Eq, Structural, Debug, Clone, Copy)]
pub struct FieldIntersection {
    pub start: usize,
    pub end: usize,
    pub split_coord: usize,
}

impl Field {
    /// A nonempty field lying inside a `w` by `h` grid.
    pub open spec fn in_grid(self, w: int, h: int) -> bool {
        &&& 1 <= self.width
        &&& 1 <= self.height
        &&& self.x + self.width <= w
        &&& self.y + self.height <= h
    }
}

/// How a successful split relates the field to its two halves and
/// the line between them; only the split position is left to chance.
pub open spec fn divide_ok(
    f: Field,
    horizontally: bool,
    f1: Field,
    f2: Field,
    it: FieldIntersection,
) -> bool {
    if horizontally {
        &&& f1.x == f.x && f1.y == f.y && f1.width == f.width
        &&& 1 <= f1.height < f.height
        &&& f2.x == f.x && f2.y == f.y + f1.height
        &&& f2.width == f.width && f2.height == f.height - f1.height
        &&& it.start == f.x && it.end == f.x + f.width
        &&& it.split_coord == f.y + f1.height - 1
    } else {
        &&& f1.x == f.x && f1.y == f.y && f1.height == f.height
        &&& 1 <= f1.width < f.width
        &&& f2.x == f.x + f1.width && f2.y == f.y
        &&& f2.width == f.width - f1.width && f2.height == f.height
        &&& it.start == f.y && it.end == f.y + f.height
        &&& it.split_coord == f.x + f1.width - 1
    }
}

impl Field {
    /// Tries to split this field in two at a random line, returning
    /// the halves and the line between them; fields thinner than two
    /// cells on either axis cannot be split.
    pub fn divide(self, horizontally: bool, rng: &mut Prng) -> (r: Option<
        (Field, Field, FieldIntersection),
    >)
        requires
            self.x + self.width <= usize::MAX,
            self.y + self.height <= usize::MAX,
        ensures
            r is Some <==> (2 <= self.width && 2 <= self.height),
            r matches Some(t) ==> divide_ok(self, horizontally, t.0, t.1, t.2),
    {
        if self.width < 2 || self.height < 2 {
            return None;
        }

        if horizontally {
            let split_coord = rng.next_below(self.height - 1);

            let top_field = Field {
                x: self.x,
                y: self.y,
                width: self.width,
                height: split_coord + 1,
            };

            let bot_field = Field {
                x: self.x,
                y: top_field.y + top_field.height,
                width: self.width,
                height: self.height - top_field.height,
            };

            let intersection = FieldIntersection {
                start: self.x,
                end: self.x + self.width,
                split_coord: self.y + split_coord,
            };

            Some((top_field, bot_field, intersection))
        } else {
            let split_coord = rng.next_below(self.width - 1);

            let left_field = Field {
                x: self.x,
                y: self.y,
                width: split_coord + 1,
                height: self.height,
            };

            let right_field = Field {
                x: left_field.x + left_field.width,
                y: self.y,
                width: self.width - left_field.width,
                height: self.height,
            };

            let intersection = FieldIntersection {
                start: self.y,
                end: self.y + self.height,
                split_coord: self.x + split_coord,
            };

            Some((left_field, right_field, intersection))
        }
    }
}

/// One cell sequence refines another by only adding walls: length,
/// indices and visited markers agree, and every wall present before
/// is still present.
pub open spec fn walls_monotone(s1: Seq<MazeCell>, s2: Seq<MazeCell>) -> bool {
    &&& s2.len() == s1.len()
    &&& forall|i: int|
        0 <= i < s1.len() ==> {
            &&& (#[trigger] s2[i]).idx == s1[i].idx
            &&& s2[i].visited == s1[i].visited
            &&& (s1[i].wall_north ==> s2[i].wall_north)
            &&& (s1[i].wall_south ==> s2[i].wall_south)
            &&& (s1[i].wall_east ==> s2[i].wall_east)
            &&& (s1[i].wall_west ==> s2[i].wall_west)
        }
}

/// Whether a field is still large enough to split.
pub open spec fn splittable(f: Field) -> bool {
    2 <= f.width && 2 <= f.height
}

/// Number of splittable fields among the first `n` of a queue.
pub open spec fn split_count(fs: Seq<Field>, n: int) -> nat
    decreases n,
{
    if n <= 0 {
        0
    } else {
        split_count(fs, n - 1) + if splittable(fs[n - 1]) {
            1nat
        } else {
            0nat
        }
    }
}

/// The recursive-division carver: a FIFO queue of pending fields, a
/// round counter, and the fixed number of rounds to run.
#[derive(Debug)]
pub struct RecursiveDivision {
    pub gen_iteration: usize,
    pub max_subdivides: usize,
    pub fields: VecDeque<Field>,
}

impl RecursiveDivision {
    /// Configures the carver to run `max_subdivides` rounds.
    pub fn new(max_subdivides: usize) -> (r: RecursiveDivision)
        ensures
            r.gen_iteration == 0,
            r.max_subdivides == max_subdivides,
            r.fields@.len() == 0,
    {
        RecursiveDivision { gen_iteration: 0, max_subdivides, fields: VecDeque::new() }
    }
}

impl MazeGenerator for RecursiveDivision {
    open spec fn ready(self) -> bool {
        true
    }

    open spec fn inv(self, maze: Maze) -> bool {
        &&& maze.wf()
        &&& maze.sym()
        &&& self.gen_iteration <= self.max_subdivides
        &&& forall|k: int|
            0 <= k < self.fields@.len() ==> (#[trigger] self.fields@[k]).in_grid(
                maze.width as int,
                maze.height as int,
            )
    }

    open spec fn done(self) -> bool {
        self.gen_iteration == self.max_subdivides
    }

    open spec fn work_left(self, maze: Maze) -> nat {
        if self.gen_iteration <= self.max_subdivides {
            (self.max_subdivides - self.gen_iteration) as nat
        } else {
            0
        }
    }

    open spec fn step_rel(self, maze: Maze, post: Self, post_maze: Maze) -> bool {
        if self.done() {
            post == self && post_maze == maze
        } else {
            &&& post.gen_iteration == self.gen_iteration + 1
            &&& post.max_subdivides == self.max_subdivides
            &&& walls_monotone(maze.cells@, post_maze.cells@)
            &&& post.fields@.len() == 2 * split_count(
                self.fields@,
                self.fields@.len() as int,
            )
        }
    }

    open spec fn init_rel(self, maze: Maze, post: Self, post_maze: Maze) -> bool {
        &&& post.gen_iteration == 0
        &&& post.max_subdivides == self.max_subdivides
        &&& post.fields@ == seq![
            (Field { x: 0, y: 0, width: maze.width, height: maze.height }),
        ]
        &&& post_maze.cells@.len() == maze.cells@.len()
        &&& forall|i: int|
            0 <= i < post_maze.cells@.len() ==> {
                &&& (#[trigger] post_maze.cells@[i]).all_walls(false)
                &&& post_maze.cells@[i].visited == maze.cells@[i].visited
            }
    }

    fn initialize(&mut self, maze: &mut Maze, rng: &mut Prng) {
        set_all_walls(maze, false);
        self.gen_iteration = 0;
        self.fields.clear();
        self.fields.push_back(
            Field { x: 0, y: 0, width: maze.width, height: maze.height },
        );
    }

    fn step(&mut self, maze: &mut Maze, rng: &mut Prng) -> (finished: bool) {
        if self.gen_iteration == self.max_subdivides {
            return true;
        }

        let w = maze.width;
        let h = maze.height;
        let n_cells = maze.cells.len();
        let ghost pre = *maze;

        // One round: subdivide every field present right now; the
        // children enqueued below wait for the next round.
        let ghost fs0 = self.fields@;
        let field_count = self.fields.len();
        let mut processed: usize = 0;
        while processed < field_count
            invariant
                processed <= field_count,
                fs0.len() == field_count,
                self.fields@.len() == field_count - processed + 2 * split_count(
                    fs0,
                    processed as int,
                ),
                forall|k: int|
                    0 <= k < field_count - processed ==> #[trigger] self.fields@[k] == fs0[
                        processed + k],
                maze.wf(),
                (*maze).sym(),
                maze.width == w,
                maze.height == h,
                maze.cells@.len() == n_cells,
                n_cells == w * h,
                walls_monotone(pre.cells@, maze.cells@),
                self.gen_iteration == old(self).gen_iteration,
                self.max_subdivides == old(self).max_subdivides,
                forall|k: int|
                    0 <= k < self.fields@.len() ==> (#[trigger] self.fields@[k]).in_grid(
                        w as int,
                        h as int,
                    ),
            decreases field_count - processed,
        {
            let popped = self.fields.pop_front();
            proof {
                assert(popped == Some(fs0[processed as int]));
            }
            match popped {
                Some(field) => {
                    // Split taller fields horizontally, wider ones
                    // vertically, square ones either way.
                    let horiz = if field.height > field.width {
                        true
                    } else if field.width > field.height {
                        false
                    } else {
                        rng.next_below(2) == 0
                    };

                    let divided = field.divide(horiz, rng);
                    match divided {
                        Some((field_1, field_2, intersection)) => {
                            // One random gap stays open along the line.
                            let gap = intersection.start + rng.next_below(
                                intersection.end - intersection.start,
                            );
                            insert_division_wall(maze, horiz, intersection, gap);
                            self.fields.push_back(field_1);
                            self.fields.push_back(field_2);
                        },
                        None => {},
                    }
                },
                None => {},
            }
            processed += 1;
        }

        self.gen_iteration = self.gen_iteration + 1;
        self.gen_iteration == self.max_subdivides
    }

    fn is_finished(&self) -> (r: bool) {
        self.gen_iteration == self.max_subdivides
    }
}

/// The wall pair at position `t` of a split line is present: for a
/// horizontal line along row `line`, the south wall of `(t, line)`
/// and the north wall of `(t, line + 1)`; for a vertical line along
/// column `line`, the east wall of `(line, t)` and the west wall of
/// `(line + 1, t)`.
pub open spec fn wall_pair_on_line(
    s: Seq<MazeCell>,
    w: int,
    horiz: bool,
    line: int,
    t: int,
) -> bool {
    if horiz {
        s[line * w + t].wall_south && s[(line + 1) * w + t].wall_north
    } else {
        s[t * w + line].wall_east && s[t * w + line + 1].wall_west
    }
}

/// Walls off one split line except at the gap cell, pairing each
/// wall with its counterpart on the far side of the line.
fn insert_division_wall(
    maze: &mut Maze,
    horiz: bool,
    intersection: FieldIntersection,
    gap: usize,
)
    requires
        old(maze).wf(),
        (*old(maze)).sym(),
        intersection.end <= if horiz {
            old(maze).width
        } else {
            old(maze).height
        },
        intersection.split_coord + 1 < if horiz {
            old(maze).height
        } else {
            old(maze).width
        },
    ensures
        final(maze).wf(),
        (*final(maze)).sym(),
        final(maze).width == old(maze).width,
        final(maze).height == old(maze).height,
        walls_monotone(old(maze).cells@, final(maze).cells@),
        forall|t: int|
            intersection.start <= t < intersection.end && t != gap ==> wall_pair_on_line(
                final(maze).cells@,
                old(maze).width as int,
                horiz,
                intersection.split_coord as int,
                t,
            ),
{
    let w = maze.width;
    let h = maze.height;
    let n_cells = maze.cells.len();
    let ghost pre = *maze;
    let mut along = intersection.start;
    while along < intersection.end
        invariant
            maze.wf(),
            (*maze).sym(),
            maze.width == w,
            maze.height == h,
            maze.cells@.len() == n_cells,
            n_cells == w * h,
            walls_monotone(pre.cells@, maze.cells@),
            intersection.start <= along,
            intersection.end <= if horiz {
                w
            } else {
                h
            },
            intersection.split_coord + 1 < if horiz {
                h
            } else {
                w
            },
            forall|t: int|
                intersection.start <= t < along as int && t != gap ==> wall_pair_on_line(
                    maze.cells@,
                    w as int,
                    horiz,
                    intersection.split_coord as int,
                    t,
                ),
        decreases intersection.end - along,
    {
        if along != gap {
            let ghost cells0 = maze.cells@;
            let idx: usize;
            let nbor_idx: usize;
            if horiz {
                let yc = intersection.split_coord;
                proof {
                    lemma_to_idx_in_range(along as int, yc as int, w as int, h as int);
                    lemma_to_idx_in_range(along as int, yc as int + 1, w as int, h as int);
                    assert((yc as int + 1) * w as int + along as int == yc as int * w as int
                        + along as int + w as int) by (nonlinear_arith);
                }
                idx = to_idx(along, yc, w);
                nbor_idx = to_idx(along, yc + 1, w);
            } else {
                let xc = intersection.split_coord;
                proof {
                    lemma_to_idx_in_range(xc as int, along as int, w as int, h as int);
                    lemma_to_idx_in_range(xc as int + 1, along as int, w as int, h as int);
                }
                idx = to_idx(xc, along, w);
                nbor_idx = to_idx(xc + 1, along, w);
                proof {
                    crate::grid::lemma_xy_round_trip(xc as int, along as int, w as int);
                    crate::grid::lemma_xy_round_trip(xc as int + 1, along as int, w as int);
                }
            }
            let res = add_wall(idx, nbor_idx, w, &mut maze.cells);
            proof {
                assert(res is Ok);
                lemma_link_frame(cells0, idx as int, nbor_idx as int, w as int, true);
                lemma_link_preserves_sym(
                    cells0,
                    idx as int,
                    nbor_idx as int,
                    w as int,
                    h as int,
                    true,
                );
                let sc = intersection.split_coord as int;
                assert forall|t: int|
                    intersection.start <= t <= along as int && t != gap implies wall_pair_on_line(
                    maze.cells@,
                    w as int,
                    horiz,
                    sc,
                    t,
                ) by {
                    if horiz {
                        lemma_to_idx_in_range(t, sc, w as int, h as int);
                        lemma_to_idx_in_range(t, sc + 1, w as int, h as int);
                    } else {
                        lemma_to_idx_in_range(sc, t, w as int, h as int);
                        lemma_to_idx_in_range(sc + 1, t, w as int, h as int);
                    }
                    if t < along as int {
                        assert(wall_pair_on_line(cells0, w as int, horiz, sc, t));
                    }
                }
            }
        }
        along += 1;
    }
}

} // verus!
