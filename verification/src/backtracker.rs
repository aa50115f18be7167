//! The depth-first backtracking carver: grows a tree of passages
//! from a random start cell, one carve or one backtrack per step,
//! using an explicit stack so recursion depth never tracks grid
//! size.

use crate::generator::MazeGenerator;
use crate::graph::{
    acyclic, lemma_carve_acyclic, lemma_carve_counts, lemma_closed_visited_covers,
    lemma_mark_visited_counts, lemma_no_passages, lemma_reach_extend, lemma_reach_mono,
    lemma_reach_refl, lemma_reach_step_front, lemma_unvisited_all, lemma_unvisited_none,
    mark_visited, nbrs_visited, open_between, passage_count, reach, unvisited_count,
};
use crate::grid::{
    adjacent, get_neighbors, lemma_neighbor_valid, neighbor_in, Dir, Maze, MazeCell,
};
use crate::rng::Prng;
use crate::walls::{
    lemma_adjacent_sym, lemma_link_frame, lemma_link_preserves_sym, lemma_sym_pair,
    lemma_sym_same_walls, remove_wall, set_all_walls, spec_link,
};
use vstd::prelude::*;

verus! {

/// Some stack slot holds index `i`.
pub open spec fn in_stack(st: Seq<usize>, i: int) -> bool {
    exists|k: int| 0 <= k < st.len() && (#[trigger] st[k]) as int == i
}

/// Depth-first backtracking carver: the path stack, a carve counter
/// that also picks among candidate neighbors, and the terminal flag.
#[derive(Debug)]
pub struct RecursiveBacktracker {
    pub gen_iteration: usize,
    pub visited_stack: Vec<usize>,
    pub finished: bool,
}

impl RecursiveBacktracker {
    /// A fresh carver; `initialize` must run before stepping.
    pub fn new() -> (r: RecursiveBacktracker)
        ensures
            r.gen_iteration == 0,
            r.finished == false,
            r.visited_stack@.len() == 0,
    {
        RecursiveBacktracker { gen_iteration: 0, finished: false, visited_stack: Vec::new() }
    }
}

impl MazeGenerator for RecursiveBacktracker {
    open spec fn ready(self) -> bool {
        true
    }

    open spec fn inv(self, maze: Maze) -> bool {
        let s = maze.cells@;
        let w = maze.width as int;
        let h = maze.height as int;
        let st = self.visited_stack@;
        &&& maze.wf()
        &&& maze.sym()
        &&& (self.finished <==> st.len() == 0)
        &&& forall|k: int|
            0 <= k < st.len() ==> (#[trigger] st[k]) < s.len() && s[st[k] as int].visited
        &&& forall|i: int|
            0 <= i < s.len() && !(#[trigger] s[i]).visited ==> s[i].all_walls(true)
        &&& forall|i: int|
            0 <= i < s.len() && (#[trigger] s[i]).visited && !in_stack(st, i)
                ==> nbrs_visited(s, w, h, i)
        &&& forall|a: int, b: int|
            0 <= a < s.len() && 0 <= b < s.len() && (#[trigger] s[a]).visited
                && (#[trigger] s[b]).visited ==> reach(s, w, a, b)
        &&& acyclic(s, w)
        &&& unvisited_count(s) < s.len()
        &&& passage_count(s, w, h) + unvisited_count(s) + 1 == s.len()
        &&& self.gen_iteration + unvisited_count(s) + 1 == s.len()
    }

    open spec fn done(self) -> bool {
        self.finished
    }

    open spec fn work_left(self, maze: Maze) -> nat {
        2 * unvisited_count(maze.cells@) + self.visited_stack@.len()
    }

    open spec fn step_rel(self, maze: Maze, post: Self, post_maze: Maze) -> bool {
        let s = maze.cells@;
        let w = maze.width as int;
        let h = maze.height as int;
        let st = self.visited_stack@;
        if self.done() {
            post == self && post_maze == maze
        } else {
            st.len() > 0 && {
                let cur = st[st.len() - 1] as int;
                ||| (exists|b: int|
                    {
                        &&& 0 <= b < s.len()
                        &&& #[trigger] adjacent(cur, b, w)
                        &&& !s[b].visited
                        &&& post_maze.cells@ == mark_visited(
                            spec_link(s, cur, b, w, false),
                            b,
                        )
                        &&& post.visited_stack@ == st.push(b as usize)
                        &&& post.finished == false
                        &&& post.gen_iteration == self.gen_iteration + 1
                    })
                ||| {
                    &&& nbrs_visited(s, w, h, cur)
                    &&& post_maze == maze
                    &&& post.visited_stack@ == st.drop_last()
                    &&& post.finished == (st.len() == 1)
                    &&& post.gen_iteration == self.gen_iteration
                }
            }
        }
    }

    open spec fn init_rel(self, maze: Maze, post: Self, post_maze: Maze) -> bool {
        &&& post.gen_iteration == 0
        &&& post.finished == false
        &&& post_maze.cells@.len() == maze.cells@.len()
        &&& post.visited_stack@.len() == 1
        &&& {
            let start = post.visited_stack@[0] as int;
            &&& 0 <= start < maze.area()
            &&& forall|i: int|
                0 <= i < post_maze.cells@.len() ==> {
                    &&& (#[trigger] post_maze.cells@[i]).all_walls(true)
                    &&& post_maze.cells@[i].visited == (i == start)
                }
        }
    }

    fn initialize(&mut self, maze: &mut Maze, rng: &mut Prng) {
        proof {
            let w = old(maze).width as int;
            let h = old(maze).height as int;
            assert(w * h >= 1) by (nonlinear_arith)
                requires
                    1 <= w,
                    1 <= h,
            ;
        }
        let n = maze.cells.len();

        // Clear every traversal marker.
        let mut i: usize = 0;
        while i < n
            invariant
                n == maze.cells@.len(),
                i <= n,
                maze.width == old(maze).width,
                maze.height == old(maze).height,
                maze.cells@.len() == old(maze).cells@.len(),
                forall|j: int|
                    0 <= j < i as int ==> !(#[trigger] maze.cells@[j]).visited
                        && maze.cells@[j].idx == old(maze).cells@[j].idx,
                forall|j: int|
                    i as int <= j < n as int ==> #[trigger] maze.cells@[j] == old(
                        maze,
                    ).cells@[j],
            decreases n - i,
        {
            let mut c = maze.cells[i];
            c.visited = false;
            maze.cells[i] = c;
            i += 1;
        }

        // Raise every wall.
        set_all_walls(maze, true);

        // Pick the start cell, mark it, push it.
        let start = rng.next_below(n);
        let ghost s0 = maze.cells@;
        let mut c = maze.cells[start];
        c.visited = true;
        maze.cells[start] = c;
        self.visited_stack = Vec::new();
        self.visited_stack.push(start);
        self.finished = false;
        self.gen_iteration = 0;

        proof {
            let s = maze.cells@;
            let w = maze.width as int;
            let h = maze.height as int;
            assert(s == mark_visited(s0, start as int));
            lemma_unvisited_all(s0, s0.len() as int);
            lemma_no_passages(s0, w, h, s0.len() as int);
            lemma_mark_visited_counts(s0, start as int, w, h);
            lemma_sym_same_walls(s0, s, w, h);
            assert(self.visited_stack@[0] == start);
            assert(in_stack(self.visited_stack@, start as int));
            assert forall|p: int, q: int|
                #[trigger] crate::graph::open_between(s, p, q, w) implies !crate::graph::reach_avoiding(
                s,
                w,
                p,
                q,
                p,
                q,
            ) by {
                assert(s[p].all_walls(true));
                assert(false);
            }
            assert forall|a: int, b: int|
                0 <= a < s.len() && 0 <= b < s.len() && (#[trigger] s[a]).visited
                    && (#[trigger] s[b]).visited implies reach(s, w, a, b) by {
                lemma_reach_refl(s, w, a);
            }
        }
    }

    #[verifier::rlimit(100)]
    fn step(&mut self, maze: &mut Maze, rng: &mut Prng) -> (finished: bool) {
        if self.finished {
            return true;
        }
        let w = maze.width;
        let h = maze.height;
        let n_cells = maze.cells.len();
        let ghost s0 = maze.cells@;
        let ghost st0 = self.visited_stack@;
        let ghost iw = w as int;
        let ghost ih = h as int;

        // Take the most recent cell off the path stack.
        let popped = self.visited_stack.pop();
        let cur = match popped {
            Some(c) => c,
            None => 0,
        };
        let ghost icur = cur as int;
        proof {
            assert(st0.len() > 0);
            assert(cur == st0[st0.len() - 1]);
            assert(cur < n_cells && s0[icur].visited);
        }

        // Collect the unvisited cardinal neighbors.
        let cands = unvisited_neighbors(cur, maze);

        if cands.len() > 0 {
            // Keep the current cell reachable for backtracking, then
            // carve to one unvisited neighbor and walk into it.
            self.visited_stack.push(cur);
            proof {
                assert(self.visited_stack@ =~= st0);
            }
            let pick = self.gen_iteration % cands.len();
            let chosen = cands[pick];
            let ghost ib = chosen as int;
            proof {
                lemma_adjacent_sym(icur, ib, iw);
                assert(s0[ib].all_walls(true));
                lemma_sym_pair(s0, icur, ib, iw, ih);
            }
            let res = remove_wall(cur, chosen, w, &mut maze.cells);
            proof {
                assert(res is Ok);
                lemma_link_frame(s0, icur, ib, iw, false);
            }
            let mut c = maze.cells[chosen];
            c.visited = true;
            maze.cells[chosen] = c;
            self.visited_stack.push(chosen);
            self.gen_iteration = self.gen_iteration + 1;

            proof {
                lemma_carve_step(s0, st0, iw, ih, icur, ib);
                assert(maze.cells@ == mark_visited(spec_link(s0, icur, ib, iw, false), ib));
                assert(self.visited_stack@ == st0.push(chosen));
            }
            false
        } else {
            // Dead end: the popped cell stays off the stack; the
            // generator is finished once the stack has emptied.
            if self.visited_stack.len() == 0 {
                self.finished = true;
            }
            proof {
                assert(self.visited_stack@ == st0.drop_last());
                lemma_dead_end_step(s0, st0, iw, ih, icur);
            }
            self.finished
        }
    }

    fn is_finished(&self) -> (r: bool) {
        self.finished
    }
}

/// The unvisited cardinal neighbors of a cell; an empty result means
/// every neighbor on the grid is already visited.
fn unvisited_neighbors(cur: usize, maze: &Maze) -> (cands: Vec<usize>)
    requires
        maze.wf(),
        cur < maze.area(),
    ensures
        forall|j: int|
            0 <= j < cands@.len() ==> (#[trigger] cands@[j]) < maze.cells@.len()
                && !maze.cells@[cands@[j] as int].visited && adjacent(
                cur as int,
                cands@[j] as int,
                maze.width as int,
            ),
        cands@.len() == 0 ==> nbrs_visited(
            maze.cells@,
            maze.width as int,
            maze.height as int,
            cur as int,
        ),
{
    let w = maze.width;
    let h = maze.height;
    let n_cells = maze.cells.len();
    let ghost iw = w as int;
    let ghost ih = h as int;
    let ghost icur = cur as int;
    let nbors = get_neighbors(cur, w, h);
    let mut cands: Vec<usize> = Vec::new();
    match nbors[0] {
        Some(nb) => {
            proof {
                lemma_neighbor_valid(icur, iw, ih, Dir::North);
            }
            if !maze.cells[nb].visited {
                cands.push(nb);
            }
        },
        None => {},
    }
    match nbors[1] {
        Some(nb) => {
            proof {
                lemma_neighbor_valid(icur, iw, ih, Dir::West);
            }
            if !maze.cells[nb].visited {
                cands.push(nb);
            }
        },
        None => {},
    }
    match nbors[2] {
        Some(nb) => {
            proof {
                lemma_neighbor_valid(icur, iw, ih, Dir::South);
            }
            if !maze.cells[nb].visited {
                cands.push(nb);
            }
        },
        None => {},
    }
    match nbors[3] {
        Some(nb) => {
            proof {
                lemma_neighbor_valid(icur, iw, ih, Dir::East);
            }
            if !maze.cells[nb].visited {
                cands.push(nb);
            }
        },
        None => {},
    }
    cands
}

/// Dropping a dead-end cell from the stack keeps the closure
/// property: every visited cell off the new stack still has all its
/// neighbors visited.
proof fn lemma_dead_end_step(s0: Seq<MazeCell>, st0: Seq<usize>, w: int, h: int, cur: int)
    requires
        st0.len() > 0,
        (st0[st0.len() - 1]) as int == cur,
        forall|i: int|
            0 <= i < s0.len() && (#[trigger] s0[i]).visited && !in_stack(st0, i)
                ==> nbrs_visited(s0, w, h, i),
        nbrs_visited(s0, w, h, cur),
    ensures
        forall|i: int|
            0 <= i < s0.len() && (#[trigger] s0[i]).visited && !in_stack(
                st0.drop_last(),
                i,
            ) ==> nbrs_visited(s0, w, h, i),
{
    let st1 = st0.drop_last();
    assert forall|i: int|
        0 <= i < s0.len() && (#[trigger] s0[i]).visited && !in_stack(st1, i)
            implies nbrs_visited(s0, w, h, i) by {
        if i != cur {
            if in_stack(st0, i) {
                let k = choose|k: int|
                    0 <= k < st0.len() && (#[trigger] st0[k]) as int == i;
                assert(k < st0.len() - 1);
                assert(st1[k] == st0[k]);
                assert(in_stack(st1, i));
            }
        }
    }
}

/// The heart of one carving step: opening the wall into an unvisited
/// neighbor and marking it visited preserves every piece of the
/// carver's invariant, adds one passage, and claims one cell.
proof fn lemma_carve_step(s0: Seq<MazeCell>, st0: Seq<usize>, w: int, h: int, cur: int, b: int)
    requires
        1 <= w,
        1 <= h,
        s0.len() == w * h,
        crate::walls::grid_sym(s0, w, h),
        st0.len() > 0,
        (st0[st0.len() - 1]) as int == cur,
        forall|k: int|
            0 <= k < st0.len() ==> (#[trigger] st0[k]) < s0.len() && s0[st0[k] as int].visited,
        forall|i: int|
            0 <= i < s0.len() && !(#[trigger] s0[i]).visited ==> s0[i].all_walls(true),
        forall|i: int|
            0 <= i < s0.len() && (#[trigger] s0[i]).visited && !in_stack(st0, i)
                ==> nbrs_visited(s0, w, h, i),
        forall|a2: int, b2: int|
            0 <= a2 < s0.len() && 0 <= b2 < s0.len() && (#[trigger] s0[a2]).visited
                && (#[trigger] s0[b2]).visited ==> reach(s0, w, a2, b2),
        0 <= b < s0.len(),
        b <= usize::MAX,
        adjacent(cur, b, w),
        !s0[b].visited,
        acyclic(s0, w),
    ensures
        ({
            let s2 = mark_visited(spec_link(s0, cur, b, w, false), b);
            let st2 = st0.push(b as usize);
            &&& s2.len() == s0.len()
            &&& crate::walls::grid_sym(s2, w, h)
            &&& forall|i: int| 0 <= i < s0.len() ==> (#[trigger] s2[i]).idx == s0[i].idx
            &&& forall|k: int|
                0 <= k < st2.len() ==> (#[trigger] st2[k]) < s2.len()
                    && s2[st2[k] as int].visited
            &&& forall|i: int|
                0 <= i < s2.len() && !(#[trigger] s2[i]).visited ==> s2[i].all_walls(true)
            &&& forall|i: int|
                0 <= i < s2.len() && (#[trigger] s2[i]).visited && !in_stack(st2, i)
                    ==> nbrs_visited(s2, w, h, i)
            &&& forall|a2: int, b2: int|
                0 <= a2 < s2.len() && 0 <= b2 < s2.len() && (#[trigger] s2[a2]).visited
                    && (#[trigger] s2[b2]).visited ==> reach(s2, w, a2, b2)
            &&& acyclic(s2, w)
            &&& unvisited_count(s2) == unvisited_count(s0) - 1
            &&& passage_count(s2, w, h) == passage_count(s0, w, h) + 1
        }),
{
    assert(s0[cur].visited && 0 <= cur < s0.len());
    lemma_adjacent_sym(cur, b, w);
    assert(s0[b].all_walls(true));
    lemma_sym_pair(s0, cur, b, w, h);
    lemma_link_frame(s0, cur, b, w, false);
    lemma_link_preserves_sym(s0, cur, b, w, h, false);
    lemma_carve_counts(s0, cur, b, w, h);
    lemma_carve_acyclic(s0, w, h, cur, b);

    let s1 = spec_link(s0, cur, b, w, false);
    let s2 = mark_visited(s1, b);
    let st2 = st0.push(b as usize);
    lemma_mark_visited_counts(s1, b, w, h);
    lemma_sym_same_walls(s1, s2, w, h);

    // Opening a wall pair only adds passages.
    assert forall|x: int, y: int|
        #[trigger] open_between(s0, x, y, w) implies open_between(s2, x, y, w) by {
        assert(s2[x].wall_north ==> s0[x].wall_north);
        assert(s2[x].wall_south ==> s0[x].wall_south);
        assert(s2[x].wall_east ==> s0[x].wall_east);
        assert(s2[x].wall_west ==> s0[x].wall_west);
    }

    // The new passage joins the fresh cell to everything already
    // carved.
    assert(open_between(s2, b, cur, w));
    assert(open_between(s2, cur, b, w));
    assert forall|a2: int, b2: int|
        0 <= a2 < s2.len() && 0 <= b2 < s2.len() && (#[trigger] s2[a2]).visited
            && (#[trigger] s2[b2]).visited implies reach(s2, w, a2, b2) by {
        if a2 == b && b2 == b {
            lemma_reach_refl(s2, w, a2);
        } else if a2 == b {
            lemma_reach_mono(s0, s2, w, cur, b2);
            lemma_reach_step_front(s2, w, b, cur, b2);
        } else if b2 == b {
            lemma_reach_mono(s0, s2, w, a2, cur);
            lemma_reach_extend(s2, w, a2, cur, b);
        } else {
            lemma_reach_mono(s0, s2, w, a2, b2);
        }
    }

    // Cells off the stack still have no unvisited neighbor: the
    // stack and the visited set only grew.
    assert(forall|x: int|
        0 <= x < s0.len() && s0[x].visited ==> (#[trigger] s2[x]).visited);
    assert forall|i: int|
        0 <= i < s2.len() && (#[trigger] s2[i]).visited && !in_stack(st2, i)
            implies nbrs_visited(s2, w, h, i) by {
        assert forall|k: int| 0 <= k < st0.len() implies st2[k] == st0[k] by {}
        assert(in_stack(st2, b)) by {
            assert((st2[st0.len() as int]) as int == b);
        }
        assert(i != b);
        assert(!in_stack(st0, i)) by {
            if in_stack(st0, i) {
                let k = choose|k: int|
                    0 <= k < st0.len() && (#[trigger] st0[k]) as int == i;
                assert((st2[k]) as int == i);
            }
        }
        assert(s0[i].visited);
        assert(nbrs_visited(s0, w, h, i));
        if neighbor_in(i, w, h, Dir::North) {
            lemma_neighbor_valid(i, w, h, Dir::North);
        }
        if neighbor_in(i, w, h, Dir::South) {
            lemma_neighbor_valid(i, w, h, Dir::South);
        }
        if neighbor_in(i, w, h, Dir::West) {
            lemma_neighbor_valid(i, w, h, Dir::West);
        }
        if neighbor_in(i, w, h, Dir::East) {
            lemma_neighbor_valid(i, w, h, Dir::East);
        }
    }
}

/// After the depth-first carver finishes: every cell is visited, any
/// two cells are joined through open passages, every passage is a
/// bridge (so the graph is acyclic), and the number of open passages
/// is exactly one below the cell count — the open-passage graph is a
/// spanning tree of the grid.
pub proof fn lemma_backtracker_complete(g: RecursiveBacktracker, maze: Maze)
    requires
        g.inv(maze),
        g.done(),
    ensures
        forall|i: int| 0 <= i < maze.cells@.len() ==> (#[trigger] maze.cells@[i]).visited,
        forall|a: int, b: int|
            0 <= a < maze.cells@.len() && 0 <= b < maze.cells@.len() ==> reach(
                maze.cells@,
                maze.width as int,
                a,
                b,
            ),
        passage_count(maze.cells@, maze.width as int, maze.height as int) + 1
            == maze.cells@.len(),
        acyclic(maze.cells@, maze.width as int),
{
    let s = maze.cells@;
    let w = maze.width as int;
    let h = maze.height as int;
    let st = g.visited_stack@;

    // With the stack empty, every visited cell is closed: all its
    // neighbors are visited too.
    assert(st.len() == 0);
    assert forall|i: int|
        0 <= i < s.len() && (#[trigger] s[i]).visited implies nbrs_visited(s, w, h, i) by {
        assert(!in_stack(st, i));
    }

    // At least one cell is visited.
    assert(exists|i: int| 0 <= i < s.len() && (#[trigger] s[i]).visited) by {
        if forall|i: int| 0 <= i < s.len() ==> !(#[trigger] s[i]).visited {
            lemma_unvisited_all(s, s.len() as int);
            assert(false);
        }
    }
    let s0i = choose|i: int| 0 <= i < s.len() && (#[trigger] s[i]).visited;

    // A nonempty, adjacency-closed visited set covers the grid.
    lemma_closed_visited_covers(s, w, h, s0i);
    lemma_unvisited_none(s, s.len() as int);
    assert forall|a: int, b: int|
        0 <= a < s.len() && 0 <= b < s.len() implies reach(s, w, a, b) by {
        assert(s[a].visited && s[b].visited);
    }
}

} // verus!
