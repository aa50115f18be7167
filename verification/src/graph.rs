//! Counting and reachability over the open-passage graph of a grid:
//! the vocabulary in which the depth-first carver's spanning-tree
//! guarantee is stated.

use crate::grid::{
    adjacent, dir_of, lemma_horizontal_pair, lemma_xy_bounds, neighbor_in, x_of, y_of, Dir,
    MazeCell,
};
use crate::walls::{lemma_adjacent_sym, lemma_link_frame, spec_link};
use vstd::prelude::*;

verus! {

/// 1 for an unvisited cell, 0 for a visited one.
pub open spec fn unvisited_weight(c: MazeCell) -> nat {
    if c.visited {
        0
    } else {
        1
    }
}

/// Number of unvisited cells among the first `n`.
pub open spec fn unvisited_upto(s: Seq<MazeCell>, n: int) -> nat
    decreases n,
{
    if n <= 0 {
        0
    } else {
        unvisited_upto(s, n - 1) + unvisited_weight(s[n - 1])
    }
}

/// Number of unvisited cells.
pub open spec fn unvisited_count(s: Seq<MazeCell>) -> nat {
    unvisited_upto(s, s.len() as int)
}

/// Open passages charged to cell `i`: its open east wall unless it
/// sits in the last column, and its open south wall unless it sits
/// in the last row. Under wall symmetry every open passage of the
/// grid is charged to exactly one cell.
pub open spec fn passage_weight(s: Seq<MazeCell>, i: int, w: int, h: int) -> nat {
    (if x_of(i, w) < w - 1 && !s[i].wall_east {
        1nat
    } else {
        0nat
    }) + (if y_of(i, w) < h - 1 && !s[i].wall_south {
        1nat
    } else {
        0nat
    })
}

/// Open passages charged to the first `n` cells.
pub open spec fn passages_upto(s: Seq<MazeCell>, w: int, h: int, n: int) -> nat
    decreases n,
{
    if n <= 0 {
        0
    } else {
        passages_upto(s, w, h, n - 1) + passage_weight(s, n - 1, w, h)
    }
}

/// Number of open passages of the grid.
pub open spec fn passage_count(s: Seq<MazeCell>, w: int, h: int) -> nat {
    passages_upto(s, w, h, s.len() as int)
}

/// Replacing one cell shifts the unvisited count by the two weights.
pub proof fn lemma_unvisited_upto_update(s: Seq<MazeCell>, j: int, c: MazeCell, n: int)
    requires
        0 <= j < s.len(),
        n <= s.len(),
    ensures
        unvisited_upto(s.update(j, c), n) == if j < n {
            unvisited_upto(s, n) - unvisited_weight(s[j]) + unvisited_weight(c)
        } else {
            unvisited_upto(s, n) as int
        },
    decreases n,
{
    if n > 0 {
        lemma_unvisited_upto_update(s, j, c, n - 1);
    }
}

/// Replacing one cell shifts the passage count by the two weights.
pub proof fn lemma_passages_upto_update(
    s: Seq<MazeCell>,
    j: int,
    c: MazeCell,
    w: int,
    h: int,
    n: int,
)
    requires
        0 <= j < s.len(),
        n <= s.len(),
    ensures
        passages_upto(s.update(j, c), w, h, n) == if j < n {
            passages_upto(s, w, h, n) - passage_weight(s, j, w, h) + passage_weight(
                s.update(j, c),
                j,
                w,
                h,
            )
        } else {
            passages_upto(s, w, h, n) as int
        },
    decreases n,
{
    if n > 0 {
        lemma_passages_upto_update(s, j, c, w, h, n - 1);
        if j != n - 1 {
            assert(passage_weight(s.update(j, c), n - 1, w, h) == passage_weight(
                s,
                n - 1,
                w,
                h,
            ));
        }
    }
}

/// Carving the wall pair between two adjacent cells, both sides
/// previously present, raises the passage count by exactly one and
/// moves no visited marker.
pub proof fn lemma_carve_counts(s: Seq<MazeCell>, a: int, b: int, w: int, h: int)
    requires
        1 <= w,
        1 <= h,
        s.len() == w * h,
        0 <= a < s.len(),
        0 <= b < s.len(),
        adjacent(a, b, w),
        s[a].wall(dir_of(a, b, w)),
        s[b].wall(dir_of(b, a, w)),
    ensures
        passage_count(spec_link(s, a, b, w, false), w, h) == passage_count(s, w, h) + 1,
        unvisited_count(spec_link(s, a, b, w, false)) == unvisited_count(s),
{
    lemma_adjacent_sym(a, b, w);
    lemma_link_frame(s, a, b, w, false);
    let d = dir_of(a, b, w);
    let s1 = s.update(a, s[a].with_wall(d, false));
    let s2 = s1.update(b, s[b].with_wall(d.opposite(), false));
    assert(spec_link(s, a, b, w, false) == s2);

    lemma_xy_bounds(a, w, h);
    lemma_xy_bounds(b, w, h);
    match d {
        Dir::East => {
            lemma_horizontal_pair(a, w);
        },
        Dir::West => {
            lemma_horizontal_pair(b, w);
        },
        Dir::South => {
            crate::grid::lemma_south_neighbor(a, w);
        },
        Dir::North => {
            crate::grid::lemma_south_neighbor(b, w);
        },
    }

    lemma_passages_upto_update(s, a, s[a].with_wall(d, false), w, h, s.len() as int);
    lemma_passages_upto_update(
        s1,
        b,
        s[b].with_wall(d.opposite(), false),
        w,
        h,
        s1.len() as int,
    );
    assert(passage_weight(s1, b, w, h) == passage_weight(s, b, w, h));

    lemma_unvisited_upto_update(s, a, s[a].with_wall(d, false), s.len() as int);
    lemma_unvisited_upto_update(
        s1,
        b,
        s[b].with_wall(d.opposite(), false),
        s1.len() as int,
    );
}

/// Marking an unvisited cell visited lowers the unvisited count by
/// one and leaves the passage count alone.
pub proof fn lemma_mark_visited_counts(s: Seq<MazeCell>, j: int, w: int, h: int)
    requires
        0 <= j < s.len(),
        !s[j].visited,
    ensures
        unvisited_count(s.update(j, (MazeCell { visited: true, ..s[j] }))) == unvisited_count(
            s,
        ) - 1,
        passage_count(s.update(j, (MazeCell { visited: true, ..s[j] })), w, h)
            == passage_count(s, w, h),
{
    let c = MazeCell { visited: true, ..s[j] };
    lemma_unvisited_upto_update(s, j, c, s.len() as int);
    lemma_passages_upto_update(s, j, c, w, h, s.len() as int);
    assert(passage_weight(s.update(j, c), j, w, h) == passage_weight(s, j, w, h));
}

/// An open passage from `a` into `b`: adjacent cells, and `a`'s wall
/// toward `b` is down.
pub open spec fn open_between(s: Seq<MazeCell>, a: int, b: int, w: int) -> bool {
    &&& 0 <= a < s.len()
    &&& 0 <= b < s.len()
    &&& adjacent(a, b, w)
    &&& !s[a].wall(dir_of(a, b, w))
}

/// A chain of at most `n` open passages leads from `a` to `b`.
pub open spec fn reach_n(s: Seq<MazeCell>, w: int, a: int, b: int, n: nat) -> bool
    decreases n,
{
    a == b || (n > 0 && exists|m: int|
        open_between(s, a, m, w) && reach_n(s, w, m, b, (n - 1) as nat))
}

/// `b` is reachable from `a` through open passages.
pub open spec fn reach(s: Seq<MazeCell>, w: int, a: int, b: int) -> bool {
    exists|n: nat| reach_n(s, w, a, b, n)
}

/// Every cell reaches itself.
pub proof fn lemma_reach_refl(s: Seq<MazeCell>, w: int, a: int)
    ensures
        reach(s, w, a, a),
{
    assert(reach_n(s, w, a, a, 0));
}

/// A reachable cell is still reachable after one more leading passage.
pub proof fn lemma_reach_step_front(s: Seq<MazeCell>, w: int, a: int, b: int, c: int)
    requires
        open_between(s, a, b, w),
        reach(s, w, b, c),
    ensures
        reach(s, w, a, c),
{
    let n = choose|n: nat| reach_n(s, w, b, c, n);
    assert(reach_n(s, w, a, c, n + 1));
}

proof fn lemma_reach_n_extend(s: Seq<MazeCell>, w: int, a: int, b: int, c: int, n: nat)
    requires
        reach_n(s, w, a, b, n),
        open_between(s, b, c, w),
    ensures
        reach_n(s, w, a, c, (n + 1) as nat),
    decreases n,
{
    if a == b {
        assert(reach_n(s, w, c, c, n));
        assert(open_between(s, a, c, w) && reach_n(s, w, c, c, n));
    } else {
        let m = choose|m: int|
            open_between(s, a, m, w) && reach_n(s, w, m, b, (n - 1) as nat);
        lemma_reach_n_extend(s, w, m, b, c, (n - 1) as nat);
        assert(open_between(s, a, m, w) && reach_n(s, w, m, c, n));
    }
}

/// A reachable cell is still reachable after one more trailing passage.
pub proof fn lemma_reach_extend(s: Seq<MazeCell>, w: int, a: int, b: int, c: int)
    requires
        reach(s, w, a, b),
        open_between(s, b, c, w),
    ensures
        reach(s, w, a, c),
{
    let n = choose|n: nat| reach_n(s, w, a, b, n);
    lemma_reach_n_extend(s, w, a, b, c, n);
}

proof fn lemma_reach_n_mono(
    s1: Seq<MazeCell>,
    s2: Seq<MazeCell>,
    w: int,
    a: int,
    b: int,
    n: nat,
)
    requires
        forall|x: int, y: int|
            #[trigger] open_between(s1, x, y, w) ==> open_between(s2, x, y, w),
        reach_n(s1, w, a, b, n),
    ensures
        reach_n(s2, w, a, b, n),
    decreases n,
{
    if a != b {
        let m = choose|m: int|
            open_between(s1, a, m, w) && reach_n(s1, w, m, b, (n - 1) as nat);
        lemma_reach_n_mono(s1, s2, w, m, b, (n - 1) as nat);
        assert(open_between(s2, a, m, w) && reach_n(s2, w, m, b, (n - 1) as nat));
    }
}

/// Opening further walls never destroys reachability.
pub proof fn lemma_reach_mono(s1: Seq<MazeCell>, s2: Seq<MazeCell>, w: int, a: int, b: int)
    requires
        forall|x: int, y: int|
            #[trigger] open_between(s1, x, y, w) ==> open_between(s2, x, y, w),
        reach(s1, w, a, b),
    ensures
        reach(s2, w, a, b),
{
    let n = choose|n: nat| reach_n(s1, w, a, b, n);
    lemma_reach_n_mono(s1, s2, w, a, b, n);
}

/// All in-grid neighbors of cell `i` are visited.
pub open spec fn nbrs_visited(s: Seq<MazeCell>, w: int, h: int, i: int) -> bool {
    &&& (neighbor_in(i, w, h, Dir::North) ==> s[i - w].visited)
    &&& (neighbor_in(i, w, h, Dir::South) ==> s[i + w].visited)
    &&& (neighbor_in(i, w, h, Dir::West) ==> s[i - 1].visited)
    &&& (neighbor_in(i, w, h, Dir::East) ==> s[i + 1].visited)
}

proof fn lemma_visited_walk_x(s: Seq<MazeCell>, w: int, h: int, y: int, x1: int, x2: int)
    requires
        1 <= w,
        1 <= h,
        s.len() == w * h,
        forall|i: int|
            0 <= i < s.len() && s[i].visited ==> #[trigger] nbrs_visited(s, w, h, i),
        0 <= y < h,
        0 <= x1 < w,
        0 <= x2 < w,
        s[y * w + x1].visited,
    ensures
        s[y * w + x2].visited,
    decreases
            (if x1 <= x2 {
                x2 - x1
            } else {
                x1 - x2
            }),
{
    crate::grid::lemma_to_idx_in_range(x1, y, w, h);
    let i = y * w + x1;
    crate::grid::lemma_xy_round_trip(x1, y, w);
    if x2 > x1 {
        assert(nbrs_visited(s, w, h, i));
        assert(neighbor_in(i, w, h, Dir::East));
        assert(s[i + 1].visited);
        lemma_visited_walk_x(s, w, h, y, x1 + 1, x2);
    } else if x2 < x1 {
        assert(nbrs_visited(s, w, h, i));
        assert(neighbor_in(i, w, h, Dir::West));
        assert(s[i - 1].visited);
        lemma_visited_walk_x(s, w, h, y, x1 - 1, x2);
    }
}

proof fn lemma_visited_walk_y(s: Seq<MazeCell>, w: int, h: int, x: int, y1: int, y2: int)
    requires
        1 <= w,
        1 <= h,
        s.len() == w * h,
        forall|i: int|
            0 <= i < s.len() && s[i].visited ==> #[trigger] nbrs_visited(s, w, h, i),
        0 <= x < w,
        0 <= y1 < h,
        0 <= y2 < h,
        s[y1 * w + x].visited,
    ensures
        s[y2 * w + x].visited,
    decreases
            (if y1 <= y2 {
                y2 - y1
            } else {
                y1 - y2
            }),
{
    crate::grid::lemma_to_idx_in_range(x, y1, w, h);
    let i = y1 * w + x;
    crate::grid::lemma_xy_round_trip(x, y1, w);
    if y2 > y1 {
        assert(nbrs_visited(s, w, h, i));
        assert(neighbor_in(i, w, h, Dir::South));
        assert(s[i + w].visited);
        assert(i + w == (y1 + 1) * w + x) by (nonlinear_arith)
            requires
                i == y1 * w + x,
        ;
        lemma_visited_walk_y(s, w, h, x, y1 + 1, y2);
    } else if y2 < y1 {
        assert(nbrs_visited(s, w, h, i));
        assert(neighbor_in(i, w, h, Dir::North));
        assert(s[i - w].visited);
        assert(i - w == (y1 - 1) * w + x) by (nonlinear_arith)
            requires
                i == y1 * w + x,
        ;
        lemma_visited_walk_y(s, w, h, x, y1 - 1, y2);
    }
}

/// A nonempty visited set that is closed under grid adjacency covers
/// the whole grid.
pub proof fn lemma_closed_visited_covers(s: Seq<MazeCell>, w: int, h: int, s0: int)
    requires
        1 <= w,
        1 <= h,
        s.len() == w * h,
        0 <= s0 < s.len(),
        s[s0].visited,
        forall|i: int|
            0 <= i < s.len() && s[i].visited ==> #[trigger] nbrs_visited(s, w, h, i),
    ensures
        forall|i: int| 0 <= i < s.len() ==> s[i].visited,
{
    lemma_xy_bounds(s0, w, h);
    crate::grid::lemma_idx_round_trip(s0, w);
    let x0 = x_of(s0, w);
    let y0 = y_of(s0, w);
    assert forall|i: int| 0 <= i < s.len() implies s[i].visited by {
        lemma_xy_bounds(i, w, h);
        crate::grid::lemma_idx_round_trip(i, w);
        let x = x_of(i, w);
        let y = y_of(i, w);
        lemma_visited_walk_x(s, w, h, y0, x0, x);
        lemma_visited_walk_y(s, w, h, x, y0, y);
    }
}

/// The cell sequence with cell `i` marked visited.
pub open spec fn mark_visited(s: Seq<MazeCell>, i: int) -> Seq<MazeCell> {
    s.update(i, MazeCell { visited: true, ..s[i] })
}

/// In a grid where nothing is visited, the unvisited count is full.
pub proof fn lemma_unvisited_all(s: Seq<MazeCell>, n: int)
    requires
        0 <= n <= s.len(),
        forall|i: int| 0 <= i < s.len() ==> !(#[trigger] s[i]).visited,
    ensures
        unvisited_upto(s, n) == n,
    decreases n,
{
    if n > 0 {
        lemma_unvisited_all(s, n - 1);
    }
}

/// In a grid where everything is visited, the unvisited count is zero.
pub proof fn lemma_unvisited_none(s: Seq<MazeCell>, n: int)
    requires
        0 <= n <= s.len(),
        forall|i: int| 0 <= i < s.len() ==> (#[trigger] s[i]).visited,
    ensures
        unvisited_upto(s, n) == 0,
    decreases n,
{
    if n > 0 {
        lemma_unvisited_none(s, n - 1);
    }
}

/// A fully walled grid has no open passages.
pub proof fn lemma_no_passages(s: Seq<MazeCell>, w: int, h: int, n: int)
    requires
        0 <= n <= s.len(),
        forall|i: int| 0 <= i < s.len() ==> (#[trigger] s[i]).all_walls(true),
    ensures
        passages_upto(s, w, h, n) == 0,
    decreases n,
{
    if n > 0 {
        lemma_no_passages(s, w, h, n - 1);
    }
}

/// A chain of at most `n` open passages from `a` to `b` that never
/// crosses the wall slot between `xa` and `xb`, in either direction.
pub open spec fn reach_avoid_n(
    s: Seq<MazeCell>,
    w: int,
    a: int,
    b: int,
    xa: int,
    xb: int,
    n: nat,
) -> bool
    decreases n,
{
    a == b || (n > 0 && exists|m: int|
        {
            &&& #[trigger] open_between(s, a, m, w)
            &&& !((a == xa && m == xb) || (a == xb && m == xa))
            &&& reach_avoid_n(s, w, m, b, xa, xb, (n - 1) as nat)
        })
}

/// `b` is reachable from `a` without using the passage between `xa`
/// and `xb`.
pub open spec fn reach_avoiding(s: Seq<MazeCell>, w: int, a: int, b: int, xa: int, xb: int) -> bool {
    exists|n: nat| reach_avoid_n(s, w, a, b, xa, xb, n)
}

/// Every open passage is a bridge: no other route joins its two
/// sides. Of an undirected graph this says exactly that it has no
/// cycle.
pub open spec fn acyclic(s: Seq<MazeCell>, w: int) -> bool {
    forall|p: int, q: int|
        #[trigger] open_between(s, p, q, w) ==> !reach_avoiding(s, w, p, q, p, q)
}

proof fn lemma_reach_avoid_step_front(
    s: Seq<MazeCell>,
    w: int,
    a: int,
    m: int,
    b: int,
    xa: int,
    xb: int,
)
    requires
        open_between(s, a, m, w),
        !((a == xa && m == xb) || (a == xb && m == xa)),
        reach_avoiding(s, w, m, b, xa, xb),
    ensures
        reach_avoiding(s, w, a, b, xa, xb),
{
    let n = choose|n: nat| reach_avoid_n(s, w, m, b, xa, xb, n);
    assert(reach_avoid_n(s, w, a, b, xa, xb, n + 1));
}

/// No walk that avoids the lone passage of a one-passage cell can
/// end at that cell from elsewhere.
proof fn lemma_no_sneak(
    s2: Seq<MazeCell>,
    w: int,
    cur: int,
    chosen: int,
    a: int,
    n: nat,
)
    requires
        forall|m: int| #[trigger] open_between(s2, m, chosen, w) ==> m == cur,
        a != chosen,
    ensures
        !reach_avoid_n(s2, w, a, chosen, cur, chosen, n),
    decreases n,
{
    if reach_avoid_n(s2, w, a, chosen, cur, chosen, n) {
        let m = choose|m: int|
            {
                &&& #[trigger] open_between(s2, a, m, w)
                &&& !((a == cur && m == chosen) || (a == chosen && m == cur))
                &&& reach_avoid_n(s2, w, m, chosen, cur, chosen, (n - 1) as nat)
            };
        if m == chosen {
            assert(a == cur);
        } else {
            lemma_no_sneak(s2, w, cur, chosen, m, (n - 1) as nat);
        }
    }
}

/// Rerouting around a one-passage cell: a walk in the carved grid
/// between two cells other than the fresh one, avoiding an old
/// passage, can be replayed in the grid before the carve.
proof fn lemma_excise(
    s0: Seq<MazeCell>,
    s2: Seq<MazeCell>,
    w: int,
    cur: int,
    chosen: int,
    a: int,
    b: int,
    xa: int,
    xb: int,
    n: nat,
)
    requires
        forall|x: int, y: int|
            #[trigger] open_between(s2, x, y, w) ==> open_between(s0, x, y, w) || (x == cur
                && y == chosen) || (x == chosen && y == cur),
        forall|m: int| #[trigger] open_between(s2, chosen, m, w) ==> m == cur,
        forall|m: int| #[trigger] open_between(s2, m, chosen, w) ==> m == cur,
        a != chosen,
        b != chosen,
        !((xa == cur && xb == chosen) || (xa == chosen && xb == cur)),
        reach_avoid_n(s2, w, a, b, xa, xb, n),
    ensures
        reach_avoiding(s0, w, a, b, xa, xb),
    decreases n,
{
    if a == b {
        assert(reach_avoid_n(s0, w, a, b, xa, xb, 0));
    } else {
        let m = choose|m: int|
            {
                &&& #[trigger] open_between(s2, a, m, w)
                &&& !((a == xa && m == xb) || (a == xb && m == xa))
                &&& reach_avoid_n(s2, w, m, b, xa, xb, (n - 1) as nat)
            };
        if m == chosen {
            // Only the fresh cell's lone passage leads in and out:
            // the walk went a = cur -> chosen -> cur; drop the detour.
            assert(a == cur);
            assert(reach_avoid_n(s2, w, chosen, b, xa, xb, (n - 1) as nat));
            let m2 = choose|m2: int|
                {
                    &&& #[trigger] open_between(s2, chosen, m2, w)
                    &&& !((chosen == xa && m2 == xb) || (chosen == xb && m2 == xa))
                    &&& reach_avoid_n(s2, w, m2, b, xa, xb, (n - 2) as nat)
                };
            assert(m2 == cur);
            lemma_excise(s0, s2, w, cur, chosen, cur, b, xa, xb, (n - 2) as nat);
        } else {
            assert(open_between(s0, a, m, w));
            lemma_excise(s0, s2, w, cur, chosen, m, b, xa, xb, (n - 1) as nat);
            lemma_reach_avoid_step_front(s0, w, a, m, b, xa, xb);
        }
    }
}

/// Carving one wall pair into a cell that still has all four walls
/// keeps every open passage a bridge: the fresh passage is the lone
/// way in and out of the fresh cell, and rerouting any older pair
/// through it is impossible.
pub proof fn lemma_carve_acyclic(s0: Seq<MazeCell>, w: int, h: int, cur: int, chosen: int)
    requires
        1 <= w,
        1 <= h,
        s0.len() == w * h,
        crate::walls::grid_sym(s0, w, h),
        0 <= cur < s0.len(),
        0 <= chosen < s0.len(),
        adjacent(cur, chosen, w),
        s0[chosen].all_walls(true),
        acyclic(s0, w),
    ensures
        acyclic(mark_visited(spec_link(s0, cur, chosen, w, false), chosen), w),
{
    lemma_adjacent_sym(cur, chosen, w);
    lemma_link_frame(s0, cur, chosen, w, false);
    crate::walls::lemma_link_preserves_sym(s0, cur, chosen, w, h, false);
    let s1 = spec_link(s0, cur, chosen, w, false);
    let s2 = mark_visited(s1, chosen);
    crate::walls::lemma_sym_same_walls(s1, s2, w, h);
    let d = dir_of(cur, chosen, w);

    // The fresh cell's only open passage leads to the carved-from
    // cell, in both orientations.
    assert forall|m: int| #[trigger] open_between(s2, chosen, m, w) implies m == cur by {
        assert(dir_of(chosen, m, w) == d.opposite());
        crate::grid::lemma_dir_of_unique(chosen, m, cur, w);
    }
    assert forall|m: int| #[trigger] open_between(s2, m, chosen, w) implies m == cur by {
        crate::walls::lemma_sym_pair(s2, m, chosen, w, h);
        lemma_adjacent_sym(m, chosen, w);
        assert(open_between(s2, chosen, m, w));
    }

    // Every passage of the carved grid is an old one or the fresh one.
    assert forall|x: int, y: int|
        #[trigger] open_between(s2, x, y, w) implies open_between(s0, x, y, w) || (x == cur
        && y == chosen) || (x == chosen && y == cur) by {
        if x == cur {
            if dir_of(x, y, w) == d {
                crate::grid::lemma_dir_of_unique(cur, y, chosen, w);
            }
        } else if x == chosen {
            assert(dir_of(chosen, y, w) == d.opposite());
            crate::grid::lemma_dir_of_unique(chosen, y, cur, w);
        }
    }

    assert forall|p: int, q: int|
        #[trigger] open_between(s2, p, q, w) implies !reach_avoiding(s2, w, p, q, p, q) by {
        if p == chosen {
            assert(q == cur);
            if reach_avoiding(s2, w, p, q, p, q) {
                let n = choose|n: nat| reach_avoid_n(s2, w, chosen, cur, chosen, cur, n);
                let m = choose|m: int|
                    {
                        &&& #[trigger] open_between(s2, chosen, m, w)
                        &&& !((chosen == chosen && m == cur) || (chosen == cur && m
                            == chosen))
                        &&& reach_avoid_n(s2, w, m, cur, chosen, cur, (n - 1) as nat)
                    };
                assert(m == cur);
                assert(false);
            }
        } else if q == chosen {
            assert(p == cur);
            if reach_avoiding(s2, w, p, q, p, q) {
                let n = choose|n: nat| reach_avoid_n(s2, w, cur, chosen, cur, chosen, n);
                lemma_no_sneak(s2, w, cur, chosen, cur, n);
            }
        } else {
            assert(open_between(s0, p, q, w));
            if reach_avoiding(s2, w, p, q, p, q) {
                let n = choose|n: nat| reach_avoid_n(s2, w, p, q, p, q, n);
                lemma_excise(s0, s2, w, cur, chosen, p, q, p, q, n);
            }
        }
    }
}

/// Under wall symmetry, reachability runs both ways.
pub proof fn lemma_reach_sym(s: Seq<MazeCell>, w: int, h: int, a: int, b: int)
    requires
        1 <= w,
        1 <= h,
        s.len() == w * h,
        crate::walls::grid_sym(s, w, h),
        reach(s, w, a, b),
    ensures
        reach(s, w, b, a),
{
    let n = choose|n: nat| reach_n(s, w, a, b, n);
    lemma_reach_n_sym(s, w, h, a, b, n);
}

proof fn lemma_reach_n_sym(s: Seq<MazeCell>, w: int, h: int, a: int, b: int, n: nat)
    requires
        1 <= w,
        1 <= h,
        s.len() == w * h,
        crate::walls::grid_sym(s, w, h),
        reach_n(s, w, a, b, n),
    ensures
        reach(s, w, b, a),
    decreases n,
{
    if a == b {
        lemma_reach_refl(s, w, a);
    } else {
        let m = choose|m: int|
            open_between(s, a, m, w) && reach_n(s, w, m, b, (n - 1) as nat);
        lemma_reach_n_sym(s, w, h, m, b, (n - 1) as nat);
        crate::walls::lemma_adjacent_sym(a, m, w);
        crate::walls::lemma_sym_pair(s, a, m, w, h);
        lemma_reach_extend(s, w, b, m, a);
    }
}

/// Reachability chains.
pub proof fn lemma_reach_trans(s: Seq<MazeCell>, w: int, a: int, b: int, c: int)
    requires
        reach(s, w, a, b),
        reach(s, w, b, c),
    ensures
        reach(s, w, a, c),
{
    let n = choose|n: nat| reach_n(s, w, a, b, n);
    lemma_reach_n_trans(s, w, a, b, c, n);
}

proof fn lemma_reach_n_trans(s: Seq<MazeCell>, w: int, a: int, b: int, c: int, n: nat)
    requires
        reach_n(s, w, a, b, n),
        reach(s, w, b, c),
    ensures
        reach(s, w, a, c),
    decreases n,
{
    if a != b {
        let m = choose|m: int|
            open_between(s, a, m, w) && reach_n(s, w, m, b, (n - 1) as nat);
        lemma_reach_n_trans(s, w, m, b, c, (n - 1) as nat);
        lemma_reach_step_front(s, w, a, m, c);
    }
}

/// Every wall on the outer boundary of the grid is present.
pub open spec fn boundary_closed(s: Seq<MazeCell>, w: int, h: int) -> bool {
    forall|i: int|
        0 <= i < s.len() ==> {
            &&& (!neighbor_in(i, w, h, Dir::North) ==> (#[trigger] s[i]).wall_north)
            &&& (!neighbor_in(i, w, h, Dir::South) ==> s[i].wall_south)
            &&& (!neighbor_in(i, w, h, Dir::West) ==> s[i].wall_west)
            &&& (!neighbor_in(i, w, h, Dir::East) ==> s[i].wall_east)
        }
}

} // verus!
