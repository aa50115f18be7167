//! Paired wall mutation: the only way walls change, so that the two
//! flags a wall is stored under always agree.

use crate::grid::{adjacent, dir_of, x_of, y_of, to_x_y, Dir, Maze, MazeCell, MazeError};
use vstd::arithmetic::div_mod::{
    lemma_fundamental_div_mod, lemma_mod_division_less_than_divisor,
};
use vstd::prelude::*;

verus! {

/// Wall symmetry: for any two adjacent cells, the flag each holds
/// toward the other is the same. Boundary walls are unconstrained.
pub open spec fn grid_sym(s: Seq<MazeCell>, w: int, h: int) -> bool {
    &&& forall|i: int|
        0 <= i < s.len() && #[trigger] x_of(i, w) < w - 1 ==> s[i].wall_east == s[i
            + 1].wall_west
    &&& forall|i: int|
        0 <= i < s.len() && #[trigger] y_of(i, w) < h - 1 ==> s[i].wall_south == s[i
            + w].wall_north
}

impl Maze {
    /// Wall symmetry over this grid's cells.
    pub open spec fn sym(self) -> bool {
        grid_sym(self.cells@, self.width as int, self.height as int)
    }
}

/// The cell sequence after the wall pair between adjacent cells `a`
/// and `b` is set to `present` on both sides.
pub open spec fn spec_link(s: Seq<MazeCell>, a: int, b: int, w: int, present: bool) -> Seq<
    MazeCell,
> {
    s.update(a, s[a].with_wall(dir_of(a, b, w), present)).update(
        b,
        s[b].with_wall(dir_of(b, a, w), present),
    )
}

/// Adjacency is symmetric, never reflexive, and the two viewing
/// directions of one wall are opposite.
pub proof fn lemma_adjacent_sym(a: int, b: int, w: int)
    requires
        1 <= w,
        adjacent(a, b, w),
    ensures
        adjacent(b, a, w),
        a != b,
        dir_of(b, a, w) == dir_of(a, b, w).opposite(),
{
    if b == a + w {
    } else if b == a - w {
    } else {
        if w == 1 {
            lemma_fundamental_div_mod(a, 1);
            lemma_mod_division_less_than_divisor(a, 1);
            lemma_fundamental_div_mod(b, 1);
            lemma_mod_division_less_than_divisor(b, 1);
            assert(y_of(a, 1) == a && y_of(b, 1) == b);
            assert(false);
        }
    }
}

/// Pair-updating a wall keeps wall symmetry.
pub proof fn lemma_link_preserves_sym(
    s: Seq<MazeCell>,
    a: int,
    b: int,
    w: int,
    h: int,
    present: bool,
)
    requires
        1 <= w,
        1 <= h,
        s.len() == w * h,
        0 <= a < s.len(),
        0 <= b < s.len(),
        adjacent(a, b, w),
        grid_sym(s, w, h),
    ensures
        grid_sym(spec_link(s, a, b, w, present), w, h),
{
    lemma_adjacent_sym(a, b, w);
    let s2 = spec_link(s, a, b, w, present);
    let d = dir_of(a, b, w);
    assert(s2[a] == s[a].with_wall(d, present));
    assert(s2[b] == s[b].with_wall(d.opposite(), present));
    assert forall|i: int|
        0 <= i < s2.len() && #[trigger] x_of(i, w) < w - 1 implies s2[i].wall_east == s2[i
        + 1].wall_west by {
        crate::grid::lemma_neighbor_valid(i, w, h, Dir::East);
        assert(0 <= i + 1 < s.len());
        assert(s[i].wall_east == s[i + 1].wall_west);
        match d {
            Dir::East => {
                assert(b == a + 1);
            },
            Dir::West => {
                assert(b == a - 1);
            },
            Dir::South => {
                assert(b == a + w);
            },
            Dir::North => {
                assert(b == a - w);
            },
        }
    }
    assert forall|i: int|
        0 <= i < s2.len() && #[trigger] y_of(i, w) < h - 1 implies s2[i].wall_south == s2[i
        + w].wall_north by {
        crate::grid::lemma_neighbor_valid(i, w, h, Dir::South);
        assert(0 <= i + w < s.len());
        assert(s[i].wall_south == s[i + w].wall_north);
        match d {
            Dir::East => {
                assert(b == a + 1);
            },
            Dir::West => {
                assert(b == a - 1);
            },
            Dir::South => {
                assert(b == a + w);
            },
            Dir::North => {
                assert(b == a - w);
            },
        }
    }
}

/// Under wall symmetry, the two flags an adjacent pair holds toward
/// each other agree.
pub proof fn lemma_sym_pair(s: Seq<MazeCell>, a: int, b: int, w: int, h: int)
    requires
        1 <= w,
        1 <= h,
        s.len() == w * h,
        0 <= a < s.len(),
        0 <= b < s.len(),
        adjacent(a, b, w),
        grid_sym(s, w, h),
    ensures
        s[a].wall(dir_of(a, b, w)) == s[b].wall(dir_of(b, a, w)),
{
    lemma_adjacent_sym(a, b, w);
    crate::grid::lemma_xy_bounds(a, w, h);
    crate::grid::lemma_xy_bounds(b, w, h);
    match dir_of(a, b, w) {
        Dir::East => {
            crate::grid::lemma_horizontal_pair(a, w);
        },
        Dir::West => {
            crate::grid::lemma_horizontal_pair(b, w);
        },
        Dir::South => {
            crate::grid::lemma_south_neighbor(a, w);
        },
        Dir::North => {
            crate::grid::lemma_south_neighbor(b, w);
        },
    }
}

/// Two cell sequences with identical wall flags everywhere are
/// equally symmetric.
pub proof fn lemma_sym_same_walls(s1: Seq<MazeCell>, s2: Seq<MazeCell>, w: int, h: int)
    requires
        1 <= w,
        1 <= h,
        s1.len() == w * h,
        s2.len() == s1.len(),
        forall|i: int|
            0 <= i < s1.len() ==> {
                &&& (#[trigger] s2[i]).wall_north == s1[i].wall_north
                &&& s2[i].wall_south == s1[i].wall_south
                &&& s2[i].wall_east == s1[i].wall_east
                &&& s2[i].wall_west == s1[i].wall_west
            },
        grid_sym(s1, w, h),
    ensures
        grid_sym(s2, w, h),
{
    assert forall|i: int|
        0 <= i < s2.len() && #[trigger] x_of(i, w) < w - 1 implies s2[i].wall_east == s2[i
        + 1].wall_west by {
        crate::grid::lemma_neighbor_valid(i, w, h, Dir::East);
        assert(s1[i].wall_east == s1[i + 1].wall_west);
    }
    assert forall|i: int|
        0 <= i < s2.len() && #[trigger] y_of(i, w) < h - 1 implies s2[i].wall_south == s2[i
        + w].wall_north by {
        crate::grid::lemma_neighbor_valid(i, w, h, Dir::South);
        assert(s1[i].wall_south == s1[i + w].wall_north);
    }
}

/// Pair-updating a wall changes nothing but the two facing flags:
/// lengths, indices and visited markers stay.
pub proof fn lemma_link_frame(s: Seq<MazeCell>, a: int, b: int, w: int, present: bool)
    requires
        1 <= w,
        0 <= a < s.len(),
        0 <= b < s.len(),
        adjacent(a, b, w),
    ensures
        spec_link(s, a, b, w, present).len() == s.len(),
        forall|i: int|
            0 <= i < s.len() && i != a && i != b ==> spec_link(s, a, b, w, present)[i] == s[i],
        forall|i: int|
            0 <= i < s.len() ==> (#[trigger] spec_link(s, a, b, w, present)[i]).idx == s[i].idx
                && spec_link(s, a, b, w, present)[i].visited == s[i].visited,
        spec_link(s, a, b, w, present)[a] == s[a].with_wall(dir_of(a, b, w), present),
        spec_link(s, a, b, w, present)[b] == s[b].with_wall(dir_of(b, a, w), present),
{
    lemma_adjacent_sym(a, b, w);
}

/// Setting then clearing (or clearing then setting) the same wall
/// pair restores the original cells, provided the pair starts in the
/// state the first call moves it away from.
pub proof fn lemma_wall_round_trip(s: Seq<MazeCell>, a: int, b: int, w: int, first: bool)
    requires
        1 <= w,
        0 <= a < s.len(),
        0 <= b < s.len(),
        adjacent(a, b, w),
        s[a].wall(dir_of(a, b, w)) == !first,
        s[b].wall(dir_of(b, a, w)) == !first,
    ensures
        spec_link(spec_link(s, a, b, w, first), a, b, w, !first) == s,
{
    lemma_adjacent_sym(a, b, w);
    let s1 = spec_link(s, a, b, w, first);
    let s2 = spec_link(s1, a, b, w, !first);
    assert forall|i: int| 0 <= i < s.len() implies s2[i] == s[i] by {
        if i == a {
            assert(s2[a] == s1[a].with_wall(dir_of(a, b, w), !first));
        } else if i == b {
            assert(s2[b] == s1[b].with_wall(dir_of(b, a, w), !first));
        }
    }
    assert(s2 =~= s);
}

/// Sets every wall flag of every cell to `present`, leaving indices
/// and visited markers alone; the result is trivially symmetric.
pub(crate) fn set_all_walls(maze: &mut Maze, present: bool)
    requires
        old(maze).wf(),
    ensures
        final(maze).wf(),
        final(maze).width == old(maze).width,
        final(maze).height == old(maze).height,
        final(maze).cells@.len() == old(maze).cells@.len(),
        forall|i: int|
            0 <= i < final(maze).cells@.len() ==> {
                &&& (#[trigger] final(maze).cells@[i]).all_walls(present)
                &&& final(maze).cells@[i].visited == old(maze).cells@[i].visited
                &&& final(maze).cells@[i].idx == old(maze).cells@[i].idx
            },
        (*final(maze)).sym(),
{
    let n = maze.cells.len();
    let mut i: usize = 0;
    while i < n
        invariant
            n == maze.cells@.len(),
            i <= n,
            maze.width == old(maze).width,
            maze.height == old(maze).height,
            maze.cells@.len() == old(maze).cells@.len(),
            forall|j: int|
                0 <= j < i as int ==> {
                    &&& (#[trigger] maze.cells@[j]).all_walls(present)
                    &&& maze.cells@[j].visited == old(maze).cells@[j].visited
                    &&& maze.cells@[j].idx == old(maze).cells@[j].idx
                },
            forall|j: int|
                i as int <= j < n as int ==> #[trigger] maze.cells@[j] == old(maze).cells@[j],
        decreases n - i,
    {
        let mut c = maze.cells[i];
        c.wall_north = present;
        c.wall_south = present;
        c.wall_east = present;
        c.wall_west = present;
        maze.cells[i] = c;
        i += 1;
    }
    proof {
        let s = maze.cells@;
        let w = maze.width as int;
        let h = maze.height as int;
        assert forall|k: int|
            0 <= k < s.len() && #[trigger] x_of(k, w) < w - 1 implies s[k].wall_east == s[k
            + 1].wall_west by {
            crate::grid::lemma_neighbor_valid(k, w, h, Dir::East);
        }
        assert forall|k: int|
            0 <= k < s.len() && #[trigger] y_of(k, w) < h - 1 implies s[k].wall_south == s[k
            + w].wall_north by {
            crate::grid::lemma_neighbor_valid(k, w, h, Dir::South);
        }
    }
}

/// Sets the wall pair between two adjacent cells to `present`,
/// touching nothing else; non-adjacent cells are rejected unchanged.
fn set_wall_pair(
    cell_idx: usize,
    nbor_cell_idx: usize,
    width: usize,
    cells: &mut Vec<MazeCell>,
    present: bool,
) -> (r: Result<(), MazeError>)
    requires
        1 <= width,
        cell_idx < old(cells).len(),
        nbor_cell_idx < old(cells).len(),
    ensures
        r is Ok <==> adjacent(cell_idx as int, nbor_cell_idx as int, width as int),
        r is Ok ==> final(cells)@ == spec_link(
            old(cells)@,
            cell_idx as int,
            nbor_cell_idx as int,
            width as int,
            present,
        ),
        r is Err ==> final(cells)@ == old(cells)@,
        r matches Err(e) ==> e == MazeError::NotAdjacent,
{
    let a = cell_idx;
    let b = nbor_cell_idx;
    let ghost ia = a as int;
    let ghost ib = b as int;
    let ghost iw = width as int;
    let (_x, y) = to_x_y(a, width);
    let (_nx, ny) = to_x_y(b, width);

    let dir: Dir;
    if b >= width && b - width == a {
        dir = Dir::South;
    } else if a >= width && a - width == b {
        dir = Dir::North;
    } else if b == a + 1 && ny == y {
        dir = Dir::East;
    } else if a >= 1 && a - 1 == b && ny == y {
        dir = Dir::West;
    } else {
        return Err(MazeError::NotAdjacent);
    }
    proof {
        assert(adjacent(ia, ib, iw));
        assert(dir == dir_of(ia, ib, iw));
        lemma_adjacent_sym(ia, ib, iw);
    }

    let mut ca = cells[a];
    match dir {
        Dir::East => ca.wall_east = present,
        Dir::North => ca.wall_north = present,
        Dir::West => ca.wall_west = present,
        Dir::South => ca.wall_south = present,
    }
    cells[a] = ca;

    let mut cb = cells[b];
    match dir {
        Dir::East => cb.wall_west = present,
        Dir::North => cb.wall_south = present,
        Dir::West => cb.wall_east = present,
        Dir::South => cb.wall_north = present,
    }
    cells[b] = cb;

    Ok(())
}

/// Inserts the wall pair between two adjacent cells; the flags facing
/// each other are both set, everything else is untouched.
pub fn add_wall(
    cell_idx: usize,
    nbor_cell_idx: usize,
    width: usize,
    cells: &mut Vec<MazeCell>,
) -> (r: Result<(), MazeError>)
    requires
        1 <= width,
        cell_idx < old(cells).len(),
        nbor_cell_idx < old(cells).len(),
    ensures
        r is Ok <==> adjacent(cell_idx as int, nbor_cell_idx as int, width as int),
        r is Ok ==> final(cells)@ == spec_link(
            old(cells)@,
            cell_idx as int,
            nbor_cell_idx as int,
            width as int,
            true,
        ),
        r is Err ==> final(cells)@ == old(cells)@,
        r matches Err(e) ==> e == MazeError::NotAdjacent,
{
    set_wall_pair(cell_idx, nbor_cell_idx, width, cells, true)
}

/// Carves the wall pair between two adjacent cells; the flags facing
/// each other are both cleared, everything else is untouched.
pub fn remove_wall(
    cell_idx: usize,
    nbor_cell_idx: usize,
    width: usize,
    cells: &mut Vec<MazeCell>,
) -> (r: Result<(), MazeError>)
    requires
        1 <= width,
        cell_idx < old(cells).len(),
        nbor_cell_idx < old(cells).len(),
    ensures
        r is Ok <==> adjacent(cell_idx as int, nbor_cell_idx as int, width as int),
        r is Ok ==> final(cells)@ == spec_link(
            old(cells)@,
            cell_idx as int,
            nbor_cell_idx as int,
            width as int,
            false,
        ),
        r is Err ==> final(cells)@ == old(cells)@,
        r matches Err(e) ==> e == MazeError::NotAdjacent,
{
    set_wall_pair(cell_idx, nbor_cell_idx, width, cells, false)
}

} // verus!
