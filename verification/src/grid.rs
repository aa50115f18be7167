//! The maze's data model: cells with wall flags, the grid, and the
//! row-major coordinate arithmetic every generator relies on.

use vstd::arithmetic::div_mod::{
    lemma_div_pos_is_pos, lemma_fundamental_div_mod, lemma_fundamental_div_mod_converse,
    lemma_mod_division_less_than_divisor,
};
use vstd::prelude::*;

verus! {

/// A cardinal direction; walls and carving moves are named by these.
#[derive(PartialEq, Eq, Structural, Debug, Clone, Copy)]
pub enum Dir {
    East,
    North,
    West,
    South,
}

impl Dir {
    /// The direction pointing back the other way.
    pub open spec fn opposite(self) -> Dir {
        match self {
            Dir::East => Dir::West,
            Dir::North => Dir::South,
            Dir::West => Dir::East,
            Dir::South => Dir::North,
        }
    }

    /// True for the north/south axis, false for the east/west axis.
    pub open spec fn vertical(self) -> bool {
        self == Dir::North || self == Dir::South
    }

    /// Executable axis test.
    pub fn on_vertical_axis(self) -> (b: bool)
        ensures
            b == self.vertical(),
    {
        match self {
            Dir::North => true,
            Dir::South => true,
            Dir::East => false,
            Dir::West => false,
        }
    }
}

/// The ways construction or a wall update can be rejected.
#[derive(PartialEq, Eq, Structural, Debug, Clone, Copy)]
pub enum MazeError {
    /// A grid dimension was zero.
    ZeroDimension,
    /// The two carving directions of the biased generator lie on one axis.
    SameAxis,
    /// A wall update was requested for two cells that are not grid-adjacent.
    NotAdjacent,
}

/// One grid position: its row-major index, four wall flags
/// (true = wall present) and a traversal marker.
#[derive(PartialEq, Eq, Structural, Debug, Clone, Copy)]
pub struct MazeCell {
    pub idx: usize,
    pub wall_north: bool,
    pub wall_south: bool,
    pub wall_east: bool,
    pub wall_west: bool,
    pub visited: bool,
}

impl MazeCell {
    /// The wall flag facing direction `d`.
    pub open spec fn wall(self, d: Dir) -> bool {
        match d {
            Dir::East => self.wall_east,
            Dir::North => self.wall_north,
            Dir::West => self.wall_west,
            Dir::South => self.wall_south,
        }
    }

    /// This cell with the wall facing `d` set to `v` and all else unchanged.
    pub open spec fn with_wall(self, d: Dir, v: bool) -> MazeCell {
        match d {
            Dir::East => MazeCell { wall_east: v, ..self },
            Dir::North => MazeCell { wall_north: v, ..self },
            Dir::West => MazeCell { wall_west: v, ..self },
            Dir::South => MazeCell { wall_south: v, ..self },
        }
    }

    /// All four wall flags equal `v`.
    pub open spec fn all_walls(self, v: bool) -> bool {
        self.wall_north == v && self.wall_south == v && self.wall_east == v
            && self.wall_west == v
    }
}

/// The cell every fresh grid is filled with.
pub open spec fn init_cell(i: int, walls_present: bool) -> MazeCell {
    MazeCell {
        idx: i as usize,
        wall_north: walls_present,
        wall_south: walls_present,
        wall_east: walls_present,
        wall_west: walls_present,
        visited: false,
    }
}

/// Column of row-major index `i` in a grid `w` cells wide.
pub open spec fn x_of(i: int, w: int) -> int {
    i % w
}

/// Row of row-major index `i` in a grid `w` cells wide.
pub open spec fn y_of(i: int, w: int) -> int {
    i / w
}

/// Whether the cardinal neighbor of cell `i` toward `d` stays on the grid.
pub open spec fn neighbor_in(i: int, w: int, h: int, d: Dir) -> bool {
    match d {
        Dir::North => y_of(i, w) > 0,
        Dir::South => y_of(i, w) < h - 1,
        Dir::West => x_of(i, w) > 0,
        Dir::East => x_of(i, w) < w - 1,
    }
}

/// Index of the cardinal neighbor of cell `i` toward `d`.
pub open spec fn neighbor_idx(i: int, w: int, d: Dir) -> int {
    match d {
        Dir::North => i - w,
        Dir::South => i + w,
        Dir::West => i - 1,
        Dir::East => i + 1,
    }
}

/// The neighbor toward `d`, or None at the grid boundary.
pub open spec fn neighbor_opt(i: int, w: int, h: int, d: Dir) -> Option<usize> {
    if neighbor_in(i, w, h, d) {
        Some(neighbor_idx(i, w, d) as usize)
    } else {
        None
    }
}

/// Two cells differ by exactly one unit along exactly one axis.
pub open spec fn adjacent(a: int, b: int, w: int) -> bool {
    ||| b == a + w
    ||| b == a - w
    ||| (b == a + 1 && y_of(b, w) == y_of(a, w))
    ||| (b == a - 1 && y_of(b, w) == y_of(a, w))
}

/// Direction from cell `a` toward an adjacent cell `b`.
pub open spec fn dir_of(a: int, b: int, w: int) -> Dir {
    if b == a + w {
        Dir::South
    } else if b == a - w {
        Dir::North
    } else if b == a + 1 {
        Dir::East
    } else {
        Dir::West
    }
}

/// The grid: dimensions and the row-major cell sequence it owns.
#[derive(Debug)]
pub struct Maze {
    pub width: usize,
    pub height: usize,
    pub cells: Vec<MazeCell>,
}

impl Maze {
    /// Number of cells.
    pub open spec fn area(self) -> int {
        self.width * self.height
    }

    /// Structural well-formedness: positive dimensions, a cell per
    /// position, and every cell knowing its own index.
    pub open spec fn wf(self) -> bool {
        &&& 1 <= self.width
        &&& 1 <= self.height
        &&& self.cells@.len() == self.area()
        &&& forall|i: int|
            0 <= i < self.cells@.len() ==> (#[trigger] self.cells@[i]).idx == i
    }

    /// Constructs a grid with every wall flag equal to `walls_present`
    /// and no cell visited; zero dimensions are rejected.
    pub fn new(width: usize, height: usize, walls_present: bool) -> (r: Result<
        Maze,
        MazeError,
    >)
        requires
            width * height <= usize::MAX,
        ensures
            r is Ok <==> (1 <= width && 1 <= height),
            r matches Err(e) ==> e == MazeError::ZeroDimension,
            r matches Ok(m) ==> {
                &&& m.wf()
                &&& m.width == width
                &&& m.height == height
                &&& forall|i: int|
                    0 <= i < m.cells@.len() ==> #[trigger] m.cells@[i] == init_cell(
                        i,
                        walls_present,
                    )
            },
    {
        if width == 0 || height == 0 {
            return Err(MazeError::ZeroDimension);
        }
        let n = width * height;
        let mut cells: Vec<MazeCell> = Vec::with_capacity(n);
        let mut i: usize = 0;
        while i < n
            invariant
                n == width * height,
                i <= n,
                cells@.len() == i,
                forall|j: int|
                    0 <= j < i as int ==> #[trigger] cells@[j] == init_cell(j, walls_present),
            decreases n - i,
        {
            cells.push(
                MazeCell {
                    idx: i,
                    wall_north: walls_present,
                    wall_south: walls_present,
                    wall_east: walls_present,
                    wall_west: walls_present,
                    visited: false,
                },
            );
            i += 1;
        }
        Ok(Maze { width, height, cells })
    }

    /// Constructs a fully walled grid, the starting point of the
    /// carving generators.
    pub fn empty(width: usize, height: usize) -> (r: Result<Maze, MazeError>)
        requires
            width * height <= usize::MAX,
        ensures
            r is Ok <==> (1 <= width && 1 <= height),
            r matches Err(e) ==> e == MazeError::ZeroDimension,
            r matches Ok(m) ==> {
                &&& m.wf()
                &&& m.width == width
                &&& m.height == height
                &&& forall|i: int|
                    0 <= i < m.cells@.len() ==> #[trigger] m.cells@[i] == init_cell(i, true)
            },
    {
        Maze::new(width, height, true)
    }

    /// Reads one wall flag of the cell at `idx`.
    pub fn wall_at(&self, idx: usize, d: Dir) -> (r: bool)
        requires
            self.wf(),
            idx < self.area(),
        ensures
            r == self.cells@[idx as int].wall(d),
    {
        match d {
            Dir::East => self.cells[idx].wall_east,
            Dir::North => self.cells[idx].wall_north,
            Dir::West => self.cells[idx].wall_west,
            Dir::South => self.cells[idx].wall_south,
        }
    }

    /// Reads the traversal marker of the cell at `idx`.
    pub fn visited_at(&self, idx: usize) -> (r: bool)
        requires
            self.wf(),
            idx < self.area(),
        ensures
            r == self.cells@[idx as int].visited,
    {
        self.cells[idx].visited
    }
}

/// Splits a row-major index into `(x, y)` coordinates.
pub fn to_x_y(cell_idx: usize, width: usize) -> (r: (usize, usize))
    requires
        1 <= width,
    ensures
        r.0 == x_of(cell_idx as int, width as int),
        r.1 == y_of(cell_idx as int, width as int),
{
    (cell_idx % width, cell_idx / width)
}

/// Joins `(x, y)` coordinates into a row-major index.
pub fn to_idx(x: usize, y: usize, width: usize) -> (r: usize)
    requires
        y * width + x <= usize::MAX,
    ensures
        r == y * width + x,
{
    y * width + x
}

/// Coordinates of a valid index stay within the grid rectangle.
pub proof fn lemma_xy_bounds(i: int, w: int, h: int)
    requires
        1 <= w,
        0 <= i,
        i < w * h,
    ensures
        0 <= x_of(i, w) < w,
        0 <= y_of(i, w) < h,
{
    lemma_mod_division_less_than_divisor(i, w);
    lemma_div_pos_is_pos(i, w);
    lemma_fundamental_div_mod(i, w);
    let q = i / w;
    let r = i % w;
    assert(q < h) by (nonlinear_arith)
        requires
            i == w * q + r,
            0 <= r,
            i < w * h,
            1 <= w,
            0 <= q,
    ;
}

/// A coordinate pair inside the rectangle yields a valid index.
pub proof fn lemma_to_idx_in_range(x: int, y: int, w: int, h: int)
    requires
        0 <= x < w,
        0 <= y < h,
    ensures
        0 <= y * w + x < w * h,
{
    assert(0 <= y * w + x < w * h) by (nonlinear_arith)
        requires
            0 <= x < w,
            0 <= y < h,
    ;
}

/// Rebuilding an index from its own coordinates gives it back.
pub proof fn lemma_idx_round_trip(i: int, w: int)
    requires
        1 <= w,
        0 <= i,
    ensures
        y_of(i, w) * w + x_of(i, w) == i,
{
    lemma_fundamental_div_mod(i, w);
    let q = i / w;
    assert(w * q == q * w) by (nonlinear_arith);
}

/// Taking coordinates of a freshly built index gives the pair back.
pub proof fn lemma_xy_round_trip(x: int, y: int, w: int)
    requires
        0 <= x < w,
        0 <= y,
    ensures
        x_of(y * w + x, w) == x,
        y_of(y * w + x, w) == y,
{
    lemma_fundamental_div_mod_converse(y * w + x, w, y, x);
}

/// Coordinates of the neighbor one step east.
pub proof fn lemma_east_neighbor(i: int, w: int)
    requires
        1 <= w,
        0 <= i,
        x_of(i, w) < w - 1,
    ensures
        x_of(i + 1, w) == x_of(i, w) + 1,
        y_of(i + 1, w) == y_of(i, w),
{
    lemma_mod_division_less_than_divisor(i, w);
    lemma_fundamental_div_mod(i, w);
    lemma_fundamental_div_mod_converse(i + 1, w, i / w, i % w + 1);
}

/// Coordinates of the neighbor one step west.
pub proof fn lemma_west_neighbor(i: int, w: int)
    requires
        1 <= w,
        0 <= i,
        1 <= x_of(i, w),
    ensures
        x_of(i - 1, w) == x_of(i, w) - 1,
        y_of(i - 1, w) == y_of(i, w),
{
    lemma_mod_division_less_than_divisor(i, w);
    lemma_fundamental_div_mod(i, w);
    lemma_fundamental_div_mod_converse(i - 1, w, i / w, i % w - 1);
}

/// Coordinates of the neighbor one step south.
pub proof fn lemma_south_neighbor(i: int, w: int)
    requires
        1 <= w,
        0 <= i,
    ensures
        x_of(i + w, w) == x_of(i, w),
        y_of(i + w, w) == y_of(i, w) + 1,
{
    lemma_mod_division_less_than_divisor(i, w);
    lemma_fundamental_div_mod(i, w);
    let q = i / w;
    let r = i % w;
    assert(i + w == (q + 1) * w + r) by (nonlinear_arith)
        requires
            i == w * q + r,
    ;
    lemma_fundamental_div_mod_converse(i + w, w, q + 1, r);
}

/// Coordinates of the neighbor one step north.
pub proof fn lemma_north_neighbor(i: int, w: int)
    requires
        1 <= w,
        0 <= i,
        1 <= y_of(i, w),
    ensures
        x_of(i - w, w) == x_of(i, w),
        y_of(i - w, w) == y_of(i, w) - 1,
{
    lemma_mod_division_less_than_divisor(i, w);
    lemma_fundamental_div_mod(i, w);
    let q = i / w;
    let r = i % w;
    assert(i - w == (q - 1) * w + r) by (nonlinear_arith)
        requires
            i == w * q + r,
    ;
    lemma_fundamental_div_mod_converse(i - w, w, q - 1, r);
}

/// A cell one to the right on the same row means neither sits in the
/// last column's overflow position: the left one is not in the last
/// column.
pub proof fn lemma_horizontal_pair(a: int, w: int)
    requires
        1 <= w,
        0 <= a,
        y_of(a + 1, w) == y_of(a, w),
    ensures
        x_of(a, w) < w - 1,
        x_of(a + 1, w) == x_of(a, w) + 1,
        y_of(a + 1, w) == y_of(a, w),
{
    lemma_mod_division_less_than_divisor(a, w);
    lemma_fundamental_div_mod(a, w);
    if x_of(a, w) + 1 == w {
        let q = y_of(a, w);
        assert(a + 1 == (q + 1) * w + 0) by (nonlinear_arith)
            requires
                a == w * q + (w - 1),
        ;
        lemma_fundamental_div_mod_converse(a + 1, w, q + 1, 0);
        assert(false);
    } else {
        lemma_east_neighbor(a, w);
    }
}

/// Among the cells adjacent to `a`, the direction determines the
/// neighbor.
pub proof fn lemma_dir_of_unique(a: int, b: int, c: int, w: int)
    requires
        1 <= w,
        adjacent(a, b, w),
        adjacent(a, c, w),
        dir_of(a, b, w) == dir_of(a, c, w),
    ensures
        b == c,
{
    if w == 1 {
        lemma_fundamental_div_mod(a, 1);
        lemma_mod_division_less_than_divisor(a, 1);
        lemma_fundamental_div_mod(b, 1);
        lemma_mod_division_less_than_divisor(b, 1);
        lemma_fundamental_div_mod(c, 1);
        lemma_mod_division_less_than_divisor(c, 1);
        assert(y_of(a, 1) == a && y_of(b, 1) == b && y_of(c, 1) == c);
    }
}

/// An in-grid neighbor is a valid, adjacent index with the expected
/// coordinates.
pub proof fn lemma_neighbor_valid(i: int, w: int, h: int, d: Dir)
    requires
        1 <= w,
        1 <= h,
        0 <= i < w * h,
        neighbor_in(i, w, h, d),
    ensures
        0 <= neighbor_idx(i, w, d) < w * h,
        adjacent(i, neighbor_idx(i, w, d), w),
        x_of(neighbor_idx(i, w, d), w) == x_of(i, w) + match d {
            Dir::East => 1int,
            Dir::West => -1int,
            _ => 0int,
        },
        y_of(neighbor_idx(i, w, d), w) == y_of(i, w) + match d {
            Dir::South => 1int,
            Dir::North => -1int,
            _ => 0int,
        },
        dir_of(i, neighbor_idx(i, w, d), w) == d,
{
    lemma_xy_bounds(i, w, h);
    let n = neighbor_idx(i, w, d);
    match d {
        Dir::East => {
            lemma_east_neighbor(i, w);
            lemma_to_idx_in_range(x_of(n, w), y_of(n, w), w, h);
            lemma_idx_round_trip(n, w);
        },
        Dir::West => {
            lemma_west_neighbor(i, w);
            lemma_fundamental_div_mod(i, w);
            lemma_div_pos_is_pos(i, w);
            assert(w * (i / w) >= 0) by (nonlinear_arith)
                requires
                    1 <= w,
                    0 <= i / w,
            ;
            lemma_to_idx_in_range(x_of(n, w), y_of(n, w), w, h);
            lemma_idx_round_trip(n, w);
        },
        Dir::South => {
            lemma_south_neighbor(i, w);
            lemma_to_idx_in_range(x_of(n, w), y_of(n, w), w, h);
            lemma_idx_round_trip(n, w);
        },
        Dir::North => {
            lemma_north_neighbor(i, w);
            lemma_fundamental_div_mod(i, w);
            assert(w * (i / w) >= w) by (nonlinear_arith)
                requires
                    1 <= w,
                    1 <= i / w,
            ;
            lemma_to_idx_in_range(x_of(n, w), y_of(n, w), w, h);
            lemma_idx_round_trip(n, w);
        },
    }
}

/// Lists the up-to-four cardinal neighbors of a cell in the fixed
/// order north, west, south, east, with None at the boundary.
pub fn get_neighbors(cell_idx: usize, width: usize, height: usize) -> (r: [Option<
    usize,
>; 4])
    requires
        1 <= width,
        1 <= height,
        cell_idx < width * height,
        width * height <= usize::MAX,
    ensures
        r@[0] == neighbor_opt(cell_idx as int, width as int, height as int, Dir::North),
        r@[1] == neighbor_opt(cell_idx as int, width as int, height as int, Dir::West),
        r@[2] == neighbor_opt(cell_idx as int, width as int, height as int, Dir::South),
        r@[3] == neighbor_opt(cell_idx as int, width as int, height as int, Dir::East),
{
    let ghost iw = width as int;
    let ghost ih = height as int;
    let ghost ii = cell_idx as int;
    proof {
        lemma_xy_bounds(ii, iw, ih);
        lemma_idx_round_trip(ii, iw);
    }
    let (x, y) = to_x_y(cell_idx, width);

    let north = if y > 0 {
        proof {
            lemma_neighbor_valid(ii, iw, ih, Dir::North);
            lemma_to_idx_in_range(x as int, y - 1, iw, ih);
            assert((y - 1) * iw + x == ii - iw) by (nonlinear_arith)
                requires
                    y * iw + x == ii,
            ;
        }
        Some(to_idx(x, y - 1, width))
    } else {
        None
    };

    let west = if x > 0 {
        proof {
            lemma_neighbor_valid(ii, iw, ih, Dir::West);
        }
        Some(to_idx(x - 1, y, width))
    } else {
        None
    };

    let south = if y < height - 1 {
        proof {
            lemma_neighbor_valid(ii, iw, ih, Dir::South);
            lemma_to_idx_in_range(x as int, y + 1, iw, ih);
            assert((y + 1) * iw + x == ii + iw) by (nonlinear_arith)
                requires
                    y * iw + x == ii,
            ;
        }
        Some(to_idx(x, y + 1, width))
    } else {
        None
    };

    let east = if x < width - 1 {
        proof {
            lemma_neighbor_valid(ii, iw, ih, Dir::East);
        }
        Some(to_idx(x + 1, y, width))
    } else {
        None
    };

    [north, west, south, east]
}

/// Index of the in-grid neighbor of `i` toward `d`.
pub(crate) fn neighbor_cell(i: usize, d: Dir, width: usize, height: usize) -> (n: usize)
    requires
        1 <= width,
        1 <= height,
        i < width * height,
        width * height <= usize::MAX,
        neighbor_in(i as int, width as int, height as int, d),
    ensures
        n == neighbor_idx(i as int, width as int, d),
        n < width * height,
        adjacent(i as int, n as int, width as int),
        dir_of(i as int, n as int, width as int) == d,
{
    proof {
        lemma_neighbor_valid(i as int, width as int, height as int, d);
    }
    match d {
        Dir::North => i - width,
        Dir::South => i + width,
        Dir::West => i - 1,
        Dir::East => i + 1,
    }
}

} // verus!
