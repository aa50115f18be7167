//! Grid, coordinate and wall-mutation behavior.

use mazegen::{add_wall, get_neighbors, remove_wall, to_idx, to_x_y, Dir, Maze, MazeError};

#[test]
fn empty_grid_fully_walled() {
    let maze = Maze::empty(3, 2).unwrap();
    assert_eq!(maze.width, 3);
    assert_eq!(maze.height, 2);
    assert_eq!(maze.cells.len(), 6);
    for (i, cell) in maze.cells.iter().enumerate() {
        assert_eq!(cell.idx, i);
        assert!(cell.wall_north && cell.wall_south && cell.wall_east && cell.wall_west);
        assert!(!cell.visited);
    }
}

#[test]
fn open_grid_construction() {
    let maze = Maze::new(2, 2, false).unwrap();
    for cell in maze.cells.iter() {
        assert!(!cell.wall_north && !cell.wall_south && !cell.wall_east && !cell.wall_west);
        assert!(!cell.visited);
    }
}

#[test]
fn zero_dimension_rejected() {
    assert_eq!(Maze::empty(0, 5).unwrap_err(), MazeError::ZeroDimension);
    assert_eq!(Maze::empty(5, 0).unwrap_err(), MazeError::ZeroDimension);
    assert_eq!(Maze::new(0, 0, false).unwrap_err(), MazeError::ZeroDimension);
}

#[test]
fn index_round_trip() {
    let (width, height) = (7usize, 5usize);
    for i in 0..width * height {
        let (x, y) = to_x_y(i, width);
        assert!(x < width && y < height);
        assert_eq!(to_idx(x, y, width), i);
    }
    for x in 0..width {
        for y in 0..height {
            let i = to_idx(x, y, width);
            assert_eq!(to_x_y(i, width), (x, y));
        }
    }
}

#[test]
fn neighbors_center_and_corner() {
    // 3x3 grid; order is north, west, south, east.
    let center = to_idx(1, 1, 3);
    assert_eq!(get_neighbors(center, 3, 3), [Some(1), Some(3), Some(7), Some(5)]);
    let corner = to_idx(0, 0, 3);
    assert_eq!(get_neighbors(corner, 3, 3), [None, None, Some(3), Some(1)]);
}

#[test]
fn neighbors_single_column() {
    // 1x3 grid: only vertical neighbors exist.
    assert_eq!(get_neighbors(1, 1, 3), [Some(0), None, Some(2), None]);
    assert_eq!(get_neighbors(0, 1, 3), [None, None, Some(1), None]);
    assert_eq!(get_neighbors(2, 1, 3), [Some(1), None, None, None]);
}

#[test]
fn add_then_remove_restores_open_pair() {
    let mut maze = Maze::new(3, 3, false).unwrap();
    let before = maze.cells.clone();
    add_wall(4, 5, 3, &mut maze.cells).unwrap();
    assert!(maze.cells[4].wall_east && maze.cells[5].wall_west);
    remove_wall(4, 5, 3, &mut maze.cells).unwrap();
    assert_eq!(maze.cells, before);
}

#[test]
fn remove_then_add_restores_walled_pair() {
    let mut maze = Maze::empty(3, 3).unwrap();
    let before = maze.cells.clone();
    remove_wall(4, 7, 3, &mut maze.cells).unwrap();
    assert!(!maze.cells[4].wall_south && !maze.cells[7].wall_north);
    add_wall(4, 7, 3, &mut maze.cells).unwrap();
    assert_eq!(maze.cells, before);
}

#[test]
fn non_adjacent_pairs_rejected() {
    let mut maze = Maze::empty(3, 3).unwrap();
    let before = maze.cells.clone();
    // Far apart, diagonal, identical, and row-wrap neighbors.
    assert_eq!(remove_wall(0, 8, 3, &mut maze.cells).unwrap_err(), MazeError::NotAdjacent);
    assert_eq!(remove_wall(0, 4, 3, &mut maze.cells).unwrap_err(), MazeError::NotAdjacent);
    assert_eq!(remove_wall(2, 2, 3, &mut maze.cells).unwrap_err(), MazeError::NotAdjacent);
    assert_eq!(remove_wall(2, 3, 3, &mut maze.cells).unwrap_err(), MazeError::NotAdjacent);
    assert_eq!(maze.cells, before);
}

#[test]
fn wall_pair_updates_both_sides_only() {
    let mut maze = Maze::empty(3, 2).unwrap();
    remove_wall(0, 1, 3, &mut maze.cells).unwrap();
    assert!(!maze.cells[0].wall_east);
    assert!(!maze.cells[1].wall_west);
    // Everything else on those two cells and all other cells is intact.
    assert!(maze.cells[0].wall_north && maze.cells[0].wall_south && maze.cells[0].wall_west);
    assert!(maze.cells[1].wall_north && maze.cells[1].wall_south && maze.cells[1].wall_east);
    for i in 2..6 {
        let c = &maze.cells[i];
        assert!(c.wall_north && c.wall_south && c.wall_east && c.wall_west);
    }
}

#[test]
fn read_accessors_match_cells() {
    let mut maze = Maze::empty(2, 2).unwrap();
    remove_wall(0, 1, 2, &mut maze.cells).unwrap();
    maze.cells[3].visited = true;
    assert!(!maze.wall_at(0, Dir::East));
    assert!(!maze.wall_at(1, Dir::West));
    assert!(maze.wall_at(0, Dir::North));
    assert!(maze.wall_at(2, Dir::South));
    assert!(maze.visited_at(3));
    assert!(!maze.visited_at(0));
}
