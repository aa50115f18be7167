//! Behavior of the three generators: termination, step counts, the
//! shapes they guarantee, wall symmetry, and determinism per seed.

use mazegen::{
    create_generator, generate, to_idx, BinaryTree, Dir, Field, Generator, GeneratorKind,
    Maze, MazeError, MazeGenerator, Prng, RecursiveBacktracker, RecursiveDivision,
};

fn symmetric(maze: &Maze) -> bool {
    let (w, h) = (maze.width, maze.height);
    for x in 0..w {
        for y in 0..h {
            let i = to_idx(x, y, w);
            if x + 1 < w && maze.cells[i].wall_east != maze.cells[i + 1].wall_west {
                return false;
            }
            if y + 1 < h && maze.cells[i].wall_south != maze.cells[i + w].wall_north {
                return false;
            }
        }
    }
    true
}

fn passage_count(maze: &Maze) -> usize {
    let (w, h) = (maze.width, maze.height);
    let mut count: usize = 0;
    for x in 0..w {
        for y in 0..h {
            let i = to_idx(x, y, w);
            if x + 1 < w && !maze.cells[i].wall_east {
                count += 1;
            }
            if y + 1 < h && !maze.cells[i].wall_south {
                count += 1;
            }
        }
    }
    count
}

fn reachable_from_zero(maze: &Maze) -> usize {
    let (w, h) = (maze.width, maze.height);
    let n = w * h;
    let mut seen = vec![false; n];
    let mut queue = vec![0usize];
    seen[0] = true;
    while let Some(i) = queue.pop() {
        let (x, y) = (i % w, i / w);
        if x + 1 < w && !maze.cells[i].wall_east && !seen[i + 1] {
            seen[i + 1] = true;
            queue.push(i + 1);
        }
        if x > 0 && !maze.cells[i].wall_west && !seen[i - 1] {
            seen[i - 1] = true;
            queue.push(i - 1);
        }
        if y + 1 < h && !maze.cells[i].wall_south && !seen[i + w] {
            seen[i + w] = true;
            queue.push(i + w);
        }
        if y > 0 && !maze.cells[i].wall_north && !seen[i - w] {
            seen[i - w] = true;
            queue.push(i - w);
        }
    }
    seen.iter().filter(|&&s| s).count()
}

#[test]
fn backtracker_builds_spanning_tree() {
    let mut maze = Maze::empty(6, 5).unwrap();
    let mut rng = Prng::from_seed(7);
    let mut carver = RecursiveBacktracker::new();
    carver.initialize(&mut maze, &mut rng);
    let mut steps: usize = 0;
    while !carver.is_finished() {
        carver.step(&mut maze, &mut rng);
        assert!(symmetric(&maze));
        steps += 1;
        assert!(steps <= 2 * 6 * 5 + 2, "backtracker did not terminate in time");
    }
    for cell in maze.cells.iter() {
        assert!(cell.visited);
    }
    assert_eq!(passage_count(&maze), 6 * 5 - 1);
    assert_eq!(reachable_from_zero(&maze), 6 * 5);
}

#[test]
fn binary_tree_step_count_and_shape() {
    let (w, h) = (4usize, 3usize);
    let mut maze = Maze::empty(w, h).unwrap();
    let mut rng = Prng::from_seed(11);
    let mut carver = BinaryTree::new(Dir::South, Dir::East).unwrap();
    carver.initialize(&mut maze, &mut rng);
    assert!(!carver.is_finished());
    for k in 0..w * h {
        assert!(!carver.is_finished(), "finished early at step {}", k);
        carver.step(&mut maze, &mut rng);
        assert!(symmetric(&maze));
    }
    assert!(carver.is_finished());

    // The corner opposite the bias keeps both biased walls; every
    // other cell has exactly one of them open.
    let corner = to_idx(w - 1, h - 1, w);
    for i in 0..w * h {
        let open_south = !maze.cells[i].wall_south;
        let open_east = !maze.cells[i].wall_east;
        if i == corner {
            assert!(!open_south && !open_east);
        } else {
            assert!(open_south != open_east, "cell {} should open exactly one bias wall", i);
        }
    }
}

#[test]
fn binary_tree_three_by_one() {
    let mut maze = Maze::empty(3, 1).unwrap();
    let mut rng = Prng::from_seed(3);
    let mut carver = BinaryTree::new(Dir::East, Dir::South).unwrap();
    carver.initialize(&mut maze, &mut rng);
    for _ in 0..3 {
        carver.step(&mut maze, &mut rng);
    }
    assert!(carver.is_finished());
    // One passage fewer than cells: the rightmost cell has no east
    // neighbor and no row below.
    assert_eq!(passage_count(&maze), 2);
    assert!(!maze.cells[0].wall_east && !maze.cells[1].wall_west);
    assert!(!maze.cells[1].wall_east && !maze.cells[2].wall_west);
    assert!(maze.cells[2].wall_east && maze.cells[2].wall_south);
}

#[test]
fn binary_tree_opposite_corner_north_west() {
    // Bias {North, West}: the corner that can carve neither way is (0, 0).
    let (w, h) = (3usize, 3usize);
    let mut maze = Maze::empty(w, h).unwrap();
    let mut rng = Prng::from_seed(13);
    let mut carver = BinaryTree::new(Dir::North, Dir::West).unwrap();
    carver.initialize(&mut maze, &mut rng);
    while !carver.is_finished() {
        carver.step(&mut maze, &mut rng);
    }
    for i in 0..w * h {
        let open_north = !maze.cells[i].wall_north;
        let open_west = !maze.cells[i].wall_west;
        if i == 0 {
            assert!(!open_north && !open_west);
        } else {
            assert!(open_north != open_west);
        }
    }
}

#[test]
fn division_only_ever_adds_walls() {
    let mut maze = Maze::empty(5, 7).unwrap();
    let mut rng = Prng::from_seed(31);
    let mut carver = RecursiveDivision::new(6);
    carver.initialize(&mut maze, &mut rng);
    while !carver.is_finished() {
        let before = maze.cells.clone();
        carver.step(&mut maze, &mut rng);
        for (old, new) in before.iter().zip(maze.cells.iter()) {
            assert!(!old.wall_north || new.wall_north);
            assert!(!old.wall_south || new.wall_south);
            assert!(!old.wall_east || new.wall_east);
            assert!(!old.wall_west || new.wall_west);
            assert_eq!(old.visited, new.visited);
        }
    }
}

#[test]
fn binary_tree_rejects_same_axis() {
    assert_eq!(BinaryTree::new(Dir::North, Dir::South).unwrap_err(), MazeError::SameAxis);
    assert_eq!(BinaryTree::new(Dir::East, Dir::East).unwrap_err(), MazeError::SameAxis);
    assert_eq!(BinaryTree::new(Dir::West, Dir::East).unwrap_err(), MazeError::SameAxis);
    assert!(BinaryTree::new(Dir::North, Dir::East).is_ok());
    assert!(BinaryTree::new(Dir::West, Dir::South).is_ok());
}

#[test]
fn division_finishes_after_exactly_resolution_steps() {
    let resolution = 5usize;
    let mut maze = Maze::empty(4, 4).unwrap();
    let mut rng = Prng::from_seed(21);
    let mut carver = RecursiveDivision::new(resolution);
    carver.initialize(&mut maze, &mut rng);
    for k in 0..resolution {
        assert!(!carver.is_finished(), "finished early after {} steps", k);
        carver.step(&mut maze, &mut rng);
        assert!(symmetric(&maze));
    }
    assert!(carver.is_finished());
}

#[test]
fn division_resolution_zero_is_immediately_finished() {
    let mut maze = Maze::empty(4, 4).unwrap();
    let mut rng = Prng::from_seed(2);
    let mut carver = RecursiveDivision::new(0);
    carver.initialize(&mut maze, &mut rng);
    assert!(carver.is_finished());
    let before = maze.cells.clone();
    carver.step(&mut maze, &mut rng);
    assert_eq!(maze.cells, before);
}

#[test]
fn one_by_one_grid_all_generators() {
    // Backtracker: walls stay fully present; one step finishes.
    let mut maze = Maze::empty(1, 1).unwrap();
    let mut rng = Prng::from_seed(5);
    let mut carver = RecursiveBacktracker::new();
    carver.initialize(&mut maze, &mut rng);
    let walls_before = maze.cells.clone();
    let mut steps: usize = 0;
    while !carver.is_finished() {
        carver.step(&mut maze, &mut rng);
        steps += 1;
        assert!(steps <= 3);
    }
    assert_eq!(maze.cells[0].wall_north, walls_before[0].wall_north);
    assert_eq!(maze.cells[0].wall_south, walls_before[0].wall_south);
    assert_eq!(maze.cells[0].wall_east, walls_before[0].wall_east);
    assert_eq!(maze.cells[0].wall_west, walls_before[0].wall_west);

    // Biased carver: the single cell is the skipped corner.
    let mut maze = Maze::empty(1, 1).unwrap();
    let mut carver = BinaryTree::new(Dir::South, Dir::East).unwrap();
    carver.initialize(&mut maze, &mut rng);
    carver.step(&mut maze, &mut rng);
    assert!(carver.is_finished());
    assert!(maze.cells[0].wall_north && maze.cells[0].wall_south);
    assert!(maze.cells[0].wall_east && maze.cells[0].wall_west);

    // Division: the grid opens fully, then nothing can be split.
    let mut maze = Maze::empty(1, 1).unwrap();
    let mut carver = RecursiveDivision::new(3);
    carver.initialize(&mut maze, &mut rng);
    let before = maze.cells.clone();
    assert!(!maze.cells[0].wall_north);
    for _ in 0..3 {
        carver.step(&mut maze, &mut rng);
    }
    assert!(carver.is_finished());
    assert_eq!(maze.cells, before);
}

#[test]
fn division_keeps_grid_connected_enough_to_walk_gaps() {
    // Every split line leaves one gap, so the maze stays connected.
    let mut maze = Maze::empty(6, 6).unwrap();
    let mut rng = Prng::from_seed(9);
    let mut carver = RecursiveDivision::new(10);
    carver.initialize(&mut maze, &mut rng);
    while !carver.is_finished() {
        carver.step(&mut maze, &mut rng);
    }
    assert!(symmetric(&maze));
    assert_eq!(reachable_from_zero(&maze), 36);
}

#[test]
fn same_seed_reproduces_the_maze() {
    let run = |seed: u64| -> Vec<(bool, bool, bool, bool)> {
        let mut maze = Maze::empty(6, 5).unwrap();
        let mut rng = Prng::from_seed(seed);
        let mut carver = RecursiveBacktracker::new();
        carver.initialize(&mut maze, &mut rng);
        generate(&mut carver, &mut maze, &mut rng);
        maze.cells
            .iter()
            .map(|c| (c.wall_north, c.wall_south, c.wall_east, c.wall_west))
            .collect()
    };
    assert_eq!(run(42), run(42));
}

#[test]
fn prng_next_below_stays_below() {
    let mut rng = Prng::from_seed(100);
    assert_eq!(rng.next_below(1), 0);
    for bound in 2..20usize {
        for _ in 0..10 {
            assert!(rng.next_below(bound) < bound);
        }
    }
}

#[test]
fn field_divide_tiles_the_field() {
    let mut rng = Prng::from_seed(17);
    let field = Field { x: 2, y: 1, width: 4, height: 6 };

    let (top, bottom, line) = field.divide(true, &mut rng).unwrap();
    assert_eq!((top.x, top.y, top.width), (2, 1, 4));
    assert!(top.height >= 1 && top.height < 6);
    assert_eq!((bottom.x, bottom.y), (2, 1 + top.height));
    assert_eq!((bottom.width, bottom.height), (4, 6 - top.height));
    assert_eq!((line.start, line.end), (2, 6));
    assert_eq!(line.split_coord, 1 + top.height - 1);

    let (left, right, line) = field.divide(false, &mut rng).unwrap();
    assert_eq!((left.x, left.y, left.height), (2, 1, 6));
    assert!(left.width >= 1 && left.width < 4);
    assert_eq!((right.x, right.y), (2 + left.width, 1));
    assert_eq!((right.width, right.height), (4 - left.width, 6));
    assert_eq!((line.start, line.end), (1, 7));
    assert_eq!(line.split_coord, 2 + left.width - 1);

    // Fields thinner than two cells on either axis cannot split.
    assert!((Field { x: 0, y: 0, width: 1, height: 5 }).divide(true, &mut rng).is_none());
    assert!((Field { x: 0, y: 0, width: 5, height: 1 }).divide(false, &mut rng).is_none());
}

#[test]
fn generator_selector_builds_each_variant() {
    assert!(matches!(
        create_generator(GeneratorKind::RecursiveBacktracker),
        Ok(Generator::RecursiveBacktracker(_))
    ));
    assert!(matches!(
        create_generator(GeneratorKind::RecursiveDivision { resolution: 100 }),
        Ok(Generator::RecursiveDivision(_))
    ));
    assert!(matches!(
        create_generator(GeneratorKind::BinaryTree { dir_1: Dir::North, dir_2: Dir::West }),
        Ok(Generator::BinaryTree(_))
    ));
    assert_eq!(
        create_generator(GeneratorKind::BinaryTree { dir_1: Dir::East, dir_2: Dir::West })
            .unwrap_err(),
        MazeError::SameAxis
    );
}

#[test]
fn generate_runs_any_selected_generator_to_completion() {
    for kind in [
        GeneratorKind::RecursiveBacktracker,
        GeneratorKind::RecursiveDivision { resolution: 8 },
        GeneratorKind::BinaryTree { dir_1: Dir::North, dir_2: Dir::West },
    ] {
        let mut maze = Maze::empty(5, 4).unwrap();
        let mut rng = Prng::from_seed(77);
        let mut carver = create_generator(kind).unwrap();
        carver.initialize(&mut maze, &mut rng);
        generate(&mut carver, &mut maze, &mut rng);
        assert!(carver.is_finished());
        assert!(symmetric(&maze));
    }
}
