use maze_library::carving::Carving;
use maze_library::direction::Direction;
use maze_library::maze::Maze;
use maze_library::maze_gen::growing_tree::{growing_tree_maze, LastAdded, UniformRandom};
use maze_library::maze_gen::maze_gen::init_maze;
use maze_library::maze_gen::maze_gen_handler::{select_maze_algorithm, MazeType};
use maze_library::maze_gen::walk::{grow_by_walks, WalkPolicy};
use maze_library::reachability::all_tiles_reachable;
use rand::rngs::StdRng;
use rand::SeedableRng;
use std::collections::HashSet;

const ALGORITHMS: [MazeType; 5] = [
    MazeType::Kruzkals,
    MazeType::Wilsons,
    MazeType::RecursiveBacktracker,
    MazeType::Prims,
    MazeType::BinaryTree,
];

const ALL: [Direction; 4] = [
    Direction::North,
    Direction::East,
    Direction::South,
    Direction::West,
];

/// The open walls of the maze, the walls inside the end region left out.
fn open_edges(maze: &Maze) -> usize {
    let mut count = 0;
    for x in 0..maze.width {
        for y in 0..maze.height {
            for d in [Direction::East, Direction::South] {
                if let Ok(next) = maze.move_from_with_walls(&d, &(x, y), 1) {
                    if !(maze.is_end((x, y)) && maze.is_end(next)) {
                        count += 1;
                    }
                }
            }
        }
    }
    count
}

/// The number of cells that can be reached from `from` through open walls alone.
fn reached_from(maze: &Maze, from: (usize, usize)) -> usize {
    let mut seen = HashSet::new();
    let mut stack = vec![from];
    while let Some(cell) = stack.pop() {
        if !seen.insert(cell) {
            continue;
        }
        for d in ALL {
            if let Ok(next) = maze.move_from_with_walls(&d, &cell, 1) {
                stack.push(next);
            }
        }
    }
    seen.len()
}

#[test]
fn every_generator_gives_a_spanning_tree() {
    for algorithm in ALGORITHMS {
        for seed in 0..20u64 {
            let mut maze = init_maze(9, 9);
            let carves = select_maze_algorithm(&maze, Some(seed), &algorithm);
            // 81 cells, four of them one place: 78 places, 77 carves.
            assert_eq!(carves.len(), 77);
            maze.break_walls_for_path(carves);
            assert!(all_tiles_reachable(&maze));
            assert_eq!(open_edges(&maze), 77);
        }
    }
}

#[test]
fn generators_without_a_seed_give_spanning_trees() {
    for algorithm in ALGORITHMS {
        let mut maze = init_maze(7, 5);
        let carves = select_maze_algorithm(&maze, None, &algorithm);
        assert_eq!(carves.len(), 7 * 5 - 4);
        maze.break_walls_for_path(carves);
        assert!(all_tiles_reachable(&maze));
    }
}

#[test]
fn the_same_seed_gives_the_same_maze() {
    for algorithm in ALGORITHMS {
        let maze = init_maze(9, 9);
        let first = select_maze_algorithm(&maze, Some(42), &algorithm);
        let second = select_maze_algorithm(&maze, Some(42), &algorithm);
        assert_eq!(first, second);
    }
}

#[test]
fn generators_work_without_an_end_region() {
    for algorithm in ALGORITHMS {
        let mut maze = Maze::new(6, 4);
        let carves = select_maze_algorithm(&maze, Some(3), &algorithm);
        assert_eq!(carves.len(), 23);
        maze.break_walls_for_path(carves);
        assert!(all_tiles_reachable(&maze));
        assert_eq!(reached_from(&maze, (5, 0)), 24);
    }
}

#[test]
fn generators_work_on_the_smallest_grids() {
    for algorithm in ALGORITHMS {
        for (width, height) in [(1, 1), (1, 2), (2, 1), (2, 2), (3, 3), (4, 4)] {
            let mut maze = init_maze(width, height);
            let carves = select_maze_algorithm(&maze, Some(9), &algorithm);
            maze.break_walls_for_path(carves);
            assert!(all_tiles_reachable(&maze));
        }
    }
    // Where the end block cuts the grid in two, the algorithms without the rule of
    // the single door still span it.
    for algorithm in [MazeType::Wilsons, MazeType::BinaryTree] {
        for (width, height) in [(1, 5), (5, 1), (2, 7)] {
            let mut maze = init_maze(width, height);
            let carves = select_maze_algorithm(&maze, Some(9), &algorithm);
            maze.break_walls_for_path(carves);
            assert!(all_tiles_reachable(&maze));
        }
    }
}

#[test]
fn only_one_carve_crosses_into_the_end_region() {
    for algorithm in [
        MazeType::Kruzkals,
        MazeType::RecursiveBacktracker,
        MazeType::Prims,
        MazeType::BinaryTree,
    ] {
        for seed in 0..20u64 {
            let maze = init_maze(9, 9);
            let carves = select_maze_algorithm(&maze, Some(seed), &algorithm);
            let doors = carves
                .iter()
                .filter(|(from, d)| {
                    let to = maze.move_from(d, from, 1).unwrap();
                    maze.is_end(*from) != maze.is_end(to)
                })
                .count();
            assert_eq!(doors, 1);
            let inside = carves
                .iter()
                .filter(|(from, d)| {
                    let to = maze.move_from(d, from, 1).unwrap();
                    maze.is_end(*from) && maze.is_end(to)
                })
                .count();
            assert_eq!(inside, 0);
        }
    }
}

#[test]
fn the_binary_tree_runs_north_and_east() {
    for seed in 0..10u64 {
        let maze = Maze::new(8, 8);
        let carves = select_maze_algorithm(&maze, Some(seed), &MazeType::BinaryTree);
        assert_eq!(carves.len(), 63);
        for (_, d) in &carves {
            assert!(*d == Direction::North || *d == Direction::East);
        }
        // From every cell exactly one carve leaves, but for the corner.
        let sources: HashSet<_> = carves.iter().map(|(from, _)| *from).collect();
        assert_eq!(sources.len(), 63);
        assert!(!sources.contains(&(7, 0)));
    }
}

#[test]
fn the_recursive_backtracker_takes_any_chooser() {
    let mut maze = init_maze(9, 9);
    let carves = growing_tree_maze(&maze, StdRng::seed_from_u64(5), &mut LastAdded);
    assert_eq!(carves.len(), 77);
    maze.break_walls_for_path(carves);
    assert!(all_tiles_reachable(&maze));
    let mut other = init_maze(9, 9);
    let mut chooser = UniformRandom {
        rng: StdRng::seed_from_u64(6),
    };
    let carves = growing_tree_maze(&other, StdRng::seed_from_u64(5), &mut chooser);
    assert_eq!(carves.len(), 77);
    other.break_walls_for_path(carves);
    assert!(all_tiles_reachable(&other));
}

#[test]
fn a_single_door_cannot_span_a_grid_cut_in_two() {
    // The end block spans the grid in its width and cuts it in two.
    let mut maze = init_maze(2, 6);
    assert_eq!(maze.end, vec![(1, 3), (0, 3), (1, 2), (0, 2)]);
    let carves = select_maze_algorithm(&maze, Some(1), &MazeType::Kruzkals);
    maze.break_walls_for_path(carves);
    assert!(!all_tiles_reachable(&maze));
    let mut wilson = init_maze(2, 6);
    let carves = select_maze_algorithm(&wilson, Some(1), &MazeType::Wilsons);
    wilson.break_walls_for_path(carves);
    assert!(all_tiles_reachable(&wilson));
}

#[test]
fn walks_without_a_budget_head_straight_for_the_tree() {
    let mut maze = init_maze(9, 9);
    let mut tree = Carving::new(&maze);
    tree.seed(&maze, (4, 4));
    let mut rng = StdRng::seed_from_u64(7);
    grow_by_walks(&maze, &mut tree, WalkPolicy::Uniform, 0, &mut rng);
    assert_eq!(tree.covered(&maze), 81);
    assert_eq!(tree.carves.len(), 77);
    maze.break_walls_for_path(tree.carves);
    assert!(all_tiles_reachable(&maze));
}

#[test]
fn opening_the_end_region_connects_every_cell_to_every_other() {
    for algorithm in ALGORITHMS {
        let mut maze = init_maze(9, 9);
        let carves = select_maze_algorithm(&maze, Some(11), &algorithm);
        maze.break_walls_for_path(carves);
        maze.break_end_walls();
        for x in 0..9 {
            for y in 0..9 {
                assert_eq!(reached_from(&maze, (x, y)), 81);
            }
        }
    }
}

#[test]
fn a_walled_maze_is_not_reachable() {
    let maze = Maze::new(3, 3);
    assert!(!all_tiles_reachable(&maze));
    assert!(all_tiles_reachable(&Maze::new(1, 1)));
    // The end region counts as one place, walls or not.
    let mut block = Maze::new(2, 2);
    block.set_end((1, 1));
    assert!(all_tiles_reachable(&block));
}

#[test]
fn kruskal_names_walls_from_the_west_or_north() {
    for seed in 0..10u64 {
        let maze = init_maze(7, 5);
        let carves = select_maze_algorithm(&maze, Some(seed), &MazeType::Kruzkals);
        assert_eq!(carves.len(), 7 * 5 - 4);
        for ((x, y), d) in &carves {
            match d {
                Direction::East => assert!(x + 1 < 7 && *y < 5),
                Direction::South => assert!(*x < 7 && y + 1 < 5),
                other => panic!("a carve towards {:?}", other),
            }
        }
    }
}

#[test]
fn kruskal_on_a_cut_grid_leaves_one_side_behind_the_border() {
    // The end block cuts the grid into two rows above it and two below; the door
    // opens to one side, and the other side is a tree of its own.
    for seed in 0..10u64 {
        let mut maze = init_maze(2, 6);
        let carves = select_maze_algorithm(&maze, Some(seed), &MazeType::Kruzkals);
        // Two trees: the end region with one side (1 + 4 places), and the other
        // side (4 places).
        assert_eq!(carves.len(), 4 + 3);
        let doors = carves
            .iter()
            .filter(|(from, d)| {
                let to = maze.move_from(d, from, 1).unwrap();
                maze.is_end(*from) != maze.is_end(to)
            })
            .count();
        assert_eq!(doors, 1);
        maze.break_walls_for_path(carves);
        // Each side hangs together; one of them has the door, and through it one
        // cell of the end region, whose inner walls still stand.
        let north = reached_from(&maze, (0, 0));
        let south = reached_from(&maze, (0, 5));
        assert!((north == 4 && south == 5) || (north == 5 && south == 4));
    }
}

#[test]
fn wilson_leaves_every_cell_outside_the_end_region_once() {
    for seed in 0..10u64 {
        let maze = init_maze(6, 7);
        let carves = select_maze_algorithm(&maze, Some(seed), &MazeType::Wilsons);
        assert_eq!(carves.len(), 6 * 7 - 4);
        let sources: HashSet<_> = carves.iter().map(|(from, _)| *from).collect();
        assert_eq!(sources.len(), carves.len());
        for x in 0..6 {
            for y in 0..7 {
                assert_eq!(sources.contains(&(x, y)), !maze.is_end((x, y)));
            }
        }
        // Each carve leads to the end region or to a cell that an earlier carve left.
        for (i, (from, d)) in carves.iter().enumerate() {
            let to = maze.move_from(d, from, 1).unwrap();
            assert!(maze.is_end(to) || carves[..i].iter().any(|(earlier, _)| *earlier == to));
        }
    }
}

#[test]
fn wilson_without_an_end_region_leaves_every_cell_but_the_root() {
    for seed in 0..10u64 {
        let maze = Maze::new(5, 4);
        let carves = select_maze_algorithm(&maze, Some(seed), &MazeType::Wilsons);
        assert_eq!(carves.len(), 19);
        let sources: HashSet<_> = carves.iter().map(|(from, _)| *from).collect();
        assert_eq!(sources.len(), 19);
        // The first carve leads to the root, the one cell that no carve leaves.
        let root = maze.move_from(&carves[0].1, &carves[0].0, 1).unwrap();
        assert!(!sources.contains(&root));
    }
}

#[test]
fn a_growing_tree_reaches_every_cell_outside_the_end_region_once() {
    for algorithm in [MazeType::RecursiveBacktracker, MazeType::Prims] {
        for seed in 0..10u64 {
            let maze = init_maze(6, 7);
            let carves = select_maze_algorithm(&maze, Some(seed), &algorithm);
            assert_eq!(carves.len(), 6 * 7 - 4);
            let targets: Vec<_> = carves
                .iter()
                .map(|(from, d)| maze.move_from(d, from, 1).unwrap())
                .collect();
            let distinct: HashSet<_> = targets.iter().copied().collect();
            assert_eq!(distinct.len(), targets.len());
            for x in 0..6 {
                for y in 0..7 {
                    assert_eq!(distinct.contains(&(x, y)), !maze.is_end((x, y)));
                }
            }
            // Each carve starts in the end region or where an earlier carve ended,
            // and the first carve alone starts in the end region.
            for (i, (from, _)) in carves.iter().enumerate() {
                assert_eq!(maze.is_end(*from), i == 0);
                assert!(maze.is_end(*from) || targets[..i].contains(from));
            }
        }
    }
}

#[test]
fn a_growing_tree_without_an_end_region_grows_from_the_start() {
    let maze = Maze::new(4, 4);
    for seed in 0..10u64 {
        let carves = select_maze_algorithm(&maze, Some(seed), &MazeType::RecursiveBacktracker);
        assert_eq!(carves.len(), 15);
        assert_eq!(carves[0].0, maze.start);
        let targets: HashSet<_> = carves
            .iter()
            .map(|(from, d)| maze.move_from(d, from, 1).unwrap())
            .collect();
        assert_eq!(targets.len(), 15);
        assert!(!targets.contains(&maze.start));
    }
}

#[test]
fn a_growing_tree_on_a_cut_grid_stops_at_the_border() {
    for seed in 0..10u64 {
        let maze = init_maze(2, 6);
        let carves = select_maze_algorithm(&maze, Some(seed), &MazeType::Prims);
        // The end region and the side that the door opens to: four cells reached.
        assert_eq!(carves.len(), 4);
        assert!(maze.is_end(carves[0].0));
        let targets: HashSet<_> = carves
            .iter()
            .map(|(from, d)| maze.move_from(d, from, 1).unwrap())
            .collect();
        assert_eq!(targets.len(), 4);
        let north = targets.iter().all(|c| c.1 < 2);
        let south = targets.iter().all(|c| c.1 > 3);
        assert!(north || south);
    }
}
