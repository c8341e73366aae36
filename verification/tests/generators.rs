use maze_library::maze::Maze;
use maze_library::maze_gen::binary_tree::random_binary_maze;
use maze_library::maze_gen::growing_tree::{growing_tree_maze, UniformRandom};
use maze_library::maze_gen::kruzkals::random_kruzkals_maze;
use maze_library::maze_gen::maze_gen;
use maze_library::maze_gen::wilsons::random_wilson_maze;
use maze_library::reachability::all_tiles_reachable;
use rand::rngs::StdRng;
use rand::SeedableRng;

#[test]
fn maze_gen_test_kruskals() {
    for _ in 0..10 {
        let mut maze = Maze::new(20, 20);
        let walls_to_break = maze_gen::random_kruzkals_maze(&mut maze);
        maze.break_walls_for_path(walls_to_break);

        assert!(all_tiles_reachable(&maze));
    }
}

#[test]
fn maze_gen_test_wilsons() {
    for _ in 0..10 {
        let mut maze = Maze::new(20, 20);
        let walls_to_break = maze_gen::random_wilson_maze(&mut maze);
        maze.break_walls_for_path(walls_to_break);

        assert!(all_tiles_reachable(&maze));
    }
}

#[test]
fn test_binary_tree() {
    for _ in 0..10 {
        let mut maze = Maze::new(10, 10);
        maze.set_end((maze.width / 2, maze.height / 2));
        let walls_to_break = random_binary_maze(&mut maze, SeedableRng::from_rng(&mut rand::rng()));
        maze.break_walls_for_path(walls_to_break);

        assert!(all_tiles_reachable(&maze));
    }
}

#[test]
fn test_growing_tree() {
    for _ in 0..100 {
        let mut maze = Maze::new(20, 20);
        maze.set_end((maze.width / 2, maze.height / 2));
        let walls_to_break = growing_tree_maze(
            &mut maze,
            StdRng::from_rng(&mut rand::rng()),
            &mut UniformRandom {
                rng: StdRng::from_rng(&mut rand::rng()),
            },
        );
        maze.break_walls_for_path(walls_to_break);

        assert!(all_tiles_reachable(&maze));
    }
}

#[test]
fn kruzkals_test_kruskals() {
    for _ in 0..10 {
        let mut maze = Maze::new(20, 20);
        maze.set_end((maze.width / 2, maze.height / 2));
        let walls_to_break =
            random_kruzkals_maze(&mut maze, SeedableRng::from_rng(&mut rand::rng()));
        maze.break_walls_for_path(walls_to_break);
        assert!(all_tiles_reachable(&maze));
    }
}

#[test]
fn wilsons_test_wilsons() {
    for _ in 0..10 {
        let mut maze = Maze::new(20, 20);
        maze.set_end((maze.width / 2, maze.height / 2));
        let walls_to_break = random_wilson_maze(&mut maze, SeedableRng::from_rng(&mut rand::rng()));
        maze.break_walls_for_path(walls_to_break);

        assert!(all_tiles_reachable(&maze));
    }
}
