use maze_library::coordinate_map::DirectionMap;
use maze_library::direction::Direction;
use maze_library::environment::{calcualte_score_for_coordinate_vector, Environment};
use maze_library::environment_config::{EnvConfig, PythonConfig};
use maze_library::exploring_algorithms::explore_handler::{explore_maze_with, ExploreAlgorithm};
use maze_library::exploring_algorithms::wall_following::follow_wall_explore;
use maze_library::generation::{
    generate_environment, generate_environment_list, init_environment, make_maze_imperfect,
};
use maze_library::maze::Maze;
use maze_library::maze_gen::maze_gen_handler::MazeType;
use maze_library::reachability::all_tiles_reachable;
use maze_library::solving_algorithms::dijkstra::dijkstra_solve;
use maze_library::solving_algorithms::solve_handler::{
    select_maze_solve_algorithm, steps_of_route, SolveAlgorithm,
};
use rand::rngs::StdRng;
use rand::SeedableRng;

/// A corridor from (0, 2) east to (2, 2) and from there north to (2, 0).
fn corridor_environment() -> Environment {
    let mut env = Environment::new(EnvConfig::new_rust_config(3, 3));
    env.maze.break_walls_for_path(vec![
        ((0, 2), Direction::East),
        ((1, 2), Direction::East),
        ((2, 2), Direction::North),
        ((2, 1), Direction::North),
    ]);
    env.maze.set_end((2, 0));
    env.weighted_graph = env.maze.convert_to_weighted_graph(None, true);
    env
}

#[test]
fn a_new_environment_stands_at_the_start() {
    let env = Environment::new(EnvConfig::new(
        9,
        7,
        PythonConfig {
            allowed_revisits: 3,
            use_sparse_rewards: true,
            mini_explore_runs_per_episode: 1,
            mini_exploit_runs_per_episode: 2,
            exploration_steps: 50,
        },
    ));
    assert_eq!(env.maze.width, 9);
    assert_eq!(env.maze.height, 7);
    assert_eq!(env.current_location, (0, 6));
    assert_eq!(env.previous_direction, None);
    assert_eq!(env.path_followed, vec![((0, 6), 0)]);
    assert_eq!(env.visited.get(&(0, 6)), Some(&1));
    assert_eq!(env.overall_visited.get(&(0, 6)), Some(&1));
    assert_eq!(env.steps, 0);
    assert_eq!(env.total_steps, 0);
    assert_eq!(env.config.python_config.exploration_steps, 50);
    assert_eq!(env.get_current_run(), 0);
    assert_eq!(env.available_paths(), DirectionMap::new());
    assert_eq!(EnvConfig::new_rust_config(2, 3).python_config, PythonConfig::default());
}

#[test]
fn a_move_without_an_edge_is_a_bump() {
    let mut env = corridor_environment();
    assert!(!env.available_paths().contains_key(&Direction::North));
    let before = env.path_followed.len();
    let taken = env.move_from_current(&Direction::North, 3);
    assert_eq!(taken, 0);
    assert_eq!(env.current_location, (0, 2));
    assert_eq!(env.path_followed.len(), before + 1);
    assert_eq!(env.path_followed.last(), Some(&((0, 2), 3)));
    assert_eq!(env.previous_direction, None);
    assert_eq!(env.steps, 1);
    assert_eq!(env.visited.get(&(0, 2)), Some(&2));
    assert_eq!(env.overall_visited.get(&(0, 2)), Some(&2));
    assert_eq!(env.get_current_run(), 3);
}

#[test]
fn a_move_with_weight_zero_is_a_bump() {
    let mut env = Environment::new(EnvConfig::new_rust_config(3, 3));
    let mut edges = DirectionMap::new();
    edges.insert(Direction::East, 0);
    env.weighted_graph.insert((0, 2), edges);
    assert_eq!(env.move_from_current(&Direction::East, 0), 0);
    assert_eq!(env.current_location, (0, 2));
    assert_eq!(env.path_followed, vec![((0, 2), 0), ((0, 2), 0)]);
}

#[test]
fn a_move_follows_its_edge_cell_by_cell() {
    let mut env = corridor_environment();
    let taken = env.move_from_current(&Direction::East, 1);
    assert_eq!(taken, 2);
    assert_eq!(env.current_location, (2, 2));
    assert_eq!(env.previous_direction, Some(Direction::East));
    assert_eq!(
        env.path_followed,
        vec![((0, 2), 0), ((1, 2), 1), ((2, 2), 1)]
    );
    assert_eq!(env.steps, 2);
    assert_eq!(env.visited.get(&(1, 2)), Some(&1));
    assert_eq!(env.visited.get(&(2, 2)), Some(&1));
    assert_eq!(env.overall_visited.get(&(2, 2)), Some(&1));
    // The cells around the new location go on the lifetime record, unvisited.
    assert_eq!(env.overall_visited.get(&(2, 1)), Some(&0));
    assert_eq!(env.visited.get(&(2, 1)), None);
    assert_eq!(env.overall_visited.get(&(1, 1)), None);
    let mut paths = DirectionMap::new();
    paths.insert(Direction::North, 2);
    paths.insert(Direction::West, 2);
    assert_eq!(env.available_paths(), paths);
}

#[test]
fn a_move_that_the_maze_blocks_stops_short() {
    let mut env = Environment::new(EnvConfig::new_rust_config(4, 1));
    env.maze.break_walls_for_path(vec![((0, 0), Direction::East)]);
    let mut edges = DirectionMap::new();
    edges.insert(Direction::East, 3);
    env.weighted_graph.insert((0, 0), edges);
    let taken = env.move_from_current(&Direction::East, 0);
    assert_eq!(taken, 1);
    assert_eq!(env.current_location, (1, 0));
    assert_eq!(env.previous_direction, None);
    assert_eq!(env.path_followed, vec![((0, 0), 0), ((1, 0), 0)]);
}

#[test]
fn mark_nearby_puts_open_neighbours_on_record() {
    let mut env = corridor_environment();
    env.current_location = (2, 2);
    env.mark_nearby_as_visited();
    assert_eq!(env.overall_visited.get(&(1, 2)), Some(&0));
    assert_eq!(env.overall_visited.get(&(2, 1)), Some(&0));
    assert_eq!(env.overall_visited.get(&(0, 2)), Some(&1));
    assert_eq!(env.overall_visited.get(&(2, 0)), None);
}

#[test]
fn move_path_vec_makes_every_move() {
    let mut env = corridor_environment();
    let path = vec![((0, 2), Direction::East), ((2, 2), Direction::North)];
    env.move_path_vec(&path, 1);
    assert_eq!(env.current_location, (2, 0));
    assert_eq!(
        env.path_followed,
        vec![((0, 2), 0), ((1, 2), 1), ((2, 2), 1), ((2, 1), 1), ((2, 0), 1)]
    );
    assert_eq!(env.cells_of_run(1), vec![(1, 2), (2, 2), (2, 1), (2, 0)]);
    assert_eq!(env.cells_of_run(0), vec![(0, 2)]);
    assert_eq!(env.get_current_run(), 1);
}

#[test]
fn a_run_is_scored_by_weights_turns_and_hits() {
    let mut env = corridor_environment();
    env.weighted_graph = env.maze.convert_to_weighted_graph(None, false);
    // East along the corridor and back west: four steps of weight one and a
    // turn back worth two.
    let path = vec![(0, 2), (1, 2), (2, 2), (1, 2), (0, 2)];
    assert_eq!(
        calcualte_score_for_coordinate_vector(&path, &env.weighted_graph),
        (4 + 2, 0, 1)
    );
    // East, then north: a quarter turn.
    let bend = vec![(0, 2), (1, 2), (2, 2), (2, 1), (2, 0)];
    assert_eq!(
        calcualte_score_for_coordinate_vector(&bend, &env.weighted_graph),
        (4 + 1, 0, 0)
    );
    // A single step counts with its weight and takes no turn.
    assert_eq!(
        calcualte_score_for_coordinate_vector(&vec![(2, 2), (2, 1)], &env.weighted_graph),
        (1, 0, 0)
    );
    // Standing still is a hit, and so is a step that the graph does not know.
    let hits = vec![(0, 2), (1, 2), (1, 2), (1, 1), (2, 2)];
    assert_eq!(
        calcualte_score_for_coordinate_vector(&hits, &env.weighted_graph),
        (1, 3, 0)
    );
    // A first step that the graph does not know is a hit as well.
    assert_eq!(
        calcualte_score_for_coordinate_vector(&vec![(0, 2), (0, 1), (0, 2)], &env.weighted_graph),
        (0, 2, 0)
    );
    assert_eq!(
        calcualte_score_for_coordinate_vector(&vec![(0, 2)], &env.weighted_graph),
        (0, 0, 0)
    );
    assert_eq!(
        calcualte_score_for_coordinate_vector(&vec![], &env.weighted_graph),
        (0, 0, 0)
    );
}

#[test]
fn a_run_succeeds_if_it_ends_in_the_end_region() {
    let mut env = corridor_environment();
    env.weighted_graph = env.maze.convert_to_weighted_graph(None, false);
    let path = vec![((0, 2), Direction::East), ((1, 2), Direction::East)];
    env.move_path_vec(&path, 1);
    assert_eq!(env.calculate_run_score(1), (1, 0, 0, false));
    env.move_path_vec(
        &vec![((2, 2), Direction::North), ((2, 1), Direction::North)],
        2,
    );
    assert_eq!(env.current_location, (2, 0));
    assert_eq!(env.calculate_run_score(2), (1, 0, 0, true));
    // A run of one cell, or of none, scores nothing.
    assert_eq!(env.calculate_run_score(0), (0, 0, 0, false));
    assert_eq!(env.calculate_run_score(9), (0, 0, 0, false));
    env.smart_reset(3);
    env.move_path_vec(
        &vec![
            ((0, 2), Direction::East),
            ((1, 2), Direction::East),
            ((2, 2), Direction::North),
            ((2, 1), Direction::North),
        ],
        3,
    );
    // The run is the start and four cells: four steps scored, one quarter turn.
    assert_eq!(env.calculate_run_score(3), (4 + 1, 0, 0, true));
}

#[test]
fn a_run_of_one_cell_succeeds_inside_the_end_region() {
    let mut env = corridor_environment();
    env.move_path_vec(
        &vec![((0, 2), Direction::East), ((2, 2), Direction::North)],
        1,
    );
    assert_eq!(env.current_location, (2, 0));
    assert!(env.maze.is_end((2, 0)));
    // A bump inside the end region is a run of one cell.
    assert_eq!(env.move_from_current(&Direction::East, 2), 0);
    assert_eq!(env.cells_of_run(2), vec![(2, 0)]);
    assert_eq!(env.calculate_run_score(2), (0, 0, 0, true));
    // The same outside the end region does not succeed.
    let mut outside = corridor_environment();
    assert_eq!(outside.move_from_current(&Direction::North, 4), 0);
    assert_eq!(outside.cells_of_run(4), vec![(0, 2)]);
    assert_eq!(outside.calculate_run_score(4), (0, 0, 0, false));
    assert_eq!(outside.calculate_run_score(0), (0, 0, 0, false));
    assert_eq!(outside.calculate_run_score(7), (0, 0, 0, false));
}

#[test]
fn reset_starts_an_episode_and_smart_reset_a_run() {
    let mut env = corridor_environment();
    env.move_from_current(&Direction::East, 0);
    env.smart_reset(1);
    assert_eq!(env.current_location, (0, 2));
    assert_eq!(env.path_followed.last(), Some(&((0, 2), 1)));
    assert_eq!(env.path_followed.len(), 4);
    assert_eq!(env.total_steps, 2);
    assert_eq!(env.steps, 0);
    assert_eq!(env.visited.get(&(1, 2)), None);
    assert_eq!(env.visited.get(&(0, 2)), Some(&1));
    assert_eq!(env.overall_visited.get(&(1, 2)), Some(&1));
    env.move_from_current(&Direction::East, 1);
    env.reset();
    assert_eq!(env.path_followed, vec![((0, 2), 0)]);
    assert_eq!(env.total_steps, 4);
    assert_eq!(env.steps, 0);
    assert_eq!(env.overall_visited.get(&(1, 2)), None);
    assert_eq!(env.overall_visited.get(&(0, 2)), Some(&1));
}

#[test]
fn the_wall_follower_keeps_right() {
    let mut env = corridor_environment();
    assert_eq!(env.wall_choice(), Direction::East);
    env.move_from_current(&Direction::East, 1);
    // Heading east at the bend: right is south and closed, straight on is closed,
    // left is north.
    assert_eq!(env.wall_choice(), Direction::North);
    env.move_from_current(&Direction::North, 1);
    // At the dead end it turns back.
    assert_eq!(env.wall_choice(), Direction::South);
    assert_eq!(env.move_budget(), 74);
}

#[test]
fn wall_following_walks_to_the_end_and_back() {
    let mut env = corridor_environment();
    follow_wall_explore(&mut env, (2, 0));
    assert_eq!(env.current_location, (0, 2));
    assert_eq!(
        env.cells_of_run(1),
        vec![
            (1, 2),
            (2, 2),
            (2, 1),
            (2, 0),
            (2, 1),
            (2, 2),
            (1, 2),
            (0, 2)
        ]
    );
}

#[test]
fn wall_following_gives_up_where_it_cannot_move() {
    let mut env = Environment::new(EnvConfig::new_rust_config(2, 2));
    follow_wall_explore(&mut env, (1, 0));
    assert_eq!(env.current_location, (0, 1));
    // 8 moves for each of the four cells and two more, each of them a bump.
    assert_eq!(env.path_followed.len(), 1 + 34);
}

#[test]
fn exploring_gives_the_agent_its_graph() {
    let mut env = generate_environment(&MazeType::Wilsons, 9, 9, 0, Some(4));
    env.maze.break_end_walls();
    explore_maze_with(&mut env, &ExploreAlgorithm::Nothing);
    assert!(env.weighted_graph.contains_key(&(0, 8)));
    assert_eq!(env.path_followed.len(), 1);
    let whole = select_maze_solve_algorithm(&env, &SolveAlgorithm::Dijkstra).unwrap();
    explore_maze_with(&mut env, &ExploreAlgorithm::WallFollowing);
    assert_eq!(env.current_location, env.maze.start);
    assert!(env.path_followed.len() > 1);
    assert!(env.cells_of_run(1).contains(&env.maze.end[0]));
    // In a perfect maze there is one way only, explored or not.
    let explored = select_maze_solve_algorithm(&env, &SolveAlgorithm::Dijkstra).unwrap();
    let cells = |steps: &Vec<((usize, usize), Direction)>| {
        let mut at = env.maze.start;
        let mut all = vec![at];
        for (from, _) in steps.iter().skip(1) {
            all.push(*from);
            at = *from;
        }
        let _ = at;
        all
    };
    assert_eq!(cells(&whole).first(), cells(&explored).first());
}

#[test]
fn braiding_takes_down_as_many_walls_as_asked() {
    for seed in 0..10u64 {
        let mut maze = Maze::init_maze(9, 9);
        let carves = maze_library::maze_gen::maze_gen_handler::select_maze_algorithm(
            &maze,
            Some(seed),
            &MazeType::Wilsons,
        );
        maze.break_walls_for_path(carves);
        let before = maze.clone();
        let mut rng = StdRng::seed_from_u64(seed);
        let removed = maze.break_random_walls_with(5, &mut rng);
        assert_eq!(removed.len(), 5);
        for (n, (from, d)) in removed.iter().enumerate() {
            let to = maze.move_from(d, from, 1).unwrap();
            assert!(*d == Direction::East || *d == Direction::South);
            assert!(before.has_wall(*from, *d));
            assert!(before.has_wall(to, d.opposite_direction()));
            assert!(!maze.has_wall(*from, *d));
            assert!(!maze.has_wall(to, d.opposite_direction()));
            assert!(!maze.is_end(*from) && !maze.is_end(to));
            assert!(maze.get_cell(*from).walls.open_len() >= 2);
            assert!(maze.get_cell(to).walls.open_len() >= 2);
            assert!(!removed[..n].contains(&(*from, *d)));
        }
        // Nothing else has changed.
        let mut again = before.clone();
        again.break_walls_for_path(removed);
        assert_eq!(again.grid, maze.grid);
        assert!(all_tiles_reachable(&maze));
    }
}

#[test]
fn braiding_stops_when_the_walls_run_out() {
    // In a fully walled maze no cell is open towards two directions.
    let mut walled = Maze::new(4, 4);
    assert_eq!(walled.break_random_walls(3), vec![]);
    assert_eq!(walled.closed_edges().len(), 24);
    // A grid without walls inside has none to take down.
    let mut open = Maze::new(3, 3);
    open.break_walls_for_path(open.closed_edges());
    assert_eq!(open.closed_edges(), vec![]);
    assert_eq!(open.break_random_walls(2), vec![]);
    // A path has dead ends, and beside a dead end no wall comes down.
    let mut path = Maze::new(2, 2);
    path.break_walls_for_path(vec![
        ((0, 0), Direction::East),
        ((1, 0), Direction::South),
        ((1, 1), Direction::West),
    ]);
    assert_eq!(path.break_random_walls(1), vec![]);
    // A ring of six cells has one wall across its middle, between two cells that
    // are open towards two directions each: that wall comes down, and no other.
    let mut ring = Maze::new(3, 2);
    ring.break_walls_for_path(vec![
        ((0, 0), Direction::East),
        ((1, 0), Direction::East),
        ((2, 0), Direction::South),
        ((2, 1), Direction::West),
        ((1, 1), Direction::West),
        ((0, 1), Direction::North),
    ]);
    assert_eq!(ring.break_random_walls(0), vec![]);
    assert_eq!(ring.break_random_walls(4), vec![((1, 0), Direction::South)]);
    assert_eq!(ring.get_cell((1, 0)).walls.open_len(), 3);
    assert_eq!(ring.get_cell((1, 1)).walls.open_len(), 3);
    assert_eq!(ring.break_random_walls(4), vec![]);
}

#[test]
fn generated_environments_are_ready_to_explore() {
    let environments = generate_environment_list(&MazeType::Prims, 9, 9, 3, 2, Some(22));
    assert_eq!(environments.len(), 3);
    for env in &environments {
        assert_eq!(env.maze.width, 9);
        assert_eq!(env.maze.end, vec![(4, 4), (3, 4), (4, 3), (3, 3)]);
        assert_eq!(env.current_location, (0, 8));
        assert_eq!(env.path_followed, vec![((0, 8), 0)]);
        assert!(all_tiles_reachable(&env.maze));
        let open: usize = (0..9)
            .flat_map(|x| (0..9).map(move |y| (x, y)))
            .map(|c| env.maze.get_cell(c).walls.open_len())
            .sum();
        assert_eq!(open, 2 * (77 + 2));
    }
}

#[test]
fn an_environment_for_training_is_set_up_by_name() {
    let env = init_environment(9, 9, "Wilsons", 50, false, true, Some(5), 2, 3, None);
    assert_eq!(env.config.maze_width, 9);
    assert_eq!(env.config.python_config.allowed_revisits, 50);
    assert_eq!(env.config.python_config.mini_exploit_runs_per_episode, 2);
    assert_eq!(env.config.python_config.mini_explore_runs_per_episode, 3);
    assert_eq!(env.config.python_config.exploration_steps, 81);
    assert!(all_tiles_reachable(&env.maze));
    assert!(env.weighted_graph.contains_key(&(0, 8)));
    assert_eq!(env.path_followed, vec![((0, 8), 0)]);
    let dense = init_environment(5, 4, "no such name", 1, true, false, Some(5), 0, 0, Some(7));
    assert_eq!(dense.config.python_config.exploration_steps, 7);
    assert!(dense.config.python_config.use_sparse_rewards);
    for x in 0..5 {
        for y in 0..4 {
            assert!(dense.weighted_graph.contains_key(&(x, y)));
        }
    }
    // The name that is none stands for Kruskal's algorithm.
    let same = generate_environment(&MazeType::Kruzkals, 5, 4, 0, Some(5));
    assert_eq!(dense.maze.grid, same.maze.grid);
}

#[test]
fn a_maze_is_made_imperfect_by_braiding() {
    let mut env = init_environment(12, 12, "wilsons", 0, false, true, Some(8), 0, 0, None);
    let before = env.maze.clone();
    let walls = |maze: &Maze| -> usize {
        (0..12)
            .flat_map(|x| (0..12).map(move |y| (x, y)))
            .map(|c| maze.get_cell(c).walls.len())
            .sum()
    };
    make_maze_imperfect(&mut env);
    assert_eq!(walls(&before) - walls(&env.maze), 2 * 15);
    assert!(all_tiles_reachable(&env.maze));
    assert_eq!(env.path_followed, vec![((0, 11), 0)]);
    let graph = env.maze.convert_to_weighted_graph(None, true);
    for x in 0..12 {
        for y in 0..12 {
            assert_eq!(env.weighted_graph.get(&(x, y)), graph.get(&(x, y)));
        }
    }
}

#[test]
fn an_environment_starts_over_with_a_new_maze() {
    let mut env = corridor_environment();
    env.move_from_current(&Direction::East, 1);
    env.reset_and_regenerate();
    assert_eq!(env.maze.width, 3);
    assert_eq!(env.maze.height, 3);
    assert_eq!(env.maze.end, vec![(1, 1), (0, 1), (1, 0), (0, 0)]);
    assert_eq!(env.current_location, (0, 2));
    assert_eq!(env.path_followed, vec![((0, 2), 0)]);
    assert_eq!(env.visited.get(&(0, 2)), Some(&0));
    assert_eq!(env.overall_visited.get(&(0, 2)), Some(&0));
    assert_eq!(env.visited.get(&(1, 2)), None);
    assert_eq!(env.steps, 0);
    assert_eq!(env.total_steps, 0);
    assert!(all_tiles_reachable(&env.maze));
    assert!(env.weighted_graph.contains_key(&(0, 2)));
    let open: usize = (0..3)
        .flat_map(|x| (0..3).map(move |y| (x, y)))
        .map(|c| env.maze.get_cell(c).walls.open_len())
        .sum();
    assert_eq!(open, 2 * 5);
}

#[test]
fn end_to_end_with_kruskal_and_dijkstra() {
    let mut env = generate_environment(&MazeType::Kruzkals, 9, 9, 0, Some(42));
    assert!(all_tiles_reachable(&env.maze));
    env.maze.break_end_walls();
    env.weighted_graph = env.maze.convert_to_weighted_graph(None, true);
    let start = env.maze.get_starting_point();
    let end = env.maze.get_end_point()[0];
    let path = dijkstra_solve(&env, start, end).unwrap();
    assert_eq!(path.first(), Some(&start));
    assert!(env.maze.is_end(*path.last().unwrap()));
    let run = env.get_current_run() + 1;
    env.move_path_vec(&steps_of_route(&path), run);
    assert_eq!(env.current_location, end);
    let (_, hits, _, success) = env.calculate_run_score(run);
    assert!(success);
    let _ = hits;
}
