use maze_library::coordinate_map::{CoordinateMap, DirectionMap, VisitCounter, WeightedGraph};
use maze_library::coordinate_set::CoordinateSet;
use maze_library::direction::Direction;
use maze_library::environment::Environment;
use maze_library::environment_config::EnvConfig;
use maze_library::generation::generate_environment;
use maze_library::maze::Maze;
use maze_library::maze_gen::maze_gen_handler::MazeType;
use maze_library::maze_solve::solve_maze_for_animated_dfs;
use maze_library::solving_algorithms::dfs_search::solve_maze_dfs;
use maze_library::solving_algorithms::dijkstra::{
    dijkstra_graph, dijkstra_solve, dijkstra_tree, SolveError,
};
use maze_library::solving_algorithms::routes::calculate_manhattan_distance;
use maze_library::solving_algorithms::solve_handler::{
    select_maze_solve_algorithm, steps_of_route, SolveAlgorithm,
};

const ALL: [Direction; 4] = [
    Direction::North,
    Direction::East,
    Direction::South,
    Direction::West,
];

const ALGORITHMS: [MazeType; 5] = [
    MazeType::Kruzkals,
    MazeType::Wilsons,
    MazeType::RecursiveBacktracker,
    MazeType::Prims,
    MazeType::BinaryTree,
];

/// A corridor from (0, 2) east to (2, 2) and from there north to (2, 0).
fn bent_corridor() -> Maze {
    let mut maze = Maze::new(3, 3);
    maze.break_walls_for_path(vec![
        ((0, 2), Direction::East),
        ((1, 2), Direction::East),
        ((2, 2), Direction::North),
        ((2, 1), Direction::North),
    ]);
    maze
}

fn route_weight(route: &[(usize, usize)]) -> usize {
    route
        .windows(2)
        .map(|pair| calculate_manhattan_distance(pair[0], pair[1]))
        .sum()
}

#[test]
fn direction_map_holds_one_number_for_each_direction() {
    let mut map = DirectionMap::new();
    assert!(map.is_empty());
    assert_eq!(map.insert(Direction::East, 2), None);
    assert_eq!(map.insert(Direction::East, 3), Some(2));
    assert_eq!(map.get(&Direction::East), Some(3));
    assert_eq!(map.get(&Direction::West), None);
    assert!(map.contains_key(&Direction::East));
    assert!(!map.is_empty());
    map.insert(Direction::North, 1);
    assert_eq!(
        map.entries(),
        vec![(Direction::North, 1), (Direction::East, 3)]
    );
}

#[test]
fn coordinate_map_binds_cells() {
    let mut map: CoordinateMap<usize> = VisitCounter::new();
    assert_eq!(map.insert((1, 2), 7), None);
    assert_eq!(map.insert((2, 1), 8), None);
    assert_eq!(map.insert((1, 2), 9), Some(7));
    assert_eq!(map.get(&(1, 2)), Some(&9));
    assert_eq!(map.get(&(2, 1)), Some(&8));
    assert_eq!(map.get(&(0, 0)), None);
    assert!(map.contains_key(&(usize::MAX, usize::MAX)) == false);
    map.insert((usize::MAX, 0), 1);
    map.insert((0, usize::MAX), 2);
    assert_eq!(map.get(&(usize::MAX, 0)), Some(&1));
    assert_eq!(map.get(&(0, usize::MAX)), Some(&2));
    assert_eq!(map.remove(&(2, 1)), Some(8));
    assert_eq!(map.remove(&(2, 1)), None);
    map.clear();
    assert!(!map.contains_key(&(1, 2)));
}

#[test]
fn coordinate_set_counts_its_cells() {
    let mut set = CoordinateSet::new(3, 2);
    assert_eq!(set.len(), 0);
    assert!(set.insert((2, 1)));
    assert!(!set.insert((2, 1)));
    assert!(set.insert((1, 0)));
    assert!(!set.insert((3, 0)));
    assert!(!set.insert((0, 2)));
    assert!(set.contains(&(2, 1)));
    assert!(set.contains(&(1, 0)));
    assert!(!set.contains(&(0, 1)));
    assert!(!set.contains(&(7, 7)));
    assert_eq!(set.len(), 2);
}

#[test]
fn compaction_collapses_corridors() {
    let maze = bent_corridor();
    let graph = maze.convert_to_weighted_graph(None, true);
    // The start, the bend and the dead end are nodes; the cells between them are not.
    assert!(graph.contains_key(&(0, 2)));
    assert!(graph.contains_key(&(2, 2)));
    assert!(graph.contains_key(&(2, 0)));
    assert!(!graph.contains_key(&(1, 2)));
    assert!(!graph.contains_key(&(2, 1)));
    // Closed cells are nodes too, without edges.
    assert_eq!(graph.get(&(0, 0)), Some(&DirectionMap::new()));
    let start = graph.get(&(0, 2)).unwrap();
    assert_eq!(start.entries(), vec![(Direction::East, 2)]);
    let bend = graph.get(&(2, 2)).unwrap();
    assert_eq!(
        bend.entries(),
        vec![(Direction::North, 2), (Direction::West, 2)]
    );
    let end = graph.get(&(2, 0)).unwrap();
    assert_eq!(end.entries(), vec![(Direction::South, 2)]);
}

#[test]
fn compaction_of_every_cell() {
    let maze = bent_corridor();
    let graph = maze.convert_to_weighted_graph(None, false);
    for x in 0..3 {
        for y in 0..3 {
            assert!(graph.contains_key(&(x, y)));
        }
    }
    assert_eq!(
        graph.get(&(1, 2)).unwrap().entries(),
        vec![(Direction::East, 1), (Direction::West, 1)]
    );
    assert_eq!(
        graph.get(&(0, 2)).unwrap().entries(),
        vec![(Direction::East, 1)]
    );
}

#[test]
fn compaction_of_the_visited_cells() {
    let mut maze = bent_corridor();
    maze.set_end((2, 0));
    let mut visited = VisitCounter::new();
    visited.insert((0, 2), 1);
    visited.insert((1, 2), 1);
    visited.insert((2, 2), 1);
    let graph = maze.convert_to_weighted_graph(Some(&visited), true);
    assert!(graph.contains_key(&(0, 2)));
    assert!(graph.contains_key(&(2, 2)));
    // The end region is a node whether visited or not; other cells are not.
    assert!(graph.contains_key(&(2, 0)));
    assert!(graph.contains_key(&(1, 0)));
    assert!(!graph.contains_key(&(0, 0)));
    assert!(!graph.contains_key(&(1, 2)));
    let dense = maze.convert_to_weighted_graph(Some(&visited), false);
    assert!(dense.contains_key(&(1, 2)));
    assert!(!dense.contains_key(&(2, 1)));
}

#[test]
fn follow_path_counts_the_steps_to_the_next_node() {
    let maze = bent_corridor();
    let mut nodes = CoordinateSet::new(3, 3);
    assert_eq!(maze.follow_path(&(0, 2), &Direction::East, &nodes), 2);
    assert_eq!(maze.follow_path(&(0, 2), &Direction::North, &nodes), 0);
    assert_eq!(maze.follow_path(&(2, 2), &Direction::North, &nodes), 2);
    nodes.insert((1, 2));
    assert_eq!(maze.follow_path(&(0, 2), &Direction::East, &nodes), 1);
    assert_eq!(maze.follow_path(&(7, 7), &Direction::East, &nodes), 0);
}

#[test]
fn compacted_edges_end_at_the_first_decision_node() {
    for algorithm in ALGORITHMS {
        for braid in [0, 6] {
            let mut env = generate_environment(&algorithm, 9, 9, braid, Some(17));
            env.maze.break_end_walls();
            let graph = env.maze.convert_to_weighted_graph(None, true);
            let mut edges = 0;
            for x in 0..9 {
                for y in 0..9 {
                    let Some(node) = graph.get(&(x, y)) else {
                        continue;
                    };
                    for d in ALL {
                        let Some(weight) = node.get(&d) else {
                            continue;
                        };
                        assert!(weight > 0);
                        edges += 1;
                        let end = env.maze.move_from_with_walls(&d, &(x, y), weight).unwrap();
                        assert!(graph.contains_key(&end));
                        for shorter in 1..weight {
                            let between =
                                env.maze.move_from_with_walls(&d, &(x, y), shorter).unwrap();
                            assert!(!graph.contains_key(&between));
                        }
                    }
                }
            }
            assert!(edges > 0);
        }
    }
}

#[test]
fn solvers_find_the_way_through_a_corridor() {
    let mut env = Environment::new(EnvConfig::new_rust_config(3, 3));
    env.maze = bent_corridor();
    env.maze.set_end((2, 0));
    env.weighted_graph = env.maze.convert_to_weighted_graph(None, true);
    assert_eq!(solve_maze_dfs(&env, (2, 0)), vec![(0, 2), (2, 2), (2, 0)]);
    assert_eq!(
        dijkstra_solve(&env, (0, 2), (2, 0)),
        Ok(vec![(0, 2), (2, 2), (2, 0)])
    );
    assert_eq!(dijkstra_solve(&env, (2, 0), (2, 0)), Ok(vec![(2, 0)]));
    assert_eq!(solve_maze_dfs(&env, (0, 2)), vec![(0, 2)]);
    let expected = vec![((0, 2), Direction::East), ((2, 2), Direction::North)];
    assert_eq!(
        select_maze_solve_algorithm(&env, &SolveAlgorithm::Dfs),
        Ok(expected.clone())
    );
    assert_eq!(
        select_maze_solve_algorithm(&env, &SolveAlgorithm::Dijkstra),
        Ok(expected.clone())
    );
    assert_eq!(steps_of_route(&vec![(0, 2), (2, 2), (2, 0)]), expected);
    let tree = dijkstra_graph(&env, (0, 2));
    assert_eq!(tree.get(&(0, 2)), Some(&(0, (0, 2))));
    assert_eq!(tree.get(&(2, 2)), Some(&(2, (0, 2))));
    assert_eq!(tree.get(&(2, 0)), Some(&(4, (2, 2))));
    assert_eq!(tree.get(&(1, 2)), None);
    assert_eq!(tree.get(&(0, 0)), None);
}

#[test]
fn solvers_report_what_cannot_be_reached() {
    let mut env = Environment::new(EnvConfig::new_rust_config(3, 3));
    env.maze = bent_corridor();
    env.maze.set_end((0, 0));
    env.weighted_graph = env.maze.convert_to_weighted_graph(None, true);
    assert_eq!(solve_maze_dfs(&env, (0, 0)), vec![]);
    assert_eq!(
        dijkstra_solve(&env, (0, 2), (0, 0)),
        Err(SolveError::Unreachable)
    );
    assert_eq!(
        select_maze_solve_algorithm(&env, &SolveAlgorithm::Dfs),
        Err(SolveError::Unreachable)
    );
    assert_eq!(
        select_maze_solve_algorithm(&env, &SolveAlgorithm::Dijkstra),
        Err(SolveError::Unreachable)
    );
    // Without a graph nothing but the start can be reached.
    env.weighted_graph = WeightedGraph::new();
    assert_eq!(solve_maze_dfs(&env, (2, 0)), vec![]);
    assert_eq!(
        dijkstra_solve(&env, (0, 2), (2, 0)),
        Err(SolveError::Unreachable)
    );
    assert_eq!(dijkstra_solve(&env, (0, 2), (0, 2)), Ok(vec![(0, 2)]));
}

#[test]
fn solvers_pass_over_edges_without_weight_or_off_the_grid() {
    let mut env = Environment::new(EnvConfig::new_rust_config(3, 1));
    let mut edges = DirectionMap::new();
    edges.insert(Direction::West, 0);
    edges.insert(Direction::East, 5);
    edges.insert(Direction::North, 1);
    env.weighted_graph.insert((0, 0), edges);
    assert_eq!(solve_maze_dfs(&env, (2, 0)), vec![]);
    assert_eq!(
        dijkstra_solve(&env, (0, 0), (2, 0)),
        Err(SolveError::Unreachable)
    );
    let mut better = DirectionMap::new();
    better.insert(Direction::East, 2);
    env.weighted_graph.insert((0, 0), better);
    assert_eq!(solve_maze_dfs(&env, (2, 0)), vec![(0, 0), (2, 0)]);
    assert_eq!(dijkstra_solve(&env, (0, 0), (2, 0)), Ok(vec![(0, 0), (2, 0)]));
}

#[test]
fn dijkstra_takes_the_shorter_of_two_ways() {
    // A ring around the closed cell in the middle, cut open between (0, 1) and (0, 2):
    // from (0, 2) the way to (0, 1) leads round the ring, to (2, 2) it is short.
    let mut env = Environment::new(EnvConfig::new_rust_config(3, 3));
    env.maze.break_walls_for_path(vec![
        ((0, 0), Direction::East),
        ((1, 0), Direction::East),
        ((2, 0), Direction::South),
        ((2, 1), Direction::South),
        ((2, 2), Direction::West),
        ((1, 2), Direction::West),
        ((0, 0), Direction::South),
        ((0, 1), Direction::South),
    ]);
    env.weighted_graph = env.maze.convert_to_weighted_graph(None, true);
    let short = dijkstra_solve(&env, (0, 2), (2, 0)).unwrap();
    assert_eq!(route_weight(&short), 4);
    assert_eq!(short.first(), Some(&(0, 2)));
    assert_eq!(short.last(), Some(&(2, 0)));
    let found = solve_maze_dfs(&env, (2, 0));
    assert_eq!(found.first(), Some(&(0, 2)));
    assert_eq!(found.last(), Some(&(2, 0)));
    assert!(route_weight(&short) <= route_weight(&found));
}

#[test]
fn dijkstra_breaks_ties_by_the_order_of_its_queue() {
    // Four cells in a ring: from (0, 1) two ways of two steps lead to (1, 0), over
    // (0, 0) and over (1, 1). Both lie at distance one; (0, 0) lies further west and
    // is settled first, so the route leads over it.
    let mut env = Environment::new(EnvConfig::new_rust_config(2, 2));
    env.maze.set_end((1, 0));
    env.maze.break_walls_for_path(vec![
        ((0, 0), Direction::East),
        ((0, 0), Direction::South),
        ((1, 1), Direction::North),
        ((1, 1), Direction::West),
    ]);
    env.weighted_graph = env.maze.convert_to_weighted_graph(None, false);
    let tree = dijkstra_graph(&env, (0, 1));
    assert_eq!(tree.get(&(0, 1)), Some(&(0, (0, 1))));
    assert_eq!(tree.get(&(0, 0)), Some(&(1, (0, 1))));
    assert_eq!(tree.get(&(1, 1)), Some(&(1, (0, 1))));
    assert_eq!(tree.get(&(1, 0)), Some(&(2, (0, 0))));
    assert_eq!(
        dijkstra_solve(&env, (0, 1), (1, 0)),
        Ok(vec![(0, 1), (0, 0), (1, 0)])
    );
    // From the other side the cell in the west column comes first again.
    let back = dijkstra_graph(&env, (1, 0));
    assert_eq!(back.get(&(0, 1)), Some(&(2, (0, 0))));
}

#[test]
fn dijkstra_is_never_longer_than_depth_first_search() {
    for algorithm in ALGORITHMS {
        for seed in 0..6u64 {
            for braid in [0, 4, 12] {
                let mut env = generate_environment(&algorithm, 9, 9, braid, Some(seed));
                env.maze.break_end_walls();
                env.weighted_graph = env.maze.convert_to_weighted_graph(None, true);
                let end = env.maze.end[0];
                let found = solve_maze_dfs(&env, end);
                let short = dijkstra_solve(&env, env.maze.start, end).unwrap();
                assert_eq!(found.first(), Some(&env.maze.start));
                assert_eq!(found.last(), Some(&end));
                assert_eq!(short.first(), Some(&env.maze.start));
                assert_eq!(short.last(), Some(&end));
                assert!(route_weight(&short) <= route_weight(&found));
                // Every step of both routes is an edge of the graph.
                for route in [&found, &short] {
                    for (from, d) in steps_of_route(route) {
                        assert!(env.weighted_graph.get(&from).unwrap().contains_key(&d));
                    }
                }
            }
        }
    }
}

#[test]
fn the_search_through_the_cells_is_traced() {
    let mut maze = bent_corridor();
    maze.set_end((2, 0));
    assert_eq!(
        solve_maze_for_animated_dfs(&maze),
        vec![
            ((0, 2), 0),
            ((1, 2), 1),
            ((2, 2), 2),
            ((2, 1), 3),
            ((2, 0), 4)
        ]
    );
    // The end region behind walls is not found.
    maze.set_end((0, 0));
    assert_eq!(solve_maze_for_animated_dfs(&maze), vec![]);
    // The start inside the end region is found at once.
    maze.set_end((0, 2));
    assert_eq!(solve_maze_for_animated_dfs(&maze), vec![((0, 2), 0)]);
    // In a generated maze every cell is visited once at most, and the last is the
    // first of the end region.
    let mut env = generate_environment(&MazeType::Prims, 9, 9, 5, Some(3));
    env.maze.break_end_walls();
    let trace = solve_maze_for_animated_dfs(&env.maze);
    assert_eq!(trace[0], ((0, 8), 0));
    assert!(env.maze.is_end(trace.last().unwrap().0));
    for (i, (cell, depth)) in trace.iter().enumerate() {
        assert!(*depth <= i);
        assert!(i + 1 == trace.len() || !env.maze.is_end(*cell));
        assert!(!trace[..i].iter().any(|(other, _)| other == cell));
        // Every cell but the start was found from one visited before, one level up.
        let found = trace[..i].iter().any(|(from, level)| {
            level + 1 == *depth
                && ALL
                    .iter()
                    .any(|d| env.maze.move_from_with_walls(d, from, 1) == Ok(*cell))
        });
        assert_eq!(found, i > 0);
    }
}

#[test]
fn manhattan_distance_adds_both_axes() {
    assert_eq!(calculate_manhattan_distance((1, 5), (4, 1)), 7);
    assert_eq!(calculate_manhattan_distance((4, 1), (1, 5)), 7);
    assert_eq!(calculate_manhattan_distance((3, 3), (3, 3)), 0);
}

#[test]
fn the_tree_of_shortest_routes_keeps_wide_distances() {
    let mut env = Environment::new(EnvConfig::new_rust_config(3, 3));
    env.maze = bent_corridor();
    env.maze.set_end((2, 0));
    env.weighted_graph = env.maze.convert_to_weighted_graph(None, true);
    let tree = dijkstra_tree(&env, (0, 2));
    assert_eq!(tree.get(&(0, 2)), Some(&(0u128, (0, 2))));
    assert_eq!(tree.get(&(2, 2)), Some(&(2u128, (0, 2))));
    assert_eq!(tree.get(&(2, 0)), Some(&(4u128, (2, 2))));
    assert_eq!(tree.get(&(1, 2)), None);
    // The narrow map holds the same entries.
    let narrow = dijkstra_graph(&env, (0, 2));
    for x in 0..3 {
        for y in 0..3 {
            assert_eq!(
                narrow.get(&(x, y)).map(|(distance, before)| (*distance as u128, *before)),
                tree.get(&(x, y)).copied()
            );
        }
    }
}

#[test]
fn edges_far_longer_than_the_grid_are_no_edges() {
    // An edge whose weight would lead off the grid is not followed, however large.
    let mut env = Environment::new(EnvConfig::new_rust_config(3, 1));
    env.maze.break_walls_for_path(vec![((0, 0), Direction::East), ((1, 0), Direction::East)]);
    let mut far = DirectionMap::new();
    far.insert(Direction::East, usize::MAX);
    let mut graph = WeightedGraph::new();
    graph.insert((0, 0), far);
    env.weighted_graph = graph;
    assert_eq!(dijkstra_solve(&env, (0, 0), (2, 0)), Err(SolveError::Unreachable));
    assert_eq!(dijkstra_solve(&env, (0, 0), (0, 0)), Ok(vec![(0, 0)]));
}
