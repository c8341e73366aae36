use maze_library::direction::Direction;
use maze_library::environment::{Action, Environment};
use maze_library::environment_config::EnvConfig;
use maze_library::exploring_algorithms::explore_handler::ExploreAlgorithm;
use maze_library::file_names::{extract_prefix, try_extract_prefix, NUMBERED_FILE};
use maze_library::maze_gen::maze_gen_handler::MazeType;
use maze_library::screens::{calculate_number_of_potential_screens, is_array_all_true};
use maze_library::solving_algorithms::solve_handler::{steps_of_route, SolveAlgorithm};
use maze_library::text::{is_name, parse_decimal};
use std::str::FromStr;

#[test]
fn generators_go_by_name() {
    assert_eq!(MazeType::from_str("kruzkals"), Ok(MazeType::Kruzkals));
    assert_eq!(MazeType::from_str("Wilsons"), Ok(MazeType::Wilsons));
    assert_eq!(
        MazeType::from_str("RecursiveBacktracker"),
        Ok(MazeType::RecursiveBacktracker)
    );
    assert_eq!(MazeType::from_str("PRIMS"), Ok(MazeType::Prims));
    assert_eq!("binarytree".parse::<MazeType>(), Ok(MazeType::BinaryTree));
    assert_eq!(MazeType::from_str("binary-tree"), Err(()));
    assert_eq!(MazeType::from_str(""), Err(()));
    assert_eq!(MazeType::from_name("BinaryTree"), Some(MazeType::BinaryTree));
    assert_eq!(MazeType::from_name("kruskals"), None);
    assert_eq!(MazeType::default(), MazeType::BinaryTree);
}

#[test]
fn solvers_and_explorers_go_by_name() {
    assert_eq!(SolveAlgorithm::from_str("DFS"), Ok(SolveAlgorithm::Dfs));
    assert_eq!(
        SolveAlgorithm::from_str("Dijkstra"),
        Ok(SolveAlgorithm::Dijkstra)
    );
    assert_eq!(SolveAlgorithm::from_str("bfs"), Err(()));
    assert_eq!(
        ExploreAlgorithm::from_str("Wall-Following"),
        Ok(ExploreAlgorithm::WallFollowing)
    );
    assert_eq!(ExploreAlgorithm::from_str("none"), Ok(ExploreAlgorithm::Nothing));
    assert_eq!(ExploreAlgorithm::from_str("wallfollowing"), Err(()));
}

#[test]
fn directions_have_names() {
    assert_eq!(Direction::North.name(), "North");
    assert_eq!(Direction::East.name(), "East");
    assert_eq!(Direction::South.name(), "South");
    assert_eq!(Direction::West.name(), "West");
}

#[test]
fn names_are_compared_letter_by_letter() {
    assert!(is_name(&"prims".to_string(), "prims"));
    assert!(!is_name(&"prims".to_string(), "prim"));
    assert!(!is_name(&"Prims".to_string(), "prims"));
}

#[test]
fn decimal_numbers_are_read_digit_by_digit() {
    assert_eq!(parse_decimal(b"0"), Some(0));
    assert_eq!(parse_decimal(b"42"), Some(42));
    assert_eq!(parse_decimal(b"0012"), Some(12));
    assert_eq!(parse_decimal(b""), None);
    assert_eq!(parse_decimal(b"4a"), None);
    assert_eq!(parse_decimal(b"+4"), None);
    assert_eq!(parse_decimal(b"-4"), None);
    assert_eq!(
        parse_decimal(usize::MAX.to_string().as_bytes()),
        Some(usize::MAX)
    );
    assert_eq!(parse_decimal(b"18446744073709551616"), None);
    assert_eq!(parse_decimal(b"99999999999999999999999"), None);
}

#[test]
fn numbered_file_names_split_before_the_number() {
    assert_eq!(
        try_extract_prefix("mazes/maze12.json"),
        Some(("mazes/maze".to_string(), 12))
    );
    assert_eq!(
        extract_prefix("../out/run_7/env_003.json"),
        ("../out/run_7/env_".to_string(), 3)
    );
    assert_eq!(try_extract_prefix("./a1b23.json"), Some(("./a1b".to_string(), 23)));
    assert_eq!(try_extract_prefix("d/123.json"), Some(("d/".to_string(), 123)));
    // Without a directory, without a number, or with another ending it is no such name.
    assert_eq!(try_extract_prefix("maze12.json"), None);
    assert_eq!(try_extract_prefix("mazes/maze.json"), None);
    assert_eq!(try_extract_prefix("mazes/maze12.txt"), None);
    assert_eq!(try_extract_prefix("mazes/my maze12.json"), None);
    assert_eq!(try_extract_prefix("mazes/maze12.json "), None);
    // A number too large to count to, or written in other digits.
    assert_eq!(try_extract_prefix("m/e99999999999999999999999.json"), None);
    assert_eq!(try_extract_prefix("m/e\u{0663}.json"), None);
    assert!(NUMBERED_FILE.ends_with("json$"));
}

#[test]
fn actions_name_directions_by_number() {
    let mut env = Environment::new(EnvConfig::new_rust_config(3, 1));
    env.maze.break_walls_for_path(vec![((0, 0), Direction::East), ((1, 0), Direction::East)]);
    env.weighted_graph = env.maze.convert_to_weighted_graph(None, true);
    // The end region, the cells (1, 0) and (0, 0), are nodes: the way east from
    // the start leads one cell to the dead end.
    env.current_location = (1, 0);
    assert_eq!(
        env.take_action(Action {
            direction: 1,
            run: 2
        }),
        1
    );
    assert_eq!(env.current_location, (2, 0));
    assert_eq!(env.get_current_run(), 2);
    assert_eq!(
        env.take_action(Action {
            direction: 7,
            run: 2
        }),
        1
    );
    assert_eq!(
        env.take_action(Action {
            direction: 3,
            run: 2
        }),
        1
    );
    assert_eq!(env.current_location, (0, 0));
    assert_eq!(
        env.take_action(Action {
            direction: 4,
            run: 3
        }),
        0
    );
    assert_eq!(env.path_followed.last(), Some(&((0, 0), 3)));
}

#[test]
fn clones_are_equal_and_apart() {
    let mut env = Environment::new(EnvConfig::new_rust_config(3, 1));
    env.maze.break_walls_for_path(vec![((0, 0), Direction::East)]);
    env.weighted_graph = env.maze.convert_to_weighted_graph(None, true);
    let copy = env.clone();
    env.move_from_current(&Direction::East, 1);
    assert_eq!(copy.current_location, (0, 0));
    assert_eq!(copy.path_followed, vec![((0, 0), 0)]);
    assert_eq!(copy.maze.grid, env.maze.grid);
    assert_eq!(copy.maze.end, env.maze.end);
    assert_eq!(copy.visited.get(&(1, 0)), None);
    assert_eq!(env.visited.get(&(1, 0)), Some(&1));
    assert_eq!(
        copy.weighted_graph.get(&(0, 0)),
        env.weighted_graph.get(&(0, 0))
    );
    assert!(copy.weighted_graph.get(&(0, 0)).is_some());
}

#[test]
fn routes_without_steps() {
    assert_eq!(steps_of_route(&vec![]), vec![]);
    assert_eq!(steps_of_route(&vec![(1, 1)]), vec![]);
    // Cells that do not lie in line count as going north.
    assert_eq!(
        steps_of_route(&vec![(1, 1), (2, 2)]),
        vec![((1, 1), Direction::North)]
    );
}

#[test]
fn screens_are_laid_out_in_rows_and_columns() {
    assert_eq!(
        calculate_number_of_potential_screens((1900, 1000), (315, 315)),
        (3, 6)
    );
    assert_eq!(calculate_number_of_potential_screens((100, 50), (200, 10)), (5, 0));
    assert!(is_array_all_true(&[]));
    assert!(is_array_all_true(&[true, true]));
    assert!(!is_array_all_true(&[true, false, true]));
}

#[test]
fn lowered_names_are_taken_as_they_are() {
    assert_eq!(MazeType::from_lowered_name("kruzkals"), Some(MazeType::Kruzkals));
    assert_eq!(MazeType::from_lowered_name("wilsons"), Some(MazeType::Wilsons));
    assert_eq!(
        MazeType::from_lowered_name("recursivebacktracker"),
        Some(MazeType::RecursiveBacktracker)
    );
    assert_eq!(MazeType::from_lowered_name("prims"), Some(MazeType::Prims));
    assert_eq!(MazeType::from_lowered_name("binarytree"), Some(MazeType::BinaryTree));
    assert_eq!(MazeType::from_lowered_name("Kruzkals"), None);
    assert_eq!(MazeType::from_lowered_name("prim"), None);
    assert_eq!(MazeType::from_lowered_name(""), None);
    assert_eq!(SolveAlgorithm::from_lowered_name("dfs"), Some(SolveAlgorithm::Dfs));
    assert_eq!(SolveAlgorithm::from_lowered_name("dijkstra"), Some(SolveAlgorithm::Dijkstra));
    assert_eq!(SolveAlgorithm::from_lowered_name("DFS"), None);
    assert_eq!(
        ExploreAlgorithm::from_lowered_name("wall-following"),
        Some(ExploreAlgorithm::WallFollowing)
    );
    assert_eq!(ExploreAlgorithm::from_lowered_name("none"), Some(ExploreAlgorithm::Nothing));
    assert_eq!(ExploreAlgorithm::from_lowered_name("None"), None);
}
