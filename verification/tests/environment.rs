use maze_library::coordinate_map::DirectionMap;
use maze_library::direction::Direction;
use maze_library::environment::Environment;
use maze_library::environment_config::{EnvConfig, PythonConfig};

#[test]
fn test_movement() {
    let mut env = Environment::new(EnvConfig {
        maze_width: 10,
        maze_height: 10,
        python_config: PythonConfig::default(),
    });

    // Allow eastward movement for 2 steps
    env.maze.grid[0][9].walls.remove(&Direction::East);
    env.maze.grid[1][9].walls.remove(&Direction::West);
    env.maze.grid[1][9].walls.remove(&Direction::East);
    env.maze.grid[2][9].walls.remove(&Direction::West);

    // Update agent's weighted graph to allow 2 eastward steps
    let mut east_map = DirectionMap::new();
    east_map.insert(Direction::East, 2);
    env.weighted_graph.insert((0, 9), east_map);
    env.current_location = (0, 9);

    let steps_taken = env.move_from_current(&Direction::East, 0);

    assert_eq!(steps_taken, 2);
    assert_eq!(env.current_location, (2, 9));
    assert_eq!(env.path_followed.len(), 3);
}
