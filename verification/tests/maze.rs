use maze_library::direction::Direction;
use maze_library::maze::{Maze, MoveError};
use maze_library::walls::WallSet;

#[test]
fn test_move_from_valid_directions() {
    let maze = Maze::new(3, 3);
    let start = (1, 1);

    assert_eq!(maze.move_from(&Direction::North, &start, 1), Ok((1, 0)));
    assert_eq!(maze.move_from(&Direction::South, &start, 1), Ok((1, 2)));
    assert_eq!(maze.move_from(&Direction::East, &start, 1), Ok((2, 1)));
    assert_eq!(maze.move_from(&Direction::West, &start, 1), Ok((0, 1)));
}

#[test]
fn test_move_from_out_of_bounds() {
    let maze = Maze::new(3, 3);

    assert_eq!(
        maze.move_from(&Direction::North, &(0, 0), 1),
        Err(MoveError::OutOfBounds)
    );
    assert_eq!(
        maze.move_from(&Direction::West, &(0, 0), 1),
        Err(MoveError::OutOfBounds)
    );
    assert_eq!(
        maze.move_from(&Direction::South, &(1, 2), 1),
        Err(MoveError::OutOfBounds)
    );
    assert_eq!(
        maze.move_from(&Direction::East, &(2, 1), 1),
        Err(MoveError::OutOfBounds)
    );
}

#[test]
fn test_move_from_with_walls_blocked() {
    let mut maze = Maze::new(3, 3);
    let coord = (1, 1);
    let cell = &mut maze.grid[coord.0][coord.1];
    cell.walls = WallSet::from_directions(&[
        Direction::North,
        Direction::South,
        Direction::East,
        Direction::West,
    ]);

    for dir in &[
        Direction::North,
        Direction::South,
        Direction::East,
        Direction::West,
    ] {
        assert_eq!(
            maze.move_from_with_walls(dir, &coord, 1),
            Err(MoveError::InvalidDirection)
        );
    }
}

#[test]
fn test_move_from_with_walls_unblocked() {
    let mut maze = Maze::new(4, 4);
    let coord = (1, 1);

    // Remove east wall to allow movement eastward
    maze.grid[1][1].walls.remove(&Direction::East);
    maze.grid[2][1].walls.remove(&Direction::West); // Also remove opposite wall
    maze.grid[2][1].walls.remove(&Direction::East);
    maze.grid[3][1].walls.remove(&Direction::West); // Also remove opposite wall

    let result = maze.move_from_with_walls(&Direction::East, &coord, 2);
    assert_eq!(result, Ok((3, 1)));
}
