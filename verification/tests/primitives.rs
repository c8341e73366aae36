use maze_library::direction::{direction_between, Direction};
use maze_library::maze::{Maze, MoveError};
use maze_library::maze_gen::maze_gen::init_maze;
use maze_library::walls::WallSet;

const ALL: [Direction; 4] = [
    Direction::North,
    Direction::East,
    Direction::South,
    Direction::West,
];

#[test]
fn opposite_of_each_direction() {
    assert_eq!(Direction::North.opposite_direction(), Direction::South);
    assert_eq!(Direction::South.opposite_direction(), Direction::North);
    assert_eq!(Direction::East.opposite_direction(), Direction::West);
    assert_eq!(Direction::West.opposite_direction(), Direction::East);
    for d in ALL {
        assert_eq!(d.opposite_direction().opposite_direction(), d);
    }
}

#[test]
fn turn_amount_is_zero_one_or_two() {
    for d in ALL {
        assert_eq!(d.turn_amount(&d), 0);
        assert_eq!(d.turn_amount(&d.opposite_direction()), 2);
    }
    assert_eq!(Direction::North.turn_amount(&Direction::East), 1);
    assert_eq!(Direction::East.turn_amount(&Direction::North), 1);
    assert_eq!(Direction::South.turn_amount(&Direction::West), 1);
    assert_eq!(Direction::West.turn_amount(&Direction::North), 1);
}

#[test]
fn relative_direction_rotates_by_the_reference() {
    // Seen by someone heading north nothing changes.
    for d in ALL {
        assert_eq!(d.relative_direction(&Direction::North), d);
    }
    // Right of east is south, straight on is east, left is north, back is west.
    assert_eq!(Direction::East.relative_direction(&Direction::East), Direction::South);
    assert_eq!(Direction::North.relative_direction(&Direction::East), Direction::East);
    assert_eq!(Direction::West.relative_direction(&Direction::East), Direction::North);
    assert_eq!(Direction::South.relative_direction(&Direction::East), Direction::West);
    assert_eq!(Direction::West.relative_direction(&Direction::West), Direction::South);
}

#[test]
fn direction_from_number_wraps_around() {
    assert_eq!(Direction::from(0usize), Direction::North);
    assert_eq!(Direction::from(1usize), Direction::East);
    assert_eq!(Direction::from(2usize), Direction::South);
    assert_eq!(Direction::from(3usize), Direction::West);
    assert_eq!(Direction::from(4usize), Direction::North);
    assert_eq!(Direction::from(7usize), Direction::West);
    assert_eq!(Direction::from_index(6), Direction::South);
    assert_eq!(Direction::North.__hash__(), 0);
    assert_eq!(Direction::West.__hash__(), 3);
}

#[test]
fn direction_from_draw_follows_the_table() {
    assert_eq!(Direction::from_draw(0), Direction::North);
    assert_eq!(Direction::from_draw(1), Direction::South);
    assert_eq!(Direction::from_draw(2), Direction::East);
    assert_eq!(Direction::from_draw(3), Direction::West);
}

#[test]
fn direction_between_cells() {
    assert_eq!(direction_between((1, 1), (1, 2)), Some(Direction::South));
    assert_eq!(direction_between((1, 1), (1, 0)), Some(Direction::North));
    assert_eq!(direction_between((1, 1), (4, 1)), Some(Direction::East));
    assert_eq!(direction_between((1, 1), (0, 1)), Some(Direction::West));
    assert_eq!(direction_between((1, 1), (1, 1)), None);
    assert_eq!(direction_between((1, 1), (2, 2)), None);
}

#[test]
fn wall_set_operations() {
    let mut walls = WallSet::all();
    assert_eq!(walls.len(), 4);
    assert_eq!(walls.open_len(), 0);
    assert!(walls.decides());
    assert!(walls.remove(&Direction::North));
    assert!(!walls.remove(&Direction::North));
    assert!(!walls.contains(&Direction::North));
    assert_eq!(walls.len(), 3);
    assert!(walls.decides());
    walls.remove(&Direction::South);
    // Open to the north and to the south only: a straight passage.
    assert!(!walls.decides());
    walls.remove(&Direction::East);
    assert!(walls.decides());
    assert!(walls.insert(Direction::South));
    // Open to the north and to the east: a bend.
    assert_eq!(walls.open_len(), 2);
    assert!(walls.decides());
    assert_eq!(
        WallSet::from_directions(&[Direction::West, Direction::West]),
        WallSet {
            north: false,
            east: false,
            south: false,
            west: true
        }
    );
    assert_eq!(WallSet::new().len(), 0);
}

#[test]
fn new_maze_is_fully_walled() {
    let maze = Maze::new(4, 3);
    assert_eq!(maze.width, 4);
    assert_eq!(maze.height, 3);
    assert_eq!(maze.number_of_cells(), 12);
    assert_eq!(maze.get_starting_point(), (0, 2));
    assert!(maze.get_end_point().is_empty());
    for x in 0..4 {
        for y in 0..3 {
            let cell = maze.get_cell((x, y));
            assert_eq!(cell.coordinate, (x, y));
            assert_eq!(cell.walls.len(), 4);
        }
    }
}

#[test]
fn set_end_makes_a_block_of_four() {
    let mut maze = Maze::new(9, 9);
    maze.set_end((4, 4));
    assert_eq!(maze.end, vec![(4, 4), (3, 4), (4, 3), (3, 3)]);
    maze.set_2x2_end((2, 6));
    assert_eq!(maze.end, vec![(2, 6), (1, 6), (2, 5), (1, 5)]);
}

#[test]
fn set_end_is_clipped_at_the_rim() {
    let mut maze = Maze::new(5, 5);
    maze.set_end((0, 0));
    assert_eq!(maze.end, vec![(0, 0)]);
    maze.set_end((0, 3));
    assert_eq!(maze.end, vec![(0, 3), (0, 2)]);
    maze.set_end((2, 0));
    assert_eq!(maze.end, vec![(2, 0), (1, 0)]);
    // A centre just off the grid still has part of its block on it.
    maze.set_end((5, 5));
    assert_eq!(maze.end, vec![(4, 4)]);
    maze.set_end((9, 9));
    assert!(maze.end.is_empty());
}

#[test]
fn init_maze_puts_the_end_in_the_middle() {
    let maze = init_maze(9, 9);
    assert_eq!(maze.start, (0, 8));
    assert_eq!(maze.end, vec![(4, 4), (3, 4), (4, 3), (3, 3)]);
    let other = Maze::init_maze(4, 6);
    assert_eq!(other.start, (0, 5));
    assert_eq!(other.end, vec![(2, 3), (1, 3), (2, 2), (1, 2)]);
}

#[test]
fn in_bounds_takes_signed_points() {
    let maze = Maze::new(3, 2);
    assert!(maze.in_bounds((0, 0)));
    assert!(maze.in_bounds((2, 1)));
    assert!(!maze.in_bounds((3, 1)));
    assert!(!maze.in_bounds((2, 2)));
    assert!(!maze.in_bounds((-1, 0)));
    assert!(!maze.in_bounds((0, -1)));
}

#[test]
fn move_from_several_steps() {
    let maze = Maze::new(5, 5);
    assert_eq!(maze.move_from(&Direction::East, &(0, 0), 4), Ok((4, 0)));
    assert_eq!(
        maze.move_from(&Direction::East, &(0, 0), 5),
        Err(MoveError::OutOfBounds)
    );
    assert_eq!(maze.move_from(&Direction::North, &(2, 4), 4), Ok((2, 0)));
    assert_eq!(
        maze.move_from(&Direction::North, &(2, 4), 5),
        Err(MoveError::OutOfBounds)
    );
    assert_eq!(maze.move_from(&Direction::South, &(2, 2), 0), Ok((2, 2)));
    assert_eq!(
        maze.move_from(&Direction::South, &(2, 2), usize::MAX),
        Err(MoveError::OutOfBounds)
    );
    assert_eq!(
        maze.move_from(&Direction::West, &(7, 7), 1),
        Err(MoveError::OutOfBounds)
    );
}

#[test]
fn move_from_with_walls_off_the_grid() {
    let mut maze = Maze::new(3, 3);
    maze.grid[2][1].walls.remove(&Direction::East);
    assert_eq!(
        maze.move_from_with_walls(&Direction::East, &(2, 1), 1),
        Err(MoveError::OutOfBounds)
    );
    assert_eq!(
        maze.move_from_with_walls(&Direction::East, &(5, 5), 1),
        Err(MoveError::OutOfBounds)
    );
    assert_eq!(maze.move_from_with_walls(&Direction::East, &(5, 5), 0), Ok((5, 5)));
}

#[test]
fn move_from_with_walls_stops_at_the_first_wall() {
    let mut maze = Maze::new(4, 1);
    maze.break_walls_for_path(vec![((0, 0), Direction::East)]);
    assert_eq!(maze.move_from_with_walls(&Direction::East, &(0, 0), 1), Ok((1, 0)));
    assert_eq!(
        maze.move_from_with_walls(&Direction::East, &(0, 0), 2),
        Err(MoveError::InvalidDirection)
    );
}

#[test]
fn break_walls_for_path_opens_both_sides() {
    let mut maze = Maze::new(3, 3);
    maze.break_walls_for_path(vec![((1, 1), Direction::North), ((0, 2), Direction::East)]);
    assert!(!maze.has_wall((1, 1), Direction::North));
    assert!(!maze.has_wall((1, 0), Direction::South));
    assert!(!maze.has_wall((0, 2), Direction::East));
    assert!(!maze.has_wall((1, 2), Direction::West));
    let open: usize = (0..3)
        .flat_map(|x| (0..3).map(move |y| (x, y)))
        .map(|c| maze.get_cell(c).walls.open_len())
        .sum();
    assert_eq!(open, 4);
}

#[test]
fn break_walls_for_path_passes_over_what_leaves_the_grid() {
    let mut maze = Maze::new(3, 3);
    let before = maze.clone();
    maze.break_walls_for_path(vec![
        ((0, 0), Direction::North),
        ((2, 2), Direction::East),
        ((7, 7), Direction::West),
        ((3, 0), Direction::West),
    ]);
    assert_eq!(maze.grid, before.grid);
    // An entry that leaves the grid does not stop the ones behind it.
    maze.break_walls_for_path(vec![((0, 0), Direction::West), ((0, 0), Direction::South)]);
    assert!(!maze.has_wall((0, 0), Direction::South));
    assert!(!maze.has_wall((0, 1), Direction::North));
    assert!(maze.has_wall((0, 0), Direction::West));
}

#[test]
fn break_wall_for_path_takes_one_entry() {
    let mut maze = Maze::new(3, 3);
    let path = vec![((0, 0), Direction::East), ((1, 0), Direction::East)];
    maze.break_wall_for_path(&path, 1);
    assert!(maze.has_wall((0, 0), Direction::East));
    assert!(!maze.has_wall((1, 0), Direction::East));
    assert!(!maze.has_wall((2, 0), Direction::West));
}

#[test]
fn break_end_walls_makes_one_room() {
    let mut maze = init_maze(9, 9);
    maze.break_end_walls();
    assert!(!maze.has_wall((4, 4), Direction::North));
    assert!(!maze.has_wall((4, 4), Direction::West));
    assert!(maze.has_wall((4, 4), Direction::East));
    assert!(maze.has_wall((4, 4), Direction::South));
    assert!(!maze.has_wall((3, 3), Direction::East));
    assert!(!maze.has_wall((3, 3), Direction::South));
    assert!(maze.has_wall((3, 3), Direction::North));
    assert!(maze.has_wall((3, 3), Direction::West));
    let open: usize = (0..9)
        .flat_map(|x| (0..9).map(move |y| (x, y)))
        .map(|c| maze.get_cell(c).walls.open_len())
        .sum();
    assert_eq!(open, 8);
}

#[test]
fn set_starting_point_moves_the_start() {
    let mut maze = Maze::new(3, 3);
    maze.set_starting_point((1, 0), Some(&Direction::North));
    assert_eq!(maze.get_starting_point(), (1, 0));
    assert!(!maze.has_wall((1, 0), Direction::North));
    assert!(maze.has_wall((1, 0), Direction::South));
    maze.set_starting_point((2, 2), None);
    assert_eq!(maze.start, (2, 2));
    assert_eq!(maze.get_cell((2, 2)).walls.len(), 4);
    assert!(maze.is_end((5, 5)) == false);
}
