use maze::consts::{update_cell_size, DEFAULT_CELL_SIZE, MIN_CELL_SIZE};
use maze::maze::{Maze, MazeError};
use maze::Direction;

#[test]
fn directions_have_their_bits() {
    assert_eq!(Direction::UP.bit(), 1);
    assert_eq!(Direction::RIGHT.bit(), 2);
    assert_eq!(Direction::DOWN.bit(), 4);
    assert_eq!(Direction::LEFT.bit(), 8);
}

#[test]
fn opposite_points_back() {
    assert_eq!(Direction::UP.opposite(), Direction::DOWN);
    assert_eq!(Direction::DOWN.opposite(), Direction::UP);
    assert_eq!(Direction::LEFT.opposite(), Direction::RIGHT);
    assert_eq!(Direction::RIGHT.opposite(), Direction::LEFT);
}

#[test]
fn travel_moves_one_step() {
    assert_eq!(Direction::UP.travel(3, 4), (3, 3));
    assert_eq!(Direction::DOWN.travel(3, 4), (3, 5));
    assert_eq!(Direction::LEFT.travel(3, 4), (2, 4));
    assert_eq!(Direction::RIGHT.travel(3, 4), (4, 4));
}

#[test]
fn travel_and_back_returns() {
    for d in [Direction::UP, Direction::RIGHT, Direction::DOWN, Direction::LEFT] {
        let (x, y) = d.travel(5, 7);
        assert_eq!(d.opposite().travel(x, y), (5, 7));
    }
}

#[test]
fn new_maze_is_blank() {
    let maze = Maze::new(4, 3);
    assert_eq!(maze.get_bounds(), (4, 3));
    for y in 0..3 {
        for x in 0..4 {
            assert_eq!(maze.get(x, y), Ok(0));
        }
    }
    for i in 0..12 {
        assert_eq!(maze.geti(i), Ok(0));
    }
}

#[test]
fn get_outside_the_maze_is_out_of_bounds() {
    let maze = Maze::new(4, 3);
    assert_eq!(maze.get(4, 0), Err(MazeError::OutOfBounds));
    assert_eq!(maze.get(0, 3), Err(MazeError::OutOfBounds));
    assert_eq!(maze.get(usize::MAX, usize::MAX), Err(MazeError::OutOfBounds));
    assert_eq!(maze.geti(12), Err(MazeError::OutOfBounds));
    assert_eq!(maze.geti(11), Ok(0));
}

#[test]
fn index_and_coordinate_are_row_major() {
    let maze = Maze::new(4, 3);
    assert_eq!(maze.xy_to_i(0, 0), Ok(0));
    assert_eq!(maze.xy_to_i(3, 0), Ok(3));
    assert_eq!(maze.xy_to_i(1, 2), Ok(9));
    assert_eq!(maze.xy_to_i(4, 0), Err(MazeError::OutOfBounds));
    assert_eq!(maze.xy_to_i(0, 3), Err(MazeError::OutOfBounds));
    assert_eq!(maze.i_to_xy(9), Ok((1, 2)));
    assert_eq!(maze.i_to_xy(11), Ok((3, 2)));
    assert_eq!(maze.i_to_xy(12), Err(MazeError::OutOfBounds));
    for i in 0..12 {
        let (x, y) = maze.i_to_xy(i).unwrap();
        assert_eq!(maze.xy_to_i(x, y), Ok(i));
    }
}

#[test]
fn open_sets_one_bit_of_one_cell() {
    let mut maze = Maze::new(3, 3);
    assert_eq!(maze.open(1, 1, Direction::RIGHT), Ok(()));
    assert_eq!(maze.get(1, 1), Ok(0b0010));
    assert_eq!(maze.get(2, 1), Ok(0));
    assert_eq!(maze.open(1, 1, Direction::UP), Ok(()));
    assert_eq!(maze.get(1, 1), Ok(0b0011));
    assert_eq!(maze.open(1, 1, Direction::UP), Ok(()));
    assert_eq!(maze.get(1, 1), Ok(0b0011));
    assert_eq!(maze.open(3, 1, Direction::UP), Err(MazeError::OutOfBounds));
}

#[test]
fn close_clears_one_bit_of_one_cell() {
    let mut maze = Maze::new(3, 3);
    for d in [Direction::UP, Direction::RIGHT, Direction::DOWN, Direction::LEFT] {
        maze.open(1, 1, d).unwrap();
    }
    assert_eq!(maze.get(1, 1), Ok(0b1111));
    assert_eq!(maze.close(1, 1, Direction::UP), Ok(()));
    assert_eq!(maze.get(1, 1), Ok(0b1110));
    assert_eq!(maze.close(1, 1, Direction::LEFT), Ok(()));
    assert_eq!(maze.get(1, 1), Ok(0b0110));
    assert_eq!(maze.close(1, 1, Direction::LEFT), Ok(()));
    assert_eq!(maze.get(1, 1), Ok(0b0110));
    assert_eq!(maze.close(1, 3, Direction::LEFT), Err(MazeError::OutOfBounds));
}

#[test]
fn delete_clears_the_cell() {
    let mut maze = Maze::new(2, 2);
    maze.carve(0, 0, Direction::RIGHT).unwrap();
    maze.carve(0, 0, Direction::DOWN).unwrap();
    assert_eq!(maze.get(0, 0), Ok(0b0110));
    assert_eq!(maze.delete(0, 0), Ok(()));
    assert_eq!(maze.get(0, 0), Ok(0));
    assert_eq!(maze.get(1, 0), Ok(0b1000));
    assert_eq!(maze.delete(2, 0), Err(MazeError::OutOfBounds));
}

#[test]
fn carve_opens_both_ends() {
    let mut maze = Maze::new(3, 3);
    assert_eq!(maze.carve(1, 1, Direction::DOWN), Ok(()));
    assert_eq!(maze.get(1, 1), Ok(0b0100));
    assert_eq!(maze.get(1, 2), Ok(0b0001));
    assert_eq!(maze.carve(1, 1, Direction::LEFT), Ok(()));
    assert_eq!(maze.get(1, 1), Ok(0b1100));
    assert_eq!(maze.get(0, 1), Ok(0b0010));
}

#[test]
fn carve_makes_the_two_cells_travellable_neighbors() {
    for d in [Direction::UP, Direction::RIGHT, Direction::DOWN, Direction::LEFT] {
        let mut maze = Maze::new(3, 3);
        maze.carve(1, 1, d).unwrap();
        let target = d.travel(1, 1);
        let (from_cell, n) = maze.get_travellable_neighbors((1, 1));
        assert_eq!(n, 1);
        assert_eq!(from_cell[0], target);
        let (from_target, m) = maze.get_travellable_neighbors(target);
        assert_eq!(m, 1);
        assert_eq!(from_target[0], (1, 1));
    }
}

#[test]
fn carve_towards_the_outside_is_out_of_bounds() {
    let mut maze = Maze::new(2, 2);
    assert_eq!(maze.carve(0, 0, Direction::UP), Err(MazeError::OutOfBounds));
    assert_eq!(maze.carve(0, 0, Direction::LEFT), Err(MazeError::OutOfBounds));
    assert_eq!(maze.carve(1, 1, Direction::RIGHT), Err(MazeError::OutOfBounds));
    assert_eq!(maze.carve(1, 1, Direction::DOWN), Err(MazeError::OutOfBounds));
    assert_eq!(maze.carve(2, 0, Direction::LEFT), Err(MazeError::OutOfBounds));
    for i in 0..4 {
        assert_eq!(maze.geti(i), Ok(0));
    }
}

#[test]
fn neighbors_are_listed_left_right_up_down() {
    let maze = Maze::new(3, 3);
    assert_eq!(
        maze.get_neighbors((1, 1)),
        vec![
            (0, 1, Direction::LEFT),
            (2, 1, Direction::RIGHT),
            (1, 0, Direction::UP),
            (1, 2, Direction::DOWN)
        ]
    );
    assert_eq!(maze.get_neighbors((0, 0)), vec![(1, 0, Direction::RIGHT), (0, 1, Direction::DOWN)]);
    assert_eq!(maze.get_neighbors((2, 2)), vec![(1, 2, Direction::LEFT), (2, 1, Direction::UP)]);
    assert_eq!(maze.get_neighbors((3, 0)), vec![]);
    assert_eq!(Maze::new(1, 1).get_neighbors((0, 0)), vec![]);
}

#[test]
fn travellable_neighbors_are_listed_up_right_down_left() {
    let mut maze = Maze::new(3, 3);
    for d in [Direction::LEFT, Direction::DOWN, Direction::RIGHT, Direction::UP] {
        maze.carve(1, 1, d).unwrap();
    }
    let (cells, n) = maze.get_travellable_neighbors((1, 1));
    assert_eq!(n, 4);
    assert_eq!(cells, [(1, 0), (2, 1), (1, 2), (0, 1)]);
    let (cells, n) = maze.get_travellable_neighbors((0, 0));
    assert_eq!(n, 0);
    assert_eq!(cells, [(0, 0); 4]);
    let (cells, n) = maze.get_travellable_neighbors((1, 0));
    assert_eq!(n, 1);
    assert_eq!(cells, [(1, 1), (0, 0), (0, 0), (0, 0)]);
    let (_, n) = maze.get_travellable_neighbors((5, 5));
    assert_eq!(n, 0);
}

#[test]
fn travellable_neighbors_ignore_openings_towards_the_outside() {
    let mut maze = Maze::new(2, 2);
    for d in [Direction::LEFT, Direction::DOWN, Direction::RIGHT, Direction::UP] {
        maze.open(0, 0, d).unwrap();
    }
    let (cells, n) = maze.get_travellable_neighbors((0, 0));
    assert_eq!(n, 2);
    assert_eq!(cells[0], (1, 0));
    assert_eq!(cells[1], (0, 1));
}

#[test]
fn has_neighbor_knows_the_edges() {
    let maze = Maze::new(2, 3);
    assert!(!maze.has_neighbor((0, 0), Direction::UP));
    assert!(!maze.has_neighbor((0, 0), Direction::LEFT));
    assert!(maze.has_neighbor((0, 0), Direction::RIGHT));
    assert!(maze.has_neighbor((0, 0), Direction::DOWN));
    assert!(!maze.has_neighbor((1, 2), Direction::RIGHT));
    assert!(!maze.has_neighbor((1, 2), Direction::DOWN));
    assert!(!maze.has_neighbor((2, 0), Direction::LEFT));
}

#[test]
fn cell_size_is_the_screen_size_over_the_mean_bound() {
    assert_eq!(update_cell_size(&(32, 32)), 16);
    assert_eq!(update_cell_size(&(10, 30)), 25);
    assert_eq!(update_cell_size(&(3, 4)), 170);
    assert_eq!(update_cell_size(&(1, 1)), 512);
    assert_eq!(update_cell_size(&(usize::MAX, usize::MAX)), MIN_CELL_SIZE);
    assert_eq!(DEFAULT_CELL_SIZE, 16);
}

#[test]
fn cell_size_is_never_under_five() {
    assert_eq!(update_cell_size(&(100, 104)), 5);
    assert_eq!(update_cell_size(&(102, 103)), 5);
    assert_eq!(update_cell_size(&(200, 200)), 5);
    assert_eq!(update_cell_size(&(85, 85)), 6);
}
