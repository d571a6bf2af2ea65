use maze::maze::codec::{decode_maze, encode_maze};
use maze::maze::{Maze, MazeError};
use maze::Direction;

fn maze_of(width: u16, height: u16, cells: &[u8]) -> Maze {
    let mut maze = Maze::new(width, height);
    for (i, cell) in cells.iter().enumerate() {
        let (x, y) = maze.i_to_xy(i).unwrap();
        for d in [Direction::UP, Direction::RIGHT, Direction::DOWN, Direction::LEFT] {
            if cell & d.bit() != 0 {
                maze.open(x, y, d).unwrap();
            }
        }
    }
    maze
}

fn cells_of(maze: &Maze) -> Vec<u8> {
    let (w, h) = maze.get_bounds();
    (0..w * h).map(|i| maze.geti(i).unwrap()).collect()
}

#[test]
fn encodes_the_perimeter_of_two_by_two() {
    let maze = maze_of(2, 2, &[0b0110, 0b1001, 0b0011, 0b1100]);
    assert_eq!(encode_maze(&maze), vec![0x00, 0x02, 0b0110_1001, 0b0011_1100]);
    assert_eq!(maze.as_str(), vec![0x00, 0x02, 0x69, 0x3c]);
}

#[test]
fn decodes_one_packed_byte_as_one_row() {
    let maze = decode_maze(&[0x00, 0x02, 0xFF]).unwrap();
    assert_eq!(maze.get_bounds(), (2, 1));
    assert_eq!(maze.get(0, 0), Ok(0xF));
    assert_eq!(maze.get(1, 0), Ok(0xF));
    let again = Maze::from_data(&[0x00, 0x02, 0xFF]).unwrap();
    assert_eq!(again.get_bounds().1, 1);
}

#[test]
fn encodes_the_width_high_byte_first() {
    let maze = Maze::new(300, 1);
    let bytes = encode_maze(&maze);
    assert_eq!(bytes.len(), 2 + 150);
    assert_eq!(bytes[0], 0x01);
    assert_eq!(bytes[1], 0x2c);
}

#[test]
fn odd_cell_count_pads_the_last_byte_with_zero() {
    let maze = maze_of(3, 1, &[0x1, 0x2, 0x4]);
    assert_eq!(encode_maze(&maze), vec![0x00, 0x03, 0x12, 0x40]);
    let back = decode_maze(&[0x00, 0x03, 0x12, 0x40]).unwrap();
    assert_eq!(back.get_bounds(), (3, 1));
    assert_eq!(cells_of(&back), vec![0x1, 0x2, 0x4]);
}

#[test]
fn decode_after_encode_gives_the_maze_back() {
    let cells = [0x6, 0xA, 0xC, 0x5, 0x0, 0x5, 0x3, 0xA, 0x9, 0x0, 0x0, 0x1];
    let maze = maze_of(3, 4, &cells);
    let back = decode_maze(&encode_maze(&maze)).unwrap();
    assert_eq!(back.get_bounds(), (3, 4));
    assert_eq!(cells_of(&back), cells.to_vec());
    let odd = maze_of(3, 3, &cells[..9]);
    let back = decode_maze(&encode_maze(&odd)).unwrap();
    assert_eq!(back.get_bounds(), (3, 3));
    assert_eq!(cells_of(&back), cells[..9].to_vec());
}

#[test]
fn odd_cell_count_with_blank_last_cell_comes_back() {
    let cells = [0x2, 0x8, 0x0];
    let maze = maze_of(3, 1, &cells);
    let back = decode_maze(&encode_maze(&maze)).unwrap();
    assert_eq!(back.get_bounds(), (3, 1));
    assert_eq!(cells_of(&back), cells.to_vec());
}

#[test]
fn even_cell_count_with_blank_last_cell_loses_that_cell() {
    let column = maze_of(1, 4, &[0x4, 0x5, 0x1, 0x0]);
    let bytes = encode_maze(&column);
    assert_eq!(bytes, vec![0x00, 0x01, 0x45, 0x10]);
    let back = decode_maze(&bytes).unwrap();
    assert_eq!(back.get_bounds(), (1, 3));
    assert_eq!(cells_of(&back), vec![0x4, 0x5, 0x1]);

    let square = maze_of(2, 2, &[0x2, 0x8, 0x0, 0x0]);
    assert_eq!(decode_maze(&encode_maze(&square)).err(), Some(MazeError::MalformedEncoding));
    let blank = Maze::new(2, 2);
    assert_eq!(decode_maze(&encode_maze(&blank)).err(), Some(MazeError::MalformedEncoding));
}

#[test]
fn truncated_bytes_are_malformed() {
    assert_eq!(decode_maze(&[]).err(), Some(MazeError::MalformedEncoding));
    assert_eq!(decode_maze(&[0x00]).err(), Some(MazeError::MalformedEncoding));
    assert_eq!(decode_maze(&[0x00, 0x02]).err(), Some(MazeError::MalformedEncoding));
    assert_eq!(Maze::from_data(&[0x00, 0x02]).err(), Some(MazeError::MalformedEncoding));
}

#[test]
fn zero_width_is_malformed() {
    assert_eq!(decode_maze(&[0x00, 0x00, 0xFF]).err(), Some(MazeError::MalformedEncoding));
    assert_eq!(decode_maze(&[0x00, 0x00, 0x00]).err(), Some(MazeError::MalformedEncoding));
}

#[test]
fn cells_that_do_not_fill_rows_are_malformed() {
    assert_eq!(decode_maze(&[0x00, 0x03, 0xFF]).err(), Some(MazeError::MalformedEncoding));
    assert_eq!(decode_maze(&[0x00, 0x02, 0xF0]).err(), Some(MazeError::MalformedEncoding));
    assert_eq!(decode_maze(&[0x00, 0x02, 0xFF, 0xF0]).err(), Some(MazeError::MalformedEncoding));
    assert!(decode_maze(&[0x00, 0x03, 0xFF, 0xF0]).is_ok());
}

#[test]
fn a_single_blank_cell_is_decoded() {
    let maze = decode_maze(&[0x00, 0x01, 0x00]).unwrap();
    assert_eq!(maze.get_bounds(), (1, 1));
    assert_eq!(maze.get(0, 0), Ok(0));
    assert_eq!(encode_maze(&Maze::new(1, 1)), vec![0x00, 0x01, 0x00]);
}
