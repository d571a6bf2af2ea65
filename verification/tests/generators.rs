use maze::maze::generators::{blank_cells, blank_neighbors, RandomDFS, Wilson};
use maze::maze::{Maze, MazeGenerator};
use maze::Direction;

fn passages(maze: &Maze) -> usize {
    let (w, h) = maze.get_bounds();
    let mut ends = 0;
    for i in 0..w * h {
        ends += maze.geti(i).unwrap().count_ones() as usize;
    }
    assert_eq!(ends % 2, 0);
    ends / 2
}

fn reachable_from_first_cell(maze: &Maze) -> usize {
    let (w, h) = maze.get_bounds();
    let mut seen = vec![false; w * h];
    let mut stack = vec![(0usize, 0usize)];
    seen[0] = true;
    let mut count = 0;
    while let Some(pos) = stack.pop() {
        count += 1;
        let (cells, n) = maze.get_travellable_neighbors(pos);
        for cell in &cells[..n] {
            let i = maze.xy_to_i(cell.0, cell.1).unwrap();
            if !seen[i] {
                seen[i] = true;
                stack.push(*cell);
            }
        }
    }
    count
}

fn assert_symmetric(maze: &Maze) {
    let (w, h) = maze.get_bounds();
    for y in 0..h {
        for x in 0..w {
            let mask = maze.get(x, y).unwrap();
            for d in [Direction::UP, Direction::RIGHT, Direction::DOWN, Direction::LEFT] {
                if mask & d.bit() != 0 {
                    assert!(maze.has_neighbor((x, y), d));
                    let (nx, ny) = d.travel(x, y);
                    assert_ne!(maze.get(nx, ny).unwrap() & d.opposite().bit(), 0);
                }
            }
        }
    }
}

#[test]
fn wilson_generates_a_spanning_tree() {
    for (w, h) in [(1, 1), (1, 2), (2, 1), (2, 2), (3, 3), (5, 4), (1, 10), (10, 1), (16, 16)] {
        for _ in 0..5 {
            let mut maze = Maze::new(w, h);
            let mut generator = Wilson::new(maze.get_bounds());
            let mut steps = 0u64;
            while !generator.step(&mut maze) {
                steps += 1;
                assert!(steps < 50_000_000);
            }
            let cells = w as usize * h as usize;
            assert_eq!(passages(&maze), cells - 1);
            assert_eq!(reachable_from_first_cell(&maze), cells);
            assert_symmetric(&maze);
            assert_eq!(blank_cells(&maze).len(), if cells == 1 { 1 } else { 0 });
            assert!(generator.walk().is_empty());
        }
    }
}

#[test]
fn wilson_stays_finished() {
    let mut maze = Maze::new(4, 4);
    let mut generator = Wilson::new((4, 4));
    while !generator.step(&mut maze) {}
    let before = maze.as_str();
    for _ in 0..5 {
        assert!(generator.step(&mut maze));
        assert_eq!(maze.as_str(), before);
    }
}

#[test]
fn wilson_starts_with_one_cell_and_another_to_reach() {
    for _ in 0..50 {
        let generator = Wilson::new((3, 2));
        assert_eq!(generator.walk().len(), 1);
        let start = generator.walk()[0];
        let target = generator.first_walk_target().unwrap();
        assert!(start.0 < 3 && start.1 < 2);
        assert!(target.0 < 3 && target.1 < 2);
        assert_ne!(start, target);
    }
    let single = Wilson::new((1, 1));
    assert!(single.walk().is_empty());
    assert_eq!(single.first_walk_target(), None);
}

#[test]
fn wilson_draws_every_other_cell_as_target() {
    let mut seen = std::collections::HashSet::new();
    for _ in 0..2000 {
        let generator = Wilson::new((2, 2));
        seen.insert((generator.walk()[0], generator.first_walk_target().unwrap()));
    }
    assert_eq!(seen.len(), 12);
}

#[test]
fn a_walk_that_meets_itself_is_cut_back() {
    // a walk in a maze that has its tree in the far corner
    let mut maze = Maze::new(4, 4);
    let mut generator = loop {
        let generator = Wilson::new((4, 4));
        if generator.walk()[0] == (0, 0) && generator.first_walk_target() == Some((3, 3)) {
            break generator;
        }
    };
    assert!(!generator.advance(&mut maze, (1, 0, Direction::RIGHT)));
    assert!(!generator.advance(&mut maze, (1, 1, Direction::DOWN)));
    assert!(!generator.advance(&mut maze, (0, 1, Direction::LEFT)));
    assert_eq!(generator.walk(), &vec![(0, 0), (1, 0), (1, 1), (0, 1)]);
    assert_eq!(generator.pos_in_stack((1, 0)), Some(1));
    assert_eq!(generator.pos_in_stack((2, 2)), None);
    // back to the first cell: the loop is erased
    assert!(!generator.advance(&mut maze, (0, 0, Direction::UP)));
    assert_eq!(generator.walk(), &vec![(0, 0)]);
    assert_eq!(blank_cells(&maze).len(), 16);
}

#[test]
fn a_walk_that_reaches_its_target_is_carved() {
    let mut maze = Maze::new(3, 1);
    let mut generator = loop {
        let generator = Wilson::new((3, 1));
        if generator.walk()[0] == (0, 0) && generator.first_walk_target() == Some((2, 0)) {
            break generator;
        }
    };
    assert!(!generator.advance(&mut maze, (1, 0, Direction::RIGHT)));
    assert_eq!(maze.as_str(), Maze::new(3, 1).as_str());
    assert!(generator.advance(&mut maze, (2, 0, Direction::RIGHT)));
    assert_eq!(generator.first_walk_target(), None);
    assert_eq!(maze.get(0, 0), Ok(0b0010));
    assert_eq!(maze.get(1, 0), Ok(0b1010));
    assert_eq!(maze.get(2, 0), Ok(0b1000));
    assert!(generator.create_new_walk(&maze));
    assert!(generator.walk().is_empty());
    assert!(generator.step(&mut maze));
}

#[test]
fn a_walk_that_reaches_the_maze_is_carved() {
    let mut maze = Maze::new(2, 2);
    let mut generator = loop {
        let generator = Wilson::new((2, 2));
        if generator.walk()[0] == (0, 0) && generator.first_walk_target() == Some((1, 0)) {
            break generator;
        }
    };
    assert!(generator.advance(&mut maze, (1, 0, Direction::RIGHT)));
    assert_eq!(blank_cells(&maze), vec![(0, 1), (1, 1)]);
    generator.restart(&maze, Some((1, 1)));
    assert_eq!(generator.walk(), &vec![(1, 1)]);
    assert!(!generator.advance(&mut maze, (0, 1, Direction::LEFT)));
    assert!(generator.advance(&mut maze, (0, 0, Direction::UP)));
    assert_eq!(maze.get(0, 0), Ok(0b0110));
    assert_eq!(maze.get(1, 0), Ok(0b1000));
    assert_eq!(maze.get(0, 1), Ok(0b0011));
    assert_eq!(maze.get(1, 1), Ok(0b1000));
    assert!(blank_cells(&maze).is_empty());
    assert!(generator.create_new_walk(&maze));
}

#[test]
fn blank_cells_are_listed_in_the_order_of_the_cells() {
    let mut maze = Maze::new(3, 2);
    assert_eq!(blank_cells(&maze), vec![(0, 0), (1, 0), (2, 0), (0, 1), (1, 1), (2, 1)]);
    maze.carve(1, 0, Direction::DOWN).unwrap();
    assert_eq!(blank_cells(&maze), vec![(0, 0), (2, 0), (0, 1), (2, 1)]);
}

#[test]
fn random_depth_first_generates_a_spanning_tree() {
    for (w, h) in [(1, 1), (1, 2), (2, 1), (2, 2), (3, 3), (5, 4), (1, 10), (10, 1), (16, 16)] {
        for _ in 0..5 {
            let mut maze = Maze::new(w, h);
            let mut generator = RandomDFS::new(maze.get_bounds());
            let mut steps = 0u64;
            while !generator.step(&mut maze) {
                steps += 1;
            }
            let cells = w as usize * h as usize;
            // each cell but the first is carved into once and left once
            assert_eq!(steps, 2 * (cells as u64 - 1));
            assert_eq!(passages(&maze), cells - 1);
            assert_eq!(reachable_from_first_cell(&maze), cells);
            assert_symmetric(&maze);
            assert!(generator.stack().is_empty());
            assert!(generator.step(&mut maze));
        }
    }
}

#[test]
fn random_depth_first_carves_on_and_walks_back() {
    let mut maze = Maze::new(2, 1);
    let mut generator = loop {
        let generator = RandomDFS::new((2, 1));
        if generator.stack()[0] == (0, 0) {
            break generator;
        }
    };
    assert_eq!(
        blank_neighbors(&maze, &maze.get_neighbors((0, 0))),
        vec![(1, 0, Direction::RIGHT)]
    );
    generator.dig(&mut maze, (1, 0, Direction::RIGHT));
    assert_eq!(generator.stack(), &vec![(0, 0), (1, 0)]);
    assert_eq!(maze.get(0, 0), Ok(0b0010));
    assert_eq!(maze.get(1, 0), Ok(0b1000));
    assert_eq!(blank_neighbors(&maze, &maze.get_neighbors((1, 0))), vec![]);
    assert!(!generator.retreat(&maze));
    assert_eq!(generator.stack(), &vec![(0, 0)]);
    assert!(generator.retreat(&maze));
    assert!(generator.stack().is_empty());
}

#[test]
fn blank_neighbors_leave_out_what_lies_outside() {
    let maze = Maze::new(2, 2);
    let listed = vec![(1, 0, Direction::RIGHT), (2, 0, Direction::RIGHT), (0, 1, Direction::DOWN)];
    assert_eq!(
        blank_neighbors(&maze, &listed),
        vec![(1, 0, Direction::RIGHT), (0, 1, Direction::DOWN)]
    );
}

#[test]
fn generate_carves_the_whole_maze() {
    for (w, h) in [(1, 1), (3, 2), (9, 9)] {
        let mut maze = Maze::new(w, h);
        let mut generator = RandomDFS::new(maze.get_bounds());
        generator.generate(&mut maze);
        let cells = w as usize * h as usize;
        assert_eq!(passages(&maze), cells - 1);
        assert_eq!(reachable_from_first_cell(&maze), cells);
        assert_symmetric(&maze);
        assert!(generator.stack().is_empty());
        let carved = maze.as_str();
        generator.generate(&mut maze);
        assert_eq!(maze.as_str(), carved);
    }
}
