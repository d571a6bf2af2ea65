use maze::maze::codec::decode_maze;
use maze::maze::generators::Wilson;
use maze::maze::solvers::{solution_trace, AStarSolver, Algorithm, BFSSolver, DFSSolver};
use maze::maze::{Maze, MazeGenerator, MazeSolver};
use maze::Direction;

fn all_open_three_by_three() -> Maze {
    decode_maze(&[0x00, 0x03, 0xFF, 0xFF, 0xFF, 0xFF, 0xF0]).unwrap()
}

fn generated(width: u16, height: u16) -> Maze {
    let mut maze = Maze::new(width, height);
    let mut generator = Wilson::new(maze.get_bounds());
    while !generator.step(&mut maze) {}
    maze
}

fn run(solver: &mut Algorithm, maze: &Maze) -> Vec<(usize, usize)> {
    for _ in 0..100_000 {
        if let Some(path) = solver.step(maze) {
            return path.clone();
        }
    }
    panic!("no route found");
}

fn assert_is_solution(maze: &Maze, path: &[(usize, usize)]) {
    let (w, h) = maze.get_bounds();
    assert_eq!(path.first(), Some(&(0, 0)));
    assert_eq!(path.last(), Some(&(w - 1, h - 1)));
    for pair in path.windows(2) {
        let (cells, n) = maze.get_travellable_neighbors(pair[0]);
        assert!(cells[..n].contains(&pair[1]));
    }
}

#[test]
fn all_solvers_cross_the_open_three_by_three() {
    let maze = all_open_three_by_three();
    assert_eq!(maze.get_bounds(), (3, 3));
    let bounds = maze.get_bounds();
    let dfs = run(&mut Algorithm::DepthFirstSearch(DFSSolver::new(bounds)), &maze);
    let bfs = run(&mut Algorithm::BreadthFirstSearch(BFSSolver::new(bounds)), &maze);
    let a_star = run(&mut Algorithm::AStar(AStarSolver::new(bounds)), &maze);
    assert_is_solution(&maze, &dfs);
    assert_is_solution(&maze, &bfs);
    assert_is_solution(&maze, &a_star);
    assert_eq!(bfs.len(), 5);
    assert!(bfs.len() <= dfs.len());
    assert!(bfs.len() <= a_star.len());
}

#[test]
fn depth_first_prefers_up_right_down_left() {
    let maze = all_open_three_by_three();
    let mut solver = DFSSolver::new(maze.get_bounds());
    assert_eq!(solver.step(&maze), None);
    assert_eq!(solver.path(), &vec![(0, 0), (1, 0)]);
    assert_eq!(solver.step(&maze), None);
    assert_eq!(solver.path(), &vec![(0, 0), (1, 0), (2, 0)]);
    assert_eq!(solver.step(&maze), None);
    assert_eq!(solver.path(), &vec![(0, 0), (1, 0), (2, 0), (2, 1)]);
    // up from there lies a cell that the search has left behind
    assert_eq!(solver.step(&maze), None);
    assert_eq!(solver.path(), &vec![(0, 0), (1, 0), (2, 0), (2, 1), (2, 2)]);
    assert_eq!(solver.step(&maze), Some(&vec![(0, 0), (1, 0), (2, 0), (2, 1), (2, 2)]));
}

#[test]
fn depth_first_walks_back_from_a_dead_end() {
    let mut maze = Maze::new(2, 2);
    maze.carve(0, 0, Direction::RIGHT).unwrap();
    maze.carve(0, 0, Direction::DOWN).unwrap();
    maze.carve(0, 1, Direction::RIGHT).unwrap();
    let mut solver = DFSSolver::new((2, 2));
    assert_eq!(solver.step(&maze), None);
    assert_eq!(solver.path(), &vec![(0, 0), (1, 0)]);
    assert_eq!(solver.step(&maze), None);
    assert_eq!(solver.path(), &vec![(0, 0)]);
    assert_eq!(solver.step(&maze), None);
    assert_eq!(solver.path(), &vec![(0, 0), (0, 1)]);
    let path = run_dfs(&mut solver, &maze);
    assert_eq!(path, vec![(0, 0), (0, 1), (1, 1)]);
    assert_eq!(path.last(), Some(&(1, 1)));
    assert_is_solution(&maze, &path);
}

fn run_dfs(solver: &mut DFSSolver, maze: &Maze) -> Vec<(usize, usize)> {
    for _ in 0..1000 {
        if let Some(path) = solver.step(maze) {
            return path.clone();
        }
    }
    panic!("no route found");
}

#[test]
fn breadth_first_finds_the_shortest_route() {
    let mut maze = Maze::new(3, 3);
    // a long way round and a short way across
    maze.carve(0, 0, Direction::RIGHT).unwrap();
    maze.carve(1, 0, Direction::RIGHT).unwrap();
    maze.carve(2, 0, Direction::DOWN).unwrap();
    maze.carve(2, 1, Direction::DOWN).unwrap();
    maze.carve(0, 0, Direction::DOWN).unwrap();
    maze.carve(0, 1, Direction::DOWN).unwrap();
    maze.carve(0, 2, Direction::RIGHT).unwrap();
    maze.carve(1, 2, Direction::RIGHT).unwrap();
    let mut solver = BFSSolver::new((3, 3));
    let mut steps = 0;
    let path = loop {
        steps += 1;
        if let Some(path) = solver.step(&maze) {
            break path.clone();
        }
    };
    assert_eq!(path, vec![(0, 0), (1, 0), (2, 0), (2, 1), (2, 2)]);
    assert!(solver.is_finished());
    assert!(steps > 1);
    assert_eq!(solver.path(), &path);
}

#[test]
fn stepping_after_the_end_keeps_the_route() {
    let maze = all_open_three_by_three();
    let bounds = maze.get_bounds();
    for mut solver in [
        Algorithm::DepthFirstSearch(DFSSolver::new(bounds)),
        Algorithm::BreadthFirstSearch(BFSSolver::new(bounds)),
        Algorithm::AStar(AStarSolver::new(bounds)),
    ] {
        let first = run(&mut solver, &maze);
        for _ in 0..3 {
            assert_eq!(solver.step(&maze), Some(&first));
        }
    }
}

#[test]
fn a_maze_of_one_cell_is_solved_where_it_starts() {
    let maze = Maze::new(1, 1);
    let bounds = maze.get_bounds();
    for mut solver in [
        Algorithm::DepthFirstSearch(DFSSolver::new(bounds)),
        Algorithm::BreadthFirstSearch(BFSSolver::new(bounds)),
        Algorithm::AStar(AStarSolver::new(bounds)),
    ] {
        assert_eq!(run(&mut solver, &maze), vec![(0, 0)]);
    }
}

#[test]
fn a_maze_without_a_route_is_never_solved() {
    let maze = Maze::new(2, 2);
    let bounds = maze.get_bounds();
    for mut solver in [
        Algorithm::DepthFirstSearch(DFSSolver::new(bounds)),
        Algorithm::BreadthFirstSearch(BFSSolver::new(bounds)),
        Algorithm::AStar(AStarSolver::new(bounds)),
    ] {
        for _ in 0..20 {
            assert_eq!(solver.step(&maze), None);
        }
    }
}

#[test]
fn a_star_looks_first_at_the_cheapest_cell_found_nearest_to_the_goal() {
    let maze = all_open_three_by_three();
    let mut solver = AStarSolver::new((3, 3));
    assert!(solver.has_open((0, 0)));
    assert_eq!(solver.step(&maze), None);
    // the first cell has been looked at, its two neighbours have been found
    assert!(solver.has_closed(0));
    assert!(!solver.has_open((0, 0)));
    assert!(solver.has_open((1, 0)));
    assert!(solver.has_open((0, 1)));
    // both cost one step and were found four steps from the goal: the one that
    // stands later, column by column, is looked at first
    assert_eq!(solver.step(&maze), None);
    assert!(solver.has_closed(1));
    assert!(!solver.has_closed(3));
    assert!(solver.has_open((2, 0)));
    assert!(solver.has_open((1, 1)));
    assert_eq!(solver.step(&maze), None);
    assert!(solver.has_closed(3));
    let path = loop {
        if let Some(path) = solver.step(&maze) {
            break path.clone();
        }
    };
    assert_is_solution(&maze, &path);
    assert_eq!(path.len(), 5);
    assert_eq!(solver.path(), &path);
}

#[test]
fn breadth_first_is_no_longer_than_depth_first_in_generated_mazes() {
    for (w, h) in [(2, 2), (3, 5), (8, 8), (12, 7), (1, 9), (9, 1)] {
        let maze = generated(w, h);
        let bounds = maze.get_bounds();
        let dfs = run(&mut Algorithm::DepthFirstSearch(DFSSolver::new(bounds)), &maze);
        let bfs = run(&mut Algorithm::BreadthFirstSearch(BFSSolver::new(bounds)), &maze);
        let a_star = run(&mut Algorithm::AStar(AStarSolver::new(bounds)), &maze);
        assert_is_solution(&maze, &dfs);
        assert_is_solution(&maze, &bfs);
        assert_is_solution(&maze, &a_star);
        assert!(bfs.len() <= dfs.len());
        assert!(bfs.len() <= a_star.len());
        // in a perfect maze there is one route only
        assert_eq!(bfs, dfs);
        assert_eq!(bfs, a_star);
    }
}

#[test]
fn breadth_first_is_no_longer_than_depth_first_where_routes_differ() {
    let mut maze = generated(6, 6);
    // more passages, so that there is more than one route
    for y in 0..6 {
        for x in 0..5 {
            if (x + y) % 2 == 0 {
                maze.carve(x, y, Direction::RIGHT).unwrap();
            }
        }
    }
    let bounds = maze.get_bounds();
    let dfs = run(&mut Algorithm::DepthFirstSearch(DFSSolver::new(bounds)), &maze);
    let bfs = run(&mut Algorithm::BreadthFirstSearch(BFSSolver::new(bounds)), &maze);
    assert_is_solution(&maze, &dfs);
    assert_is_solution(&maze, &bfs);
    assert!(bfs.len() <= dfs.len());
}

#[test]
fn the_trace_names_each_step() {
    let path = vec![(0, 0), (1, 0), (1, 1), (0, 1), (0, 0)];
    assert_eq!(solution_trace(&path), b"RDLU".to_vec());
    assert_eq!(solution_trace(&vec![(0, 0)]), Vec::<u8>::new());
    assert_eq!(solution_trace(&Vec::new()), Vec::<u8>::new());
    let maze = all_open_three_by_three();
    let bfs = run(&mut Algorithm::BreadthFirstSearch(BFSSolver::new((3, 3))), &maze);
    let trace = solution_trace(&bfs);
    assert_eq!(trace.len(), 4);
    assert_eq!(trace.iter().filter(|c| **c == b'R').count(), 2);
    assert_eq!(trace.iter().filter(|c| **c == b'D').count(), 2);
}

#[test]
fn solvers_give_up_only_without_a_route() {
    let walled = Maze::new(3, 3);
    let open = generated(5, 4);
    for (maze, gives_up) in [(&walled, true), (&open, false)] {
        let bounds = maze.get_bounds();
        for mut solver in [
            Algorithm::DepthFirstSearch(DFSSolver::new(bounds)),
            Algorithm::BreadthFirstSearch(BFSSolver::new(bounds)),
            Algorithm::AStar(AStarSolver::new(bounds)),
        ] {
            assert!(!solver.is_exhausted());
            let mut gave_up = false;
            for _ in 0..1000 {
                let found = solver.step(maze).is_some();
                gave_up = gave_up || solver.is_exhausted();
                assert!(!(found && gave_up));
            }
            assert_eq!(gave_up, gives_up);
        }
    }
}

#[test]
fn solve_runs_to_the_route_or_gives_up() {
    let open = generated(7, 5);
    let walled = Maze::new(4, 4);
    for kind in 0..3 {
        let make = |bounds: (usize, usize)| match kind {
            0 => Algorithm::DepthFirstSearch(DFSSolver::new(bounds)),
            1 => Algorithm::BreadthFirstSearch(BFSSolver::new(bounds)),
            _ => Algorithm::AStar(AStarSolver::new(bounds)),
        };
        let mut solver = make(open.get_bounds());
        let route = solver.solve(&open).cloned().unwrap();
        assert_is_solution(&open, &route);
        assert_eq!(route, run(&mut make(open.get_bounds()), &open));
        assert_eq!(solver.solve(&open), Some(&route));

        let mut solver = make(walled.get_bounds());
        assert_eq!(solver.solve(&walled), None);
        assert!(solver.is_exhausted());
    }
}

#[test]
fn no_search_takes_more_steps_than_twice_the_cells() {
    for (w, h) in [(1, 1), (2, 3), (6, 6), (10, 4)] {
        let open = generated(w, h);
        let walled = Maze::new(w, h);
        for maze in [&open, &walled] {
            let bounds = maze.get_bounds();
            for mut solver in [
                Algorithm::DepthFirstSearch(DFSSolver::new(bounds)),
                Algorithm::BreadthFirstSearch(BFSSolver::new(bounds)),
                Algorithm::AStar(AStarSolver::new(bounds)),
            ] {
                let mut steps = 0;
                while !solver.is_exhausted() && solver.step(maze).is_none() {
                    steps += 1;
                }
                assert!(steps <= 2 * bounds.0 * bounds.1);
            }
        }
    }
}
