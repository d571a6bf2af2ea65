use maze::files::parse_output_filename;

fn names(path: &str) -> (String, String) {
    let (maze, solution) = parse_output_filename(path.as_bytes());
    (String::from_utf8(maze).unwrap(), String::from_utf8(solution).unwrap())
}

#[test]
fn the_extension_is_replaced() {
    assert_eq!(names("maze.dat"), ("maze.dat".to_string(), "maze.solution.dat".to_string()));
    assert_eq!(names("maze.bin"), ("maze.dat".to_string(), "maze.solution.dat".to_string()));
}

#[test]
fn the_directories_are_left_out() {
    assert_eq!(names("out/run.1/maze.txt"), ("maze.dat".to_string(), "maze.solution.dat".to_string()));
    assert_eq!(names("/maze.txt"), ("maze.dat".to_string(), "maze.solution.dat".to_string()));
}

#[test]
fn only_the_last_extension_is_replaced() {
    assert_eq!(names("a/b.c/d.e.f"), ("d.e.dat".to_string(), "d.e.solution.dat".to_string()));
    assert_eq!(names("maze."), ("maze.dat".to_string(), "maze.solution.dat".to_string()));
    assert_eq!(names(".hidden"), (".dat".to_string(), ".solution.dat".to_string()));
}

#[test]
fn a_name_without_extension_leaves_no_name() {
    assert_eq!(names("maze"), (".dat".to_string(), ".solution.dat".to_string()));
    assert_eq!(names("out.d/maze"), (".dat".to_string(), ".solution.dat".to_string()));
    assert_eq!(names(""), (".dat".to_string(), ".solution.dat".to_string()));
    assert_eq!(names("out/"), (".dat".to_string(), ".solution.dat".to_string()));
}
