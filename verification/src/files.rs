//! The names of the files that a maze and its solution are written to.
use vstd::prelude::*;

verus! {

/// The place of the last byte `b` in `s`, or -1 if there is none.
pub open spec fn last_place_of(s: Seq<u8>, b: u8) -> int
    decreases s.len(),
{
    if s.len() == 0 {
        -1
    } else if s.last() == b {
        s.len() - 1
    } else {
        last_place_of(s.drop_last(), b)
    }
}

/// The last component of a path: what follows its last `/`.
pub open spec fn file_part(path: Seq<u8>) -> Seq<u8> {
    path.skip(last_place_of(path, 0x2f) + 1)
}

/// The name of a file without its extension: what stands before the last
/// `.` of the last component of the path. A component without any `.` has
/// no name left.
pub open spec fn stem(path: Seq<u8>) -> Seq<u8> {
    let file = file_part(path);
    let dot = last_place_of(file, 0x2e);
    if dot < 0 {
        Seq::empty()
    } else {
        file.take(dot)
    }
}

/// The bytes of `.dat`.
pub open spec fn maze_extension() -> Seq<u8> {
    seq![0x2eu8, 0x64u8, 0x61u8, 0x74u8]
}

/// The bytes of `.solution.dat`.
pub open spec fn solution_extension() -> Seq<u8> {
    seq![
        0x2eu8,
        0x73u8,
        0x6fu8,
        0x6cu8,
        0x75u8,
        0x74u8,
        0x69u8,
        0x6fu8,
        0x6eu8,
        0x2eu8,
        0x64u8,
        0x61u8,
        0x74u8,
    ]
}

/// The place of the last byte `b` among the first `end` bytes of `s`, if
/// there is one.
fn last_place(s: &[u8], end: usize, b: u8) -> (place: Option<usize>)
    requires
        end <= s@.len(),
    ensures
        place matches Some(i) ==> i < end && i == last_place_of(s@.take(end as int), b),
        place is None ==> last_place_of(s@.take(end as int), b) == -1,
{
    let mut i: usize = end;
    while i > 0
        invariant
            i <= end <= s@.len(),
            last_place_of(s@.take(end as int), b) == last_place_of(s@.take(i as int), b),
        decreases i,
    {
        i -= 1;
        proof {
            let before = s@.take(i + 1);
            assert(before.last() == s@[i as int]);
            assert(before.drop_last() =~= s@.take(i as int));
        }
        if s[i] == b {
            return Some(i);
        }
    }
    None
}

/// The names of the two files for the given path: that of the maze, which
/// is the name without its extension and `.dat`, and that of the solution,
/// which is the same name and `.solution.dat`. The directories of the path
/// are left out.
pub fn parse_output_filename(filename: &[u8]) -> (names: (Vec<u8>, Vec<u8>))
    ensures
        names.0@ == stem(filename@) + maze_extension(),
        names.1@ == stem(filename@) + solution_extension(),
{
    assert(filename@.take(filename@.len() as int) =~= filename@);
    let start = match last_place(filename, filename.len(), 0x2f) {
        Some(slash) => slash + 1,
        None => 0,
    };
    let ghost file = file_part(filename@);
    assert(file =~= filename@.skip(start as int));
    // the last dot behind the last slash
    let mut dot: Option<usize> = None;
    let mut i: usize = filename.len();
    assert(file.take(filename@.len() - start) =~= file);
    while i > start && dot.is_none()
        invariant
            start <= i <= filename@.len(),
            file == filename@.skip(start as int),
            dot is None ==> last_place_of(file, 0x2e) == last_place_of(file.take(i - start), 0x2e),
            dot matches Some(d) ==> start <= d < filename@.len() && last_place_of(file, 0x2e) == d
                - start,
        decreases i + (if dot is None { 1int } else { 0int }),
    {
        proof {
            assert(file.take(filename@.len() - start) =~= file);
            let before = file.take(i - start);
            assert(before.last() == filename@[i - 1]);
            assert(before.drop_last() =~= file.take(i - 1 - start));
        }
        if filename[i - 1] == 0x2e {
            dot = Some(i - 1);
        } else {
            i -= 1;
        }
    }
    proof {
        assert(file.take(filename@.len() - start) =~= file);
    }
    let end = match dot {
        Some(d) => d,
        None => start,
    };
    let mut name: Vec<u8> = Vec::new();
    let mut j: usize = start;
    while j < end
        invariant
            start <= j <= end <= filename@.len(),
            name@ == filename@.subrange(start as int, j as int),
        decreases end - j,
    {
        name.push(filename[j]);
        proof {
            assert(name@ =~= filename@.subrange(start as int, j + 1));
        }
        j += 1;
    }
    assert(name@ =~= stem(filename@));
    let mut maze_name = name.clone();
    let mut solution_name = name;
    assert(maze_name@ =~= stem(filename@));
    maze_name.push(0x2e);
    maze_name.push(0x64);
    maze_name.push(0x61);
    maze_name.push(0x74);
    solution_name.push(0x2e);
    solution_name.push(0x73);
    solution_name.push(0x6f);
    solution_name.push(0x6c);
    solution_name.push(0x75);
    solution_name.push(0x74);
    solution_name.push(0x69);
    solution_name.push(0x6f);
    solution_name.push(0x6e);
    solution_name.push(0x2e);
    solution_name.push(0x64);
    solution_name.push(0x61);
    solution_name.push(0x74);
    assert(maze_name@ =~= stem(filename@) + maze_extension());
    assert(solution_name@ =~= stem(filename@) + solution_extension());
    (maze_name, solution_name)
}

} // verus!
