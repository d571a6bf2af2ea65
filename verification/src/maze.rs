//! The grid of cells and its passages.
use vstd::prelude::*;

use crate::Direction;

pub mod a_star;
pub mod backtracker;
pub mod breadth_first;
pub mod codec;
pub mod depth_first;
pub mod generators;
pub mod grid;
pub mod progress;
pub mod route;
pub mod solvers;
pub mod tree;
pub mod walk;

use crate::maze::codec::{decode, encode};
use crate::maze::grid::{Grid, lemma_mask_with_bit, lemma_mask_without_bit};

verus! {

/// What can go wrong with a maze.
#[derive(Debug, Clone, Copy, PartialEq, Eq, Structural)]
pub enum MazeError {
    /// A coordinate, or an index, lies outside the grid.
    OutOfBounds,
    /// The bytes are no encoded maze.
    MalformedEncoding,
}

/// A rectangular maze. Each cell is a bitmask of the sides on which a
/// passage leaves it; the cells are stored row by row.
#[derive(Debug)]
pub struct Maze {
    width: usize,
    height: usize,
    cells: Vec<u8>,
}

impl View for Maze {
    type V = Grid;

    /// The grid that the maze holds.
    closed spec fn view(&self) -> Grid {
        Grid { width: self.width as nat, height: self.height as nat, cells: self.cells@ }
    }
}

impl Maze {
    /// Every maze that this module hands out is well formed: it has at least
    /// one cell, as many cells as its bounds say, and only the four direction
    /// bits in each of them.
    pub open spec fn wf(&self) -> bool {
        self@.wf()
    }

    /// A maze without any passage.
    pub fn new(width: u16, height: u16) -> (maze: Self)
        requires
            width >= 1,
            height >= 1,
        ensures
            maze.wf(),
            maze@.width == width,
            maze@.height == height,
            maze@.blank(),
    {
        assert(width as usize * height as usize <= 0xFFFF * 0xFFFF) by (nonlinear_arith)
            requires
                width <= 0xFFFF,
                height <= 0xFFFF,
        ;
        let cells = vec![0u8; width as usize * height as usize];
        Self { width: width as usize, height: height as usize, cells }
    }

    /// The maze that the bytes encode.
    pub fn from_data(data: &[u8]) -> (r: Result<Self, MazeError>)
        ensures
            r matches Ok(maze) ==> maze.wf() && decode(data@) == Some(maze@),
            r matches Err(e) ==> e == MazeError::MalformedEncoding && decode(data@) is None,
    {
        codec::decode_maze(data)
    }

    /// The bitmask of the cell in column `x` of row `y`.
    pub fn get(&self, x: usize, y: usize) -> (r: Result<u8, MazeError>)
        requires
            self.wf(),
        ensures
            r == (if self@.contains((x, y)) {
                Ok::<u8, MazeError>(self@.mask((x, y)))
            } else {
                Err(MazeError::OutOfBounds)
            }),
    {
        if x >= self.width || y >= self.height {
            Err(MazeError::OutOfBounds)
        } else {
            proof {
                self@.lemma_index_in_range((x, y));
            }
            Ok(self.cells[y * self.width + x])
        }
    }

    /// The bitmask of the `i`-th cell, counting row by row.
    pub fn geti(&self, i: usize) -> (r: Result<u8, MazeError>)
        requires
            self.wf(),
        ensures
            r == (if i < self@.cells.len() {
                Ok::<u8, MazeError>(self@.cells[i as int])
            } else {
                Err(MazeError::OutOfBounds)
            }),
    {
        if i >= self.cells.len() {
            Err(MazeError::OutOfBounds)
        } else {
            Ok(self.cells[i])
        }
    }

    /// Width and height.
    pub fn get_bounds(&self) -> (bounds: (usize, usize))
        ensures
            bounds.0 == self@.width,
            bounds.1 == self@.height,
    {
        (self.width, self.height)
    }

    /// The maze in its binary form.
    pub fn as_str(&self) -> (bytes: Vec<u8>)
        requires
            self.wf(),
        ensures
            bytes@ == encode(self@),
    {
        codec::encode_maze(self)
    }

    /// The coordinate of the `i`-th cell.
    pub fn i_to_xy(&self, i: usize) -> (r: Result<(usize, usize), MazeError>)
        requires
            self.wf(),
        ensures
            r == (if i < self@.cells.len() {
                Ok::<(usize, usize), MazeError>(self@.position(i as int))
            } else {
                Err(MazeError::OutOfBounds)
            }),
            r matches Ok(p) ==> self@.contains(p) && self@.index(p) == i,
    {
        if i >= self.cells.len() {
            Err(MazeError::OutOfBounds)
        } else {
            proof {
                self@.lemma_position_of_index(i as int);
            }
            Ok((i % self.width, i / self.width))
        }
    }

    /// The index of the cell in column `x` of row `y`.
    pub fn xy_to_i(&self, x: usize, y: usize) -> (r: Result<usize, MazeError>)
        requires
            self.wf(),
        ensures
            r matches Ok(i) ==> self@.contains((x, y)) && i == self@.index((x, y)) && i
                < self@.cells.len(),
            r matches Err(e) ==> !self@.contains((x, y)) && e == MazeError::OutOfBounds,
    {
        if x >= self.width || y >= self.height {
            Err(MazeError::OutOfBounds)
        } else {
            proof {
                self@.lemma_index_in_range((x, y));
            }
            Ok(y * self.width + x)
        }
    }

    /// Opens the side `direction` of one cell. The neighbour on that side is
    /// left as it is.
    pub fn open(&mut self, x: usize, y: usize, direction: Direction) -> (r: Result<(), MazeError>)
        requires
            old(self).wf(),
        ensures
            final(self).wf(),
            r matches Ok(_) ==> old(self)@.contains((x, y)) && final(self)@ == old(self)@.opened(
                (x, y),
                direction,
            ),
            r matches Err(e) ==> !old(self)@.contains((x, y)) && e == MazeError::OutOfBounds
                && final(self)@ == old(self)@,
    {
        if x >= self.width || y >= self.height {
            return Err(MazeError::OutOfBounds);
        }
        proof {
            self@.lemma_index_in_range((x, y));
        }
        let i = y * self.width + x;
        let cell = self.cells[i];
        proof {
            lemma_mask_with_bit(cell, direction, direction);
        }
        self.cells.set(i, cell | direction.bit());
        Ok(())
    }

    /// Closes the side `direction` of one cell. The neighbour on that side
    /// is left as it is.
    pub fn close(&mut self, x: usize, y: usize, direction: Direction) -> (r: Result<(), MazeError>)
        requires
            old(self).wf(),
        ensures
            final(self).wf(),
            r matches Ok(_) ==> old(self)@.contains((x, y)) && final(self)@ == old(self)@.closed(
                (x, y),
                direction,
            ),
            r matches Err(e) ==> !old(self)@.contains((x, y)) && e == MazeError::OutOfBounds
                && final(self)@ == old(self)@,
    {
        if x >= self.width || y >= self.height {
            return Err(MazeError::OutOfBounds);
        }
        proof {
            self@.lemma_index_in_range((x, y));
        }
        let i = y * self.width + x;
        let cell = self.cells[i];
        proof {
            lemma_mask_without_bit(cell, direction, direction);
        }
        self.cells.set(i, cell & !direction.bit());
        Ok(())
    }

    /// Closes all four sides of one cell.
    pub fn delete(&mut self, x: usize, y: usize) -> (r: Result<(), MazeError>)
        requires
            old(self).wf(),
        ensures
            final(self).wf(),
            r matches Ok(_) ==> old(self)@.contains((x, y)) && final(self)@ == old(self)@.cleared(
                (x, y),
            ),
            r matches Err(e) ==> !old(self)@.contains((x, y)) && e == MazeError::OutOfBounds
                && final(self)@ == old(self)@,
    {
        if x >= self.width || y >= self.height {
            return Err(MazeError::OutOfBounds);
        }
        proof {
            self@.lemma_index_in_range((x, y));
        }
        let i = y * self.width + x;
        self.cells.set(i, 0);
        Ok(())
    }

    /// Carves a passage between the cell `(x, y)` and its neighbour on the
    /// side `direction`, open from both ends. Without such a neighbour the
    /// maze is left as it is.
    pub fn carve(&mut self, x: usize, y: usize, direction: Direction) -> (r: Result<(), MazeError>)
        requires
            old(self).wf(),
        ensures
            final(self).wf(),
            r matches Ok(_) ==> {
                let target = old(self)@.neighbor((x, y), direction);
                &&& old(self)@.has_neighbor((x, y), direction)
                &&& final(self)@ == old(self)@.carved((x, y), direction)
                &&& final(self)@.travellable((x, y)).contains(target)
                &&& final(self)@.travellable(target).contains((x, y))
                &&& old(self)@.symmetric() ==> final(self)@.symmetric()
                &&& old(self)@.sealed() ==> final(self)@.sealed()
            },
            r matches Err(e) ==> !old(self)@.has_neighbor((x, y), direction) && e
                == MazeError::OutOfBounds && final(self)@ == old(self)@,
    {
        if !self.has_neighbor((x, y), direction) {
            return Err(MazeError::OutOfBounds);
        }
        proof {
            self@.lemma_neighbor((x, y), direction);
            self@.lemma_carved_symmetric((x, y), direction);
        }
        let (nx, ny) = direction.travel(x, y);
        match self.open(x, y, direction) {
            Ok(()) => self.open(nx, ny, direction.opposite()),
            Err(e) => Err(e),
        }
    }

    /// Whether the maze has a cell next to `pos` on the side `direction`.
    pub fn has_neighbor(&self, pos: (usize, usize), direction: Direction) -> (r: bool)
        ensures
            r == self@.has_neighbor(pos, direction),
    {
        let (x, y) = pos;
        if x >= self.width || y >= self.height {
            return false;
        }
        match direction {
            Direction::UP => y > 0,
            Direction::RIGHT => x + 1 < self.width,
            Direction::DOWN => y + 1 < self.height,
            Direction::LEFT => x > 0,
        }
    }

    /// The cells next to `pos`, whether walls part them or not, each with
    /// the direction that leads there: left, right, up, down. A position
    /// outside the maze has none.
    pub fn get_neighbors(&self, pos: (usize, usize)) -> (neighbors: Vec<(usize, usize, Direction)>)
        requires
            self.wf(),
        ensures
            neighbors@ == self@.neighbors(pos),
    {
        let (x, y) = pos;
        let mut neighbors: Vec<(usize, usize, Direction)> = Vec::new();
        if self.has_neighbor(pos, Direction::LEFT) {
            neighbors.push((x - 1, y, Direction::LEFT));
        }
        if self.has_neighbor(pos, Direction::RIGHT) {
            neighbors.push((x + 1, y, Direction::RIGHT));
        }
        if self.has_neighbor(pos, Direction::UP) {
            neighbors.push((x, y - 1, Direction::UP));
        }
        if self.has_neighbor(pos, Direction::DOWN) {
            neighbors.push((x, y + 1, Direction::DOWN));
        }
        assert(neighbors@ =~= self@.neighbors(pos));
        neighbors
    }

    /// The cells that one step through an open passage reaches from `pos`,
    /// in the order up, right, down, left, and how many they are. The slots
    /// past that number hold `(0, 0)`. A position outside the maze reaches
    /// none.
    pub fn get_travellable_neighbors(&self, pos: (usize, usize)) -> (r: ([(usize, usize); 4], usize))
        requires
            self.wf(),
        ensures
            r.1 == self@.travellable(pos).len(),
            r.1 <= 4,
            r.0@.subrange(0, r.1 as int) == self@.travellable(pos),
            forall|i: int| r.1 <= i < 4 ==> #[trigger] r.0@[i] == (0usize, 0usize),
    {
        let (x, y) = pos;
        let mut neighbors: [(usize, usize); 4] = [(0, 0); 4];
        let mut neighbor_count: usize = 0;
        proof {
            vstd::array::axiom_spec_array_fill_for_copy_type::<(usize, usize), 4>((0usize, 0usize));
        }
        assert(forall|i: int| 0 <= i < 4 ==> #[trigger] neighbors@[i] == (0usize, 0usize));
        if x >= self.width || y >= self.height {
            assert(neighbors@.subrange(0, 0) =~= self@.travellable(pos));
            return (neighbors, neighbor_count);
        }
        proof {
            self@.lemma_index_in_range(pos);
        }
        let value = self.cells[y * self.width + x];
        if y > 0 && value & Direction::UP.bit() != 0 {
            neighbors[neighbor_count] = (x, y - 1);
            neighbor_count += 1;
            assert(forall|i: int|
                neighbor_count <= i < 4 ==> #[trigger] neighbors@[i] == (0usize, 0usize));
        }
        if x + 1 < self.width && value & Direction::RIGHT.bit() != 0 {
            neighbors[neighbor_count] = (x + 1, y);
            neighbor_count += 1;
            assert(forall|i: int|
                neighbor_count <= i < 4 ==> #[trigger] neighbors@[i] == (0usize, 0usize));
        }
        if y + 1 < self.height && value & Direction::DOWN.bit() != 0 {
            neighbors[neighbor_count] = (x, y + 1);
            neighbor_count += 1;
            assert(forall|i: int|
                neighbor_count <= i < 4 ==> #[trigger] neighbors@[i] == (0usize, 0usize));
        }
        if x > 0 && value & Direction::LEFT.bit() != 0 {
            neighbors[neighbor_count] = (x - 1, y);
            neighbor_count += 1;
            assert(forall|i: int|
                neighbor_count <= i < 4 ==> #[trigger] neighbors@[i] == (0usize, 0usize));
        }
        assert(neighbors@.subrange(0, neighbor_count as int) =~= self@.travellable(pos));
        (neighbors, neighbor_count)
    }
}

/// A generator carves, step by step, a maze into a grid. It must be stepped
/// with the same maze every time, and nothing else may change the maze
/// between the steps.
pub trait MazeGenerator {
    /// The generator and the grid fit together: what the generator has
    /// carved so far is what the grid holds.
    spec fn ready(&self, grid: Grid) -> bool;

    /// The generator has nothing left to carve.
    spec fn finished(&self) -> bool;

    /// Takes one step, and says whether the maze is complete. A step keeps
    /// the bounds of the maze and all the passages that it has.
    fn step(&mut self, maze: &mut Maze) -> (done: bool)
        requires
            old(maze).wf(),
            old(self).ready(old(maze)@),
        ensures
            final(maze).wf(),
            final(maze)@.extends(old(maze)@),
            final(self).ready(final(maze)@),
            done == final(self).finished(),
    ;
}

/// A solver looks, step by step, for a route from the first cell of a maze
/// to its goal. It is made for the bounds of one maze and must be stepped
/// with that maze, unchanged, every time.
pub trait MazeSolver: Sized {
    /// The solver and the grid fit together: the solver was made for the
    /// bounds of the grid, and what it has found so far holds in the grid.
    spec fn ready(&self, grid: Grid) -> bool;

    /// The route that the solver has found, once it has found one.
    spec fn found(&self) -> Option<Seq<(usize, usize)>>;

    /// A solver for mazes of the given bounds, before its first step.
    fn new(bounds: (usize, usize)) -> (solver: Self)
        requires
            bounds.0 >= 1,
            bounds.1 >= 1,
        ensures
            forall|grid: Grid|
                grid.wf() && grid.width == bounds.0 && grid.height == bounds.1
                    ==> #[trigger] solver.ready(grid),
    ;

    /// Takes one step. A route that is handed out leads from the first cell
    /// to the goal; once one has been found, every further step hands out
    /// the same route.
    fn step(&mut self, maze: &Maze) -> (r: Option<&Vec<(usize, usize)>>)
        requires
            maze.wf(),
            old(self).ready(maze@),
        ensures
            final(self).ready(maze@),
            r matches Some(path) ==> final(self).found() == Some(path@) && maze@.is_solution(path@),
            old(self).found() is Some ==> final(self).found() == old(self).found() && r is Some,
    ;
}

} // verus!
