//! Generators of perfect mazes.
use rand::Rng;
use vstd::prelude::*;

use crate::maze::backtracker::BacktrackerState;
use crate::maze::grid::Grid;
use crate::maze::walk::{direction_to, WilsonState};
use crate::maze::{Maze, MazeGenerator};
use crate::Direction;

verus! {

/// A number drawn by `rand::rng().random_range(0..n)`, the thread's random
/// number generator sampling the range from nought up to, and without, `n`.
/// The range must not be empty. Of the number only this is claimed: that it
/// lies in the range.
#[verifier::external_body]
fn random_below(n: usize) -> (r: usize)
    requires
        n > 0,
    ensures
        r < n,
{
    rand::rng().random_range(0..n)
}

/// The cells of the maze without a passage, in the order of the cells.
pub fn blank_cells(maze: &Maze) -> (cells: Vec<(usize, usize)>)
    requires
        maze.wf(),
    ensures
        cells@ == maze@.blank_cells(),
{
    let bounds = maze.get_bounds();
    assert(bounds.0 * bounds.1 == maze@.cells.len());
    let count = bounds.0 * bounds.1;
    let mut cells: Vec<(usize, usize)> = Vec::new();
    let mut i: usize = 0;
    while i < count
        invariant
            maze.wf(),
            count == maze@.cells.len(),
            i <= count,
            cells@ == maze@.blank_cells_upto(i as int),
        decreases count - i,
    {
        let blank = match maze.geti(i) {
            Ok(mask) => mask == 0,
            Err(_) => false,
        };
        if blank {
            match maze.i_to_xy(i) {
                Ok(pos) => {
                    cells.push(pos);
                },
                Err(_) => {},
            }
        }
        i += 1;
    }
    cells
}

/// Those of the cells `neighbors` that lie in the maze and have no passage,
/// in their order.
pub fn blank_neighbors(maze: &Maze, neighbors: &Vec<(usize, usize, Direction)>) -> (blank: Vec<
    (usize, usize, Direction),
>)
    requires
        maze.wf(),
    ensures
        blank@ == maze@.blank_among(neighbors@, neighbors@.len() as int),
{
    let mut blank: Vec<(usize, usize, Direction)> = Vec::new();
    let mut i: usize = 0;
    while i < neighbors.len()
        invariant
            maze.wf(),
            i <= neighbors.len(),
            blank@ == maze@.blank_among(neighbors@, i as int),
        decreases neighbors.len() - i,
    {
        let neighbor = neighbors[i];
        let free = match maze.get(neighbor.0, neighbor.1) {
            Ok(mask) => mask == 0,
            Err(_) => false,
        };
        if free {
            blank.push(neighbor);
        }
        i += 1;
    }
    blank
}

/// The random depth-first generator: carve on into a cell without passages
/// drawn at random, and walk back where there is none.
pub struct RandomDFS {
    stack: Vec<(usize, usize)>,
    root: Ghost<Option<(usize, usize)>>,
}

impl View for RandomDFS {
    type V = BacktrackerState;

    /// Where the generator stands.
    closed spec fn view(&self) -> BacktrackerState {
        BacktrackerState { stack: self.stack@, root: self.root@ }
    }
}

impl RandomDFS {
    /// A generator for a maze of the given bounds that has no passage yet.
    /// It starts at a cell drawn at random.
    pub fn new(bounds: (usize, usize)) -> (generator: Self)
        requires
            bounds.0 >= 1,
            bounds.1 >= 1,
        ensures
            generator@.root is None,
            generator@.stack.len() == 1,
            generator@.stack[0].0 < bounds.0,
            generator@.stack[0].1 < bounds.1,
            forall|grid: Grid|
                grid.wf() && grid.width == bounds.0 && grid.height == bounds.1 && grid.blank()
                    ==> #[trigger] generator.ready(grid),
    {
        let start = (random_below(bounds.0), random_below(bounds.1));
        let mut stack: Vec<(usize, usize)> = Vec::new();
        stack.push(start);
        Self { stack, root: Ghost(None) }
    }

    /// The cells from the one where the generator started to the one where
    /// it stands.
    pub fn stack(&self) -> (stack: &Vec<(usize, usize)>)
        ensures
            stack@ == self@.stack,
    {
        &self.stack
    }

    /// The fuel of the generator: a number that is never negative, and of
    /// which every step burns some until the maze is complete.
    pub open spec fn fuel(&self, grid: Grid) -> int {
        self@.fuel(grid)
    }

    /// Steps the generator until the maze is complete: a perfect maze.
    pub fn generate(&mut self, maze: &mut Maze)
        requires
            old(maze).wf(),
            old(self).ready(old(maze)@),
        ensures
            final(maze).wf(),
            final(maze)@.extends(old(maze)@),
            final(maze)@.is_perfect(),
            final(self).ready(final(maze)@),
            final(self).finished(),
    {
        let ghost start = maze@;
        let mut done = false;
        assert(maze@.extends(start));
        while !done
            invariant
                maze.wf(),
                self.ready(maze@),
                maze@.extends(start),
                done ==> self.finished() && maze@.is_perfect(),
            decreases
                    (if done {
                        0
                    } else {
                        self.fuel(maze@) + 1
                    }),
        {
            proof {
                self@.lemma_fuel_is_never_negative(maze@);
            }
            done = self.step(maze);
        }
    }

    /// Carves on from the cell where the generator stands to `next`, one of
    /// the cells next to it that have no passage, with the direction that
    /// leads there.
    pub fn dig(&mut self, maze: &mut Maze, next: (usize, usize, Direction))
        requires
            old(maze).wf(),
            old(self)@.fits(old(maze)@),
            !old(self)@.finished(),
            old(maze)@.neighbors(old(self)@.stack.last()).contains(next),
            old(maze)@.mask((next.0, next.1)) == 0,
        ensures
            final(maze).wf(),
            final(maze)@ == old(maze)@.carved(old(self)@.stack.last(), next.2),
            final(maze)@.extends(old(maze)@),
            final(self)@ == old(self)@.dug(next),
            final(self)@.fits(final(maze)@),
    {
        let pos = self.stack[self.stack.len() - 1];
        proof {
            self@.lemma_dig(maze@, next);
        }
        self.stack.push((next.0, next.1));
        let carved = maze.carve(pos.0, pos.1, next.2);
        assert(carved is Ok);
        proof {
            self.root@ = match self.root@ {
                Some(r) => Some(r),
                None => Some((next.0, next.1)),
            };
        }
    }

    /// Walks one cell back from a cell next to which no cell is without a
    /// passage, and says whether that was the cell where the generator
    /// started.
    pub fn retreat(&mut self, maze: &Maze) -> (done: bool)
        requires
            maze.wf(),
            old(self)@.fits(maze@),
            !old(self)@.finished(),
            maze@.enclosed(old(self)@.stack.last()),
        ensures
            final(self)@ == old(self)@.retreated(),
            final(self)@.fits(maze@),
            done == final(self)@.finished(),
    {
        proof {
            self@.lemma_retreat(maze@);
        }
        self.stack.pop();
        assert(self@.stack =~= old(self)@.stack.drop_last());
        self.stack.len() == 0
    }
}

impl MazeGenerator for RandomDFS {
    /// The generator fits the grid.
    open spec fn ready(&self, grid: Grid) -> bool {
        self@.fits(grid)
    }

    /// The generator has nothing left to carve.
    open spec fn finished(&self) -> bool {
        self@.finished()
    }

    /// Carves on to one of the cells without passages next to the cell
    /// where the generator stands, drawn at random; or, if there is none,
    /// walks one cell back. With an empty stack the maze is complete, and
    /// stays as it is.
    fn step(&mut self, maze: &mut Maze) -> (done: bool)
        ensures
            done ==> final(maze)@.is_perfect(),
            old(self)@.finished() ==> final(self)@ == old(self)@ && final(maze)@ == old(maze)@,
            !old(self)@.finished() ==> {
                let pos = old(self)@.stack.last();
                let blank = old(maze)@.blank_among(
                    old(maze)@.neighbors(pos),
                    old(maze)@.neighbors(pos).len() as int,
                );
                if blank.len() == 0 {
                    final(self)@ == old(self)@.retreated() && final(maze)@ == old(maze)@
                } else {
                    exists|next: (usize, usize, Direction)|
                        blank.contains(next) && final(self)@ == #[trigger] old(self)@.dug(next)
                            && final(maze)@ == old(maze)@.carved(pos, next.2)
                }
            },
            !old(self)@.finished() ==> 0 <= final(self).fuel(final(maze)@) < old(self).fuel(
                old(maze)@,
            ),
    {
        if self.stack.len() == 0 {
            proof {
                assert(maze@.extends(maze@));
            }
            return true;
        }
        let pos = self.stack[self.stack.len() - 1];
        let neighbors = maze.get_neighbors(pos);
        let possible_next = blank_neighbors(maze, &neighbors);
        if possible_next.len() == 0 {
            proof {
                assert(maze@.contains(self@.stack[self@.stack.len() - 1]));
                maze@.lemma_enclosed(pos);
                assert(maze@.extends(maze@));
                self@.lemma_retreat_burns_fuel(maze@);
            }
            return self.retreat(maze);
        }
        let pick = random_below(possible_next.len());
        let next = possible_next[pick];
        proof {
            maze@.lemma_blank_among(neighbors@, neighbors@.len() as int, pick as int);
            assert(possible_next@.contains(next));
            self@.lemma_dig_burns_fuel(maze@, next);
        }
        self.dig(maze, next);
        false
    }
}

/// A maze that the random depth-first generator has completed is a perfect
/// maze: it has one passage less than it has cells, and every cell can be
/// reached from the first cell.
pub proof fn lemma_dug_maze_is_perfect(grid: Grid, generator: RandomDFS)
    requires
        grid.wf(),
        generator.ready(grid),
        generator.finished(),
    ensures
        grid.passage_count() == grid.width * grid.height - 1,
        forall|p: (usize, usize)| grid.contains(p) ==> #[trigger] grid.reachable((0, 0), p),
        grid.symmetric(),
{
}

/// Wilson's algorithm: loop-erased random walks, each carved into the maze
/// when it reaches the maze. Every perfect maze is as likely as every other.
pub struct Wilson {
    walk: Vec<(usize, usize)>,
    first_walk_target: Option<(usize, usize)>,
    opposite_of_last_direction: Option<Direction>,
    root: Ghost<Option<(usize, usize)>>,
}

impl View for Wilson {
    type V = WilsonState;

    /// Where the generator stands.
    closed spec fn view(&self) -> WilsonState {
        WilsonState {
            walk: self.walk@,
            target: self.first_walk_target,
            back: self.opposite_of_last_direction,
            root: self.root@,
        }
    }
}

impl Wilson {
    /// A generator for a maze of the given bounds that has no passage yet.
    /// The walk starts at a cell drawn at random and is to reach another
    /// cell drawn at random. In a maze of one cell there is nothing to
    /// walk.
    pub fn new(bounds: (usize, usize)) -> (generator: Self)
        requires
            bounds.0 >= 1,
            bounds.1 >= 1,
            bounds.0 * bounds.1 <= usize::MAX,
        ensures
            generator@.back is None,
            generator@.root is None,
            bounds.0 * bounds.1 == 1 ==> generator@.walk.len() == 0 && generator@.target is None,
            bounds.0 * bounds.1 > 1 ==> {
                &&& generator@.walk.len() == 1
                &&& generator@.walk[0].0 < bounds.0
                &&& generator@.walk[0].1 < bounds.1
                &&& generator@.target matches Some(t)
                &&& t.0 < bounds.0
                &&& t.1 < bounds.1
                &&& t != generator@.walk[0]
            },
            forall|grid: Grid|
                grid.wf() && grid.width == bounds.0 && grid.height == bounds.1 && grid.blank()
                    ==> #[trigger] generator.ready(grid),
    {
        let count = bounds.0 * bounds.1;
        let mut walk: Vec<(usize, usize)> = Vec::new();
        if count == 1 {
            let generator = Self {
                walk,
                first_walk_target: None,
                opposite_of_last_direction: None,
                root: Ghost(None),
            };
            proof {
                assert(bounds.0 == 1 && bounds.1 == 1) by (nonlinear_arith)
                    requires
                        bounds.0 * bounds.1 == 1,
                        bounds.0 >= 1,
                        bounds.1 >= 1,
                ;
                assert forall|grid: Grid|
                    grid.wf() && grid.width == bounds.0 && grid.height == bounds.1
                        && grid.blank() implies #[trigger] generator.ready(grid) by {
                    grid.lemma_single_cell_is_perfect();
                }
            }
            return generator;
        }
        let start = (random_below(bounds.0), random_below(bounds.1));
        assert(start.1 * bounds.0 + start.0 < bounds.0 * bounds.1) by (nonlinear_arith)
            requires
                start.0 < bounds.0,
                start.1 < bounds.1,
        ;
        let start_index = start.1 * bounds.0 + start.0;
        let pick = random_below(count - 1);
        let index = if pick >= start_index {
            pick + 1
        } else {
            pick
        };
        let end = (index % bounds.0, index / bounds.0);
        proof {
            let w = bounds.0 as int;
            vstd::arithmetic::div_mod::lemma_fundamental_div_mod(index as int, w);
            vstd::arithmetic::div_mod::lemma_mod_bound(index as int, w);
            assert(index / bounds.0 < bounds.1) by (nonlinear_arith)
                requires
                    index == w * (index / bounds.0) + index % bounds.0,
                    0 <= index % bounds.0 < w,
                    index < w * bounds.1,
                    0 < w,
            ;
            assert(w * (index / bounds.0) == (index / bounds.0) * w) by (nonlinear_arith);
        }
        walk.push(start);
        let generator = Self {
            walk,
            first_walk_target: Some(end),
            opposite_of_last_direction: None,
            root: Ghost(None),
        };
        proof {
            assert forall|grid: Grid|
                grid.wf() && grid.width == bounds.0 && grid.height == bounds.1
                    && grid.blank() implies #[trigger] generator.ready(grid) by {
                grid.lemma_blank();
                let state = generator@;
                assert forall|i: int| 0 <= i < state.walk.len() implies #[trigger] state.free_at(
                    grid,
                    i,
                ) by {
                    assert(grid.mask(state.walk[i]) == 0);
                }
            }
        }
        generator
    }

    /// The walk so far, from its start to where it stands.
    pub fn walk(&self) -> (walk: &Vec<(usize, usize)>)
        ensures
            walk@ == self@.walk,
    {
        &self.walk
    }

    /// The cell that the first walk is to reach, as long as it has not
    /// reached it.
    pub fn first_walk_target(&self) -> (target: Option<(usize, usize)>)
        ensures
            target == self@.target,
    {
        self.first_walk_target
    }

    /// The place of the cell `pos` in the walk, if the walk has been there.
    pub fn pos_in_stack(&self, pos: (usize, usize)) -> (place: Option<usize>)
        ensures
            place matches Some(i) ==> i < self@.walk.len() && self@.walk[i as int] == pos && forall|
                j: int,
            | 0 <= j < i ==> self@.walk[j] != pos,
            place is None ==> !self@.walk.contains(pos),
    {
        let mut i: usize = 0;
        while i < self.walk.len()
            invariant
                i <= self.walk@.len(),
                forall|j: int| 0 <= j < i ==> self.walk@[j] != pos,
            decreases self.walk.len() - i,
        {
            let v = self.walk[i];
            if pos.0 == v.0 && pos.1 == v.1 {
                return Some(i);
            }
            i += 1;
        }
        None
    }

    /// Carves the walk into the maze: a passage between each of its cells
    /// and the next. The walk must have arrived. Afterwards the passages of
    /// the maze form a tree that holds every cell of the walk.
    pub fn finish_walk(&mut self, maze: &mut Maze)
        requires
            old(maze).wf(),
            old(self)@.arrived(old(maze)@),
        ensures
            final(maze).wf(),
            final(maze)@ == old(self)@.carved_from(old(maze)@, 0),
            final(maze)@.extends(old(maze)@),
            final(maze)@.is_tree(old(self)@.root_to_be()),
            final(self)@ == (WilsonState { root: Some(old(self)@.root_to_be()), ..old(self)@ }),
    {
        let ghost before = maze@;
        let ghost state = self@;
        let mut left: usize = self.walk.len() - 1;
        while left > 0
            invariant
                maze.wf(),
                before.wf(),
                self@ == state,
                state.arrived(before),
                left < state.walk.len(),
                maze@ == state.carved_from(before, left as int),
                maze@.width == before.width,
                maze@.height == before.height,
                maze@.extends(before),
                left < state.walk.len() - 1 ==> state.joined_from(maze@, left as int),
                left == state.walk.len() - 1 ==> maze@ == before,
            decreases left,
        {
            let i = left - 1;
            let start = self.walk[i];
            let end = self.walk[i + 1];
            let direction = if start.0 == end.0 {
                if end.1 > start.1 {
                    Direction::DOWN
                } else {
                    Direction::UP
                }
            } else {
                if end.0 > start.0 {
                    Direction::RIGHT
                } else {
                    Direction::LEFT
                }
            };
            let ghost current = maze@;
            proof {
                state.lemma_carve_step(before, current, i as int);
                current.lemma_carved_extends(start, direction);
            }
            let carved = maze.carve(start.0, start.1, direction);
            assert(carved is Ok);
            proof {
                assert(maze@.extends(before)) by {
                    assert forall|p: (usize, usize), d: Direction| #[trigger] before.passage(
                        p,
                        d,
                    ) implies maze@.passage(p, d) by {
                        assert(current.passage(p, d));
                    }
                }
            }
            left = i;
        }
        proof {
            self.root@ = Some(state.root_to_be());
        }
    }

    /// Starts a new walk at the cell `start`, or, with no cell to start at,
    /// leaves no walk.
    pub fn restart(&mut self, maze: &Maze, start: Option<(usize, usize)>)
        requires
            maze.wf(),
            old(self)@.target is None,
            old(self)@.root matches Some(r) && maze@.is_tree(r),
            start matches Some(cell) ==> maze@.blank_cells().contains(cell),
            start is None ==> maze@.blank_cells().len() == 0,
        ensures
            final(self)@.fits(maze@),
            final(self)@.walk == (match start {
                Some(cell) => seq![cell],
                None => Seq::empty(),
            }),
            final(self)@.target is None,
            final(self)@.root == old(self)@.root,
            final(self)@.back == (if start is Some {
                None
            } else {
                old(self)@.back
            }),
    {
        self.walk.clear();
        match start {
            Some(cell) => {
                self.walk.clear();
                self.walk.push(cell);
                self.opposite_of_last_direction = None;
                proof {
                    let cells = maze@.blank_cells();
                    let j = choose|j: int| 0 <= j < cells.len() && cells[j] == cell;
                    maze@.lemma_blank_cell(maze@.cells.len() as int, j);
                    assert(self@.walk =~= seq![cell]);
                    assert(self@.free_at(maze@, 0));
                }
            },
            None => {
                proof {
                    WilsonState::lemma_complete(maze@, self@.root->0);
                    assert(self@.walk =~= Seq::empty());
                }
            },
        }
    }

    /// Starts a new walk at a cell drawn at random from the cells without a
    /// passage, and says whether there was none left: then the maze is
    /// complete.
    pub fn create_new_walk(&mut self, maze: &Maze) -> (done: bool)
        requires
            maze.wf(),
            old(self)@.target is None,
            old(self)@.root matches Some(r) && maze@.is_tree(r),
        ensures
            final(self)@.fits(maze@),
            done == (maze@.blank_cells().len() == 0),
            done == final(self)@.finished(),
            !done ==> final(self)@.walk.len() == 1 && maze@.blank_cells().contains(
                final(self)@.walk[0],
            ) && final(self)@.back is None,
            final(self)@.target is None,
            final(self)@.root == old(self)@.root,
            done ==> final(self)@.back == old(self)@.back,
    {
        let possible_next = blank_cells(maze);
        if possible_next.len() == 0 {
            self.restart(maze, None);
            return true;
        }
        let pick = random_below(possible_next.len());
        let start = possible_next[pick];
        self.restart(maze, Some(start));
        false
    }

    /// Goes on to `next`, one of the cells next to the last cell of the
    /// walk, with the direction that leads there. If the walk has been at
    /// that cell, it is cut back to there. Otherwise the cell joins the
    /// walk; and if it belongs to the maze, or is the target of the first
    /// walk, the walk is carved into the maze. Says whether it was carved:
    /// then a new walk is to be started.
    pub fn advance(&mut self, maze: &mut Maze, next: (usize, usize, Direction)) -> (carved: bool)
        requires
            old(maze).wf(),
            old(self)@.fits(old(maze)@),
            !old(self)@.finished(),
            old(maze)@.neighbors(old(self)@.walk.last()).contains(next),
        ensures
            final(maze).wf(),
            final(maze)@.extends(old(maze)@),
            old(self)@.advances_to(old(maze)@, next, final(self)@, final(maze)@, carved),
            !carved ==> final(self)@.fits(final(maze)@) && !final(self)@.finished(),
            carved ==> final(self)@.target is None && (final(self)@.root matches Some(r)
                && final(maze)@.is_tree(r)),
    {
        let cell = (next.0, next.1);
        let ghost before = maze@;
        let ghost state = self@;
        proof {
            before.lemma_neighbors_listed(state.walk.last(), next);
            assert(maze@.extends(before));
        }
        match self.pos_in_stack(cell) {
            Some(break_index) => {
                assert(break_index < self.walk.len());
                assert(state.walk[break_index as int] == cell);
                self.walk.truncate(break_index + 1);
                proof {
                    let cut = self@;
                    assert(cut.walk =~= state.walk.subrange(0, break_index + 1));
                    assert(cut == state.erased(break_index as int));
                    assert forall|i: int| 0 <= i < cut.walk.len() implies #[trigger] cut.free_at(
                        before,
                        i,
                    ) by {
                        assert(state.free_at(before, i));
                    }
                    assert forall|i: int| 0 <= i < cut.walk.len() - 1 implies #[trigger] cut.adjacent_at(
                        before,
                        i,
                    ) by {
                        assert(state.adjacent_at(before, i));
                    }
                    if state.target is Some {
                        let t = state.target->0;
                        if cut.walk.contains(t) {
                            let j = choose|j: int| 0 <= j < cut.walk.len() && cut.walk[j] == t;
                            assert(state.walk[j] == t);
                        }
                    }
                }
                return false;
            },
            None => {},
        }
        self.opposite_of_last_direction = Some(next.2.opposite());
        self.walk.push(cell);
        let ghost longer = self@;
        proof {
            assert(longer.walk =~= state.walk.push(cell));
            assert forall|i: int| 0 <= i < longer.walk.len() - 1 implies #[trigger] longer.adjacent_at(
                before,
                i,
            ) by {
                if i < state.walk.len() - 1 {
                    assert(state.adjacent_at(before, i));
                }
            }
            assert forall|i: int| 0 <= i < longer.walk.len() - 1 implies #[trigger] longer.free_at(
                before,
                i,
            ) by {
                assert(state.free_at(before, i));
            }
            assert(longer.walk.no_duplicates());
        }
        let reached = match maze.get(cell.0, cell.1) {
            Ok(mask) => mask != 0,
            Err(_) => false,
        };
        let at_target = match self.first_walk_target {
            Some(target) => target.0 == cell.0 && target.1 == cell.1,
            None => false,
        };
        if reached || at_target {
            proof {
                if state.target is Some {
                    before.lemma_blank();
                }
            }
            self.finish_walk(maze);
            self.first_walk_target = None;
            return true;
        }
        proof {
            assert(longer.free_at(before, longer.walk.len() - 1));
            if longer.target is Some {
                let t = longer.target->0;
                if longer.walk.contains(t) {
                    let j = choose|j: int| 0 <= j < longer.walk.len() && longer.walk[j] == t;
                    if j < state.walk.len() {
                        assert(state.walk[j] == t);
                    }
                }
            }
        }
        false
    }
}

impl MazeGenerator for Wilson {
    /// The generator fits the grid.
    open spec fn ready(&self, grid: Grid) -> bool {
        self@.fits(grid)
    }

    /// The generator has nothing left to carve.
    open spec fn finished(&self) -> bool {
        self@.finished()
    }

    /// Draws a cell next to the last cell of the walk; if that leads back
    /// to where the walk came from, draws once more; and goes on to the
    /// cell drawn. When the walk has been carved into the maze, a new walk
    /// starts. With no walk left the maze is complete, and stays as it is.
    fn step(&mut self, maze: &mut Maze) -> (done: bool)
        ensures
            done ==> final(maze)@.is_perfect(),
            exists|next: (usize, usize, Direction)| #[trigger]
                old(self)@.steps_to(old(maze)@, next, final(self)@, final(maze)@),
    {
        let ghost state = self@;
        let ghost before = maze@;
        if self.walk.len() == 0 {
            proof {
                assert(maze@.extends(maze@));
                assert(state.steps_to(before, (0, 0, Direction::UP), self@, maze@));
            }
            return true;
        }
        let pos = self.walk[self.walk.len() - 1];
        let neighbors = maze.get_neighbors(pos);
        proof {
            self@.lemma_has_neighbors(maze@);
        }
        let first = random_below(neighbors.len());
        let mut next = neighbors[first];
        let turned_back = match self.opposite_of_last_direction {
            Some(back) => back == next.2,
            None => false,
        };
        if turned_back {
            let second = random_below(neighbors.len());
            next = neighbors[second];
        }
        assert(before.neighbors(pos).contains(next));
        if self.advance(maze, next) {
            let ghost carved = self@;
            let done = self.create_new_walk(maze);
            proof {
                assert(state.advances_to(before, next, carved, maze@, true));
                assert(carved.restarts_as(maze@, self@));
                assert(state.steps_to(before, next, self@, maze@));
            }
            return done;
        }
        proof {
            assert(state.steps_to(before, next, self@, maze@));
        }
        false
    }
}

/// A maze that Wilson's algorithm has completed is a perfect maze: it has
/// one passage less than it has cells, and every cell can be reached from
/// the first cell.
pub proof fn lemma_generated_maze_is_perfect(grid: Grid, generator: Wilson)
    requires
        grid.wf(),
        generator.ready(grid),
        generator.finished(),
    ensures
        grid.passage_count() == grid.width * grid.height - 1,
        forall|p: (usize, usize)| grid.contains(p) ==> #[trigger] grid.reachable((0, 0), p),
        grid.symmetric(),
{
}

} // verus!
