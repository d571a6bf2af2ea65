//! Three ways to find a route from the first cell of a maze to its goal.
use std::collections::{BTreeMap, HashMap, HashSet, VecDeque};
use vstd::prelude::*;
use vstd::std_specs::cmp::OrdSpec;

use crate::maze::a_star::{after, cheaper, manhattan, tied, AStarState, CellInformation};
use crate::maze::breadth_first::BfsState;
use crate::maze::depth_first::{first_unseen, DfsState};
use crate::maze::grid::Grid;
use crate::maze::progress::lemma_tally_bounds;
use crate::maze::{Maze, MazeSolver};
use crate::Direction;

verus! {

/// The index of a cell of the maze among its cells.
fn cell_key(maze: &Maze, pos: (usize, usize)) -> (key: usize)
    requires
        maze.wf(),
        maze@.contains(pos),
    ensures
        key == maze@.key(pos),
        key == maze@.index(pos),
        key < maze@.cells.len(),
{
    match maze.xy_to_i(pos.0, pos.1) {
        Ok(i) => i,
        Err(_) => 0,
    }
}

/// Depth-first search: follow passages as far as they go, and walk back
/// where they end.
pub struct DFSSolver {
    visited: HashSet<usize>,
    path: Vec<(usize, usize)>,
    end: (usize, usize),
}

impl View for DFSSolver {
    type V = DfsState;

    /// What the search knows.
    closed spec fn view(&self) -> DfsState {
        DfsState { visited: self.visited@, path: self.path@, end: self.end }
    }
}

impl DFSSolver {
    /// The route walked so far, from the first cell to where the search
    /// stands.
    pub fn path(&self) -> (path: &Vec<(usize, usize)>)
        ensures
            path@ == self@.path,
    {
        &self.path
    }

    /// Whether the search has given up: it has walked back to before the
    /// first cell, and no further step will find a route.
    pub fn is_exhausted(&self) -> (exhausted: bool)
        ensures
            exhausted == self@.exhausted(),
    {
        self.path.len() == 0
    }

    /// Whether the search has left behind the cell with the given key.
    pub fn has_visited(&self, key: usize) -> (visited: bool)
        ensures
            visited == self@.visited.contains(key),
    {
        self.visited.contains(&key)
    }
}

impl MazeSolver for DFSSolver {
    /// The search fits the grid.
    open spec fn ready(&self, grid: Grid) -> bool {
        self@.fits(grid)
    }

    /// The route of a search that has come to the goal.
    open spec fn found(&self) -> Option<Seq<(usize, usize)>> {
        if self@.arrived() {
            Some(self@.path)
        } else {
            None
        }
    }

    /// A search that stands on the first cell and has left no cell behind.
    fn new(bounds: (usize, usize)) -> (solver: Self)
        ensures
            solver@ == DfsState::initial(bounds),
    {
        let mut path: Vec<(usize, usize)> = Vec::new();
        path.push((0, 0));
        let solver = Self { visited: HashSet::new(), path, end: (bounds.0 - 1, bounds.1 - 1) };
        proof {
            assert(solver@.path =~= seq![(0usize, 0usize)]);
            assert forall|grid: Grid|
                grid.wf() && grid.width == bounds.0 && grid.height == bounds.1 implies #[trigger] solver.ready(
                grid,
            ) by {
                assert(grid.contains((0, 0)));
            }
        }
        solver
    }

    /// At the goal the search hands out its path and stays. Elsewhere it
    /// leaves the cell on which it stands behind, and goes on to the first
    /// of the cells that a passage leads to, in the order up, right, down,
    /// left, which it has not left behind; where there is none, it walks
    /// one cell back. A search that has walked back to before the first
    /// cell has given up, and stays as it is.
    fn step(&mut self, maze: &Maze) -> (r: Option<&Vec<(usize, usize)>>)
        ensures
            final(self)@ == old(self)@.step(maze@),
            r is Some <==> old(self)@.arrived(),
    {
        proof {
            self@.lemma_step_fits(maze@);
        }
        if self.path.len() == 0 {
            return None;
        }
        let pos = self.path[self.path.len() - 1];
        if pos.0 == self.end.0 && pos.1 == self.end.1 {
            return Some(&self.path);
        }
        proof {
            maze@.lemma_route_within(self.path@, self.path@.len() - 1);
        }
        let neighbors = maze.get_travellable_neighbors(pos);
        let ghost cells = maze@.travellable(pos);
        let mut next: Option<(usize, usize)> = None;
        let mut i: usize = 0;
        while i < neighbors.1 && next.is_none()
            invariant
                maze.wf(),
                maze@.contains(pos),
                cells == maze@.travellable(pos),
                neighbors.1 == cells.len(),
                neighbors.0@.subrange(0, neighbors.1 as int) == cells,
                i <= neighbors.1,
                self.visited@ == old(self).visited@,
                self.path@ == old(self).path@,
                self.end == old(self).end,
                next is None ==> first_unseen(maze@, self.visited@, cells, 0) == first_unseen(
                    maze@,
                    self.visited@,
                    cells,
                    i as int,
                ),
                next is Some ==> first_unseen(maze@, self.visited@, cells, 0) == next,
            decreases neighbors.1 - i + (if next is None { 1int } else { 0int }),
        {
            let candidate = neighbors.0[i];
            proof {
                assert(candidate == cells[i as int]) by {
                    assert(neighbors.0@.subrange(0, neighbors.1 as int)[i as int] == neighbors.0@[i as int]);
                }
                maze@.lemma_linked_is_travellable(pos, candidate);
                maze@.lemma_linked_contains(pos, candidate);
            }
            let key = cell_key(maze, candidate);
            if self.visited.contains(&key) {
                i += 1;
            } else {
                next = Some(candidate);
            }
        }
        let key = cell_key(maze, pos);
        self.visited.insert(key);
        match next {
            Some(v) => {
                self.path.push(v);
            },
            None => {
                self.path.pop();
            },
        }
        None
    }
}

/// The cells of `trail` in the opposite order.
fn reversed(trail: &Vec<(usize, usize)>) -> (path: Vec<(usize, usize)>)
    ensures
        path@ == trail@.reverse(),
{
    let mut path: Vec<(usize, usize)> = Vec::new();
    let mut left: usize = trail.len();
    while left > 0
        invariant
            left <= trail.len(),
            path@.len() == trail.len() - left,
            forall|i: int| 0 <= i < path@.len() ==> #[trigger] path@[i] == trail@[trail.len() - 1 - i],
        decreases left,
    {
        left -= 1;
        path.push(trail[left]);
    }
    assert(path@ =~= trail@.reverse());
    path
}

/// Breadth-first search: look at the cells in the order in which they were
/// reached, so that the goal is reached on a shortest route.
pub struct BFSSolver {
    queue: VecDeque<(usize, usize)>,
    visited: HashMap<usize, Option<(usize, usize)>>,
    depth: Ghost<Map<usize, nat>>,
    path: Vec<(usize, usize)>,
    finished: bool,
    end: (usize, usize),
}

impl View for BFSSolver {
    type V = BfsState;

    /// What the search knows.
    closed spec fn view(&self) -> BfsState {
        BfsState {
            queue: self.queue@,
            visited: self.visited@,
            depth: self.depth@,
            path: self.path@,
            finished: self.finished,
            end: self.end,
        }
    }
}

impl BFSSolver {
    /// The way from the goal back to the first cell, along the cells from
    /// which the search reached each cell.
    fn trail(&self, maze: &Maze, goal: (usize, usize), Ghost(state): Ghost<BfsState>) -> (trail: Vec<
        (usize, usize),
    >)
        requires
            maze.wf(),
            state.searching(maze@),
            state.visited == self@.visited,
            maze@.contains(goal),
            state.seen(maze@, goal),
        ensures
            trail@.len() > 0,
            trail@[0] == goal,
            state.origin(maze@, trail@.last()) is None,
            forall|k: int|
                0 <= k < trail@.len() - 1 ==> #[trigger] state.follows_at(
                    maze@,
                    trail@.reverse(),
                    trail@.len() - 1 - k,
                ),
    {
        let mut trail: Vec<(usize, usize)> = Vec::new();
        let mut cur = goal;
        let mut done = false;
        while !done
            invariant
                maze.wf(),
                state.searching(maze@),
                state.visited == self@.visited,
                maze@.contains(cur),
                state.seen(maze@, cur),
                trail@.len() == 0 ==> cur == goal && !done,
                trail@.len() > 0 ==> trail@[0] == goal,
                !done && trail@.len() > 0 ==> state.origin(maze@, trail@.last()) == Some(cur),
                done ==> state.origin(maze@, trail@.last()) is None,
                forall|k: int|
                    0 <= k < trail@.len() - 1 ==> state.origin(maze@, #[trigger] trail@[k]) == Some(
                        trail@[k + 1],
                    ),
            decreases
                    (if done {
                        0
                    } else {
                        state.depth_of(maze@, cur) + 1
                    }),
        {
            trail.push(cur);
            let key = cell_key(maze, cur);
            let entry = self.visited.get(&key);
            let from = match entry {
                Some(origin) => *origin,
                None => None,
            };
            match from {
                Some(prev) => {
                    proof {
                        assert(state.origin(maze@, cur) == Some(prev));
                        assert(state.well_reached(maze@, cur));
                        maze@.lemma_linked_contains(prev, cur);
                    }
                    cur = prev;
                },
                None => {
                    done = true;
                },
            }
        }
        proof {
            let back = trail@.reverse();
            assert forall|k: int| 0 <= k < trail@.len() - 1 implies #[trigger] state.follows_at(
                maze@,
                back,
                trail@.len() - 1 - k,
            ) by {
                assert(back[trail@.len() - 1 - k] == trail@[k]);
                assert(back[trail@.len() - 1 - k - 1] == trail@[k + 1]);
            }
        }
        trail
    }

    /// The route that the search found, once it has finished; before that,
    /// no cell.
    pub fn path(&self) -> (path: &Vec<(usize, usize)>)
        ensures
            path@ == self@.path,
    {
        &self.path
    }

    /// Whether the search has found its route.
    pub fn is_finished(&self) -> (finished: bool)
        ensures
            finished == self@.finished,
    {
        self.finished
    }

    /// Whether the search has reached the cell with the given key.
    pub fn has_visited(&self, key: usize) -> (visited: bool)
        ensures
            visited == self@.visited.contains_key(key),
    {
        self.visited.contains_key(&key)
    }

    /// Whether the search has given up: nothing is left to look at, and no
    /// further step will find a route.
    pub fn is_exhausted(&self) -> (exhausted: bool)
        ensures
            exhausted == self@.exhausted(),
    {
        !self.finished && self.queue.len() == 0
    }
}

impl MazeSolver for BFSSolver {
    /// The search fits the grid.
    open spec fn ready(&self, grid: Grid) -> bool {
        self@.fits(grid)
    }

    /// The route of a search that has come to the goal.
    open spec fn found(&self) -> Option<Seq<(usize, usize)>> {
        if self@.finished {
            Some(self@.path)
        } else {
            None
        }
    }

    /// A search in whose queue the first cell waits.
    fn new(bounds: (usize, usize)) -> (solver: Self)
        ensures
            solver@ == BfsState::initial(bounds),
    {
        let mut queue: VecDeque<(usize, usize)> = VecDeque::new();
        let mut visited: HashMap<usize, Option<(usize, usize)>> = HashMap::new();
        queue.push_back((0, 0));
        visited.insert(0, None);
        let depth: Ghost<Map<usize, nat>> = Ghost(Map::empty().insert(0usize, 0nat));
        let solver = Self {
            queue,
            visited,
            depth,
            path: Vec::new(),
            finished: false,
            end: (bounds.0 - 1, bounds.1 - 1),
        };
        proof {
            assert(solver@.queue =~= seq![(0usize, 0usize)]);
            assert(solver@.visited =~= map![0usize => None::<(usize, usize)>]);
            assert(solver@.depth =~= map![0usize => 0nat]);
            assert(solver@ =~= BfsState::initial(bounds));
            assert forall|grid: Grid|
                grid.wf() && grid.width == bounds.0 && grid.height == bounds.1 implies #[trigger] solver.ready(
                grid,
            ) by {
                BfsState::lemma_initial_fits(bounds, grid);
            }
        }
        solver
    }

    /// A search that has finished hands out its route and stays. Otherwise
    /// the first cell leaves the queue. If it is the goal, the search has
    /// finished, and hands out the way on which it reached the goal, which
    /// is a shortest route. If not, each cell that a passage leads to from
    /// it, in the order up, right, down, left, and that has not been
    /// reached before, joins the queue. A search whose queue is empty has
    /// given up, and stays as it is.
    fn step(&mut self, maze: &Maze) -> (r: Option<&Vec<(usize, usize)>>)
        ensures
            old(self)@.steps_to(maze@, final(self)@),
            r is Some <==> final(self)@.finished,
            r matches Some(path) ==> maze@.is_shortest_solution(path@),
    {
        if self.finished {
            return Some(&self.path);
        }
        let ghost before = self@;
        let pos = match self.queue.pop_front() {
            Some(pos) => pos,
            None => {
                assert(self@ =~= before);
                return None;
            },
        };
        proof {
            assert(before.queued_in_order(maze@, 0));
            assert(self.queue@ =~= before.queue.drop_first());
        }
        if pos.0 == self.end.0 && pos.1 == self.end.1 {
            let trail = self.trail(maze, pos, Ghost(before));
            self.path = reversed(&trail);
            self.finished = true;
            proof {
                let path = self.path@;
                assert(path.last() == trail@[0]);
                assert(path[0] == trail@.last());
                assert forall|i: int| 1 <= i < path.len() implies #[trigger] before.follows_at(
                    maze@,
                    path,
                    i,
                ) by {
                    let k = trail@.len() - 1 - i;
                    assert(before.follows_at(maze@, trail@.reverse(), trail@.len() - 1 - k));
                }
                assert(before.is_trail(maze@, path));
                before.lemma_trail_is_shortest(maze@, path);
            }
            return Some(&self.path);
        }
        let neighbors = maze.get_travellable_neighbors(pos);
        let ghost cells = maze@.travellable(pos);
        proof {
            assert forall|j: int| 0 <= j < cells.len() implies maze@.linked(pos, #[trigger] cells[j]) by {
                assert(cells.contains(cells[j]));
                maze@.lemma_linked_is_travellable(pos, cells[j]);
            }
            before.lemma_expand(maze@, pos, cells, 0);
        }
        let mut i: usize = 0;
        while i < neighbors.1
            invariant
                maze.wf(),
                before.searching(maze@),
                before.queue.len() > 0,
                pos == before.queue[0],
                cells == maze@.travellable(pos),
                neighbors.1 == cells.len(),
                neighbors.0@.subrange(0, neighbors.1 as int) == cells,
                forall|j: int| 0 <= j < cells.len() ==> maze@.linked(pos, #[trigger] cells[j]),
                i <= neighbors.1,
                self@ == before.expand(maze@, pos, cells, i as int).dequeued(),
            decreases neighbors.1 - i,
        {
            let cell = neighbors.0[i];
            let ghost so_far = before.expand(maze@, pos, cells, i as int);
            proof {
                assert(cell == cells[i as int]) by {
                    assert(neighbors.0@.subrange(0, neighbors.1 as int)[i as int] == neighbors.0@[i as int]);
                }
                maze@.lemma_linked_contains(pos, cell);
                before.lemma_expand(maze@, pos, cells, i as int);
                assert(so_far.queued_in_order(maze@, 0));
            }
            let key = cell_key(maze, cell);
            if !self.visited.contains_key(&key) {
                self.visited.insert(key, Some(pos));
                self.queue.push_back(cell);
                proof {
                    self.depth@ = self.depth@.insert(key, so_far.depth_of(maze@, pos) + 1);
                    assert(self.queue@ =~= so_far.queue.push(cell).drop_first());
                }
            }
            proof {
                assert(self@ =~= so_far.enqueue(maze@, pos, cell).dequeued());
            }
            i += 1;
        }
        proof {
            before.lemma_expand(maze@, pos, cells, cells.len() as int);
            before.lemma_step_searching(maze@);
        }
        None
    }
}


/// Among keys that stand in rising order, a later one stands after an
/// earlier one, counting column by column.
proof fn lemma_rising_keys(keys: Seq<(usize, usize)>, i: int, j: int)
    requires
        vstd::std_specs::btree::increasing_seq(keys),
        0 <= i < j < keys.len(),
    ensures
        after(keys[j], keys[i]),
{
    broadcast use vstd::laws_cmp::group_laws_cmp;

    vstd::std_specs::btree::axiom_increasing_seq_meaning(keys);
    assert(keys[i].cmp_spec(&keys[j]) is Less);
}

/// The distance between two cells for one who walks along rows and columns.
fn distance(a: (usize, usize), b: (usize, usize)) -> (d: usize)
    requires
        manhattan(a, b) <= usize::MAX,
    ensures
        d == manhattan(a, b),
{
    let dx = if a.0 >= b.0 {
        a.0 - b.0
    } else {
        b.0 - a.0
    };
    let dy = if a.1 >= b.1 {
        a.1 - b.1
    } else {
        b.1 - a.1
    };
    dx + dy
}

/// Best-first search: of the cells found so far, look next at the one that
/// took the fewest steps, and among those at the one that was found nearest
/// to the goal.
pub struct AStarSolver {
    open: BTreeMap<(usize, usize), CellInformation>,
    closed: HashMap<usize, CellInformation>,
    end: (usize, usize),
    path: Vec<(usize, usize)>,
}

impl View for AStarSolver {
    type V = AStarState;

    /// What the search knows.
    closed spec fn view(&self) -> AStarState {
        AStarState { open: self.open@, closed: self.closed@, path: self.path@, end: self.end }
    }
}

impl AStarSolver {
    /// The found cell that the search looks at next, with what it remembers
    /// of it.
    fn best(&self) -> (best: Option<((usize, usize), CellInformation)>)
        ensures
            best matches Some(b) ==> self@.is_best(b.0) && self@.open[b.0] == b.1,
            best is None ==> forall|p: (usize, usize)| !self@.open.contains_key(p),
    {
        broadcast use vstd::laws_cmp::group_laws_cmp;

        let mut best: Option<((usize, usize), CellInformation)> = None;
        for entry in it: self.open.iter()
            invariant
                vstd::std_specs::btree::increasing_seq(
                    it.seq().map_values(|kv: (&(usize, usize), &CellInformation)| *kv.0),
                ),
                best is None ==> it.index() == 0,
                best matches Some(b) ==> {
                    &&& self.open@.contains_key(b.0)
                    &&& self.open@[b.0] == b.1
                    &&& forall|j: int|
                        0 <= j < it.index() ==> *(#[trigger] it.seq()[j]).0 == b.0 || cheaper(
                            b.1,
                            *it.seq()[j].1,
                        ) || (tied(b.1, *it.seq()[j].1) && after(b.0, *it.seq()[j].0))
                },
        {
            let (pos, info) = entry;
            let take = match best {
                None => true,
                Some(b) => info.cost < b.1.cost || (info.cost == b.1.cost && info.heuristic
                    <= b.1.heuristic),
            };
            proof {
                let keys = it.seq().map_values(|kv: (&(usize, usize), &CellInformation)| *kv.0);
                assert forall|j: int| 0 <= j < it.index() implies after(
                    *pos,
                    *(#[trigger] it.seq()[j]).0,
                ) by {
                    lemma_rising_keys(keys, j, it.index());
                }
            }
            if take {
                best = Some((*pos, *info));
            }
        }
        proof {
            if best is Some {
                let b = best->0;
                assert forall|k: (usize, usize)|
                    self@.open.contains_key(k) && k != b.0 implies #[trigger] self@.precedes(
                    b.0,
                    k,
                ) by {
                    assert(self.open@.contains_key(k));
                }
            }
        }
        best
    }

    /// The way from the goal back to the first cell, along the cells from
    /// which the search came to each cell.
    fn trail(&self, maze: &Maze, goal: (usize, usize)) -> (trail: Vec<(usize, usize)>)
        requires
            maze.wf(),
            self@.searching(maze@),
            maze@.contains(goal),
            self@.settled(maze@, goal),
        ensures
            trail@.len() > 0,
            trail@[0] == goal,
            self@.closed[maze@.key(trail@.last())].from is None,
            forall|k: int|
                0 <= k < trail@.len() - 1 ==> #[trigger] self@.follows_at(
                    maze@,
                    trail@.reverse(),
                    trail@.len() - 1 - k,
                ),
    {
        let mut trail: Vec<(usize, usize)> = Vec::new();
        let mut cur = goal;
        let mut done = false;
        while !done
            invariant
                maze.wf(),
                self@.searching(maze@),
                maze@.contains(cur),
                self@.settled(maze@, cur),
                trail@.len() == 0 ==> cur == goal && !done,
                trail@.len() > 0 ==> trail@[0] == goal,
                !done && trail@.len() > 0 ==> self@.closed[maze@.key(trail@.last())].from == Some(
                    cur,
                ),
                done ==> self@.closed[maze@.key(trail@.last())].from is None,
                forall|k: int|
                    0 <= k < trail@.len() - 1 ==> self@.closed[maze@.key(#[trigger] trail@[k])].from
                        == Some(trail@[k + 1]),
            decreases
                    (if done {
                        0
                    } else {
                        self@.closed[maze@.key(cur)].cost + 1
                    }),
        {
            trail.push(cur);
            let key = cell_key(maze, cur);
            let entry = self.closed.get(&key);
            let from = match entry {
                Some(info) => info.from,
                None => None,
            };
            match from {
                Some(prev) => {
                    proof {
                        assert(self@.settled_well(maze@, cur));
                        maze@.lemma_linked_contains(prev, cur);
                    }
                    cur = prev;
                },
                None => {
                    done = true;
                },
            }
        }
        proof {
            let back = trail@.reverse();
            assert forall|k: int| 0 <= k < trail@.len() - 1 implies #[trigger] self@.follows_at(
                maze@,
                back,
                trail@.len() - 1 - k,
            ) by {
                assert(back[trail@.len() - 1 - k] == trail@[k]);
                assert(back[trail@.len() - 1 - k - 1] == trail@[k + 1]);
            }
        }
        trail
    }

    /// The route that the search found, once it has finished; before that,
    /// no cell.
    pub fn path(&self) -> (path: &Vec<(usize, usize)>)
        ensures
            path@ == self@.path,
    {
        &self.path
    }

    /// Whether the search has looked at the cell with the given key.
    pub fn has_closed(&self, key: usize) -> (closed: bool)
        ensures
            closed == self@.closed.contains_key(key),
    {
        self.closed.contains_key(&key)
    }

    /// Whether the search has found the cell `pos` and not looked at it yet.
    pub fn has_open(&self, pos: (usize, usize)) -> (open: bool)
        ensures
            open == self@.open.contains_key(pos),
    {
        broadcast use vstd::laws_cmp::group_laws_cmp;

        self.open.contains_key(&pos)
    }

    /// Whether the search has given up: no found cell is left to look at,
    /// and no further step will find a route.
    pub fn is_exhausted(&self) -> (exhausted: bool)
        ensures
            exhausted == self@.exhausted(),
    {
        let empty = self.open.is_empty();
        proof {
            let found = self.open@.dom();
            assert(self@.open.dom() == found);
            assert(empty == (found =~= Set::<(usize, usize)>::empty()));
            if !empty {
                if forall|p: (usize, usize)| !self@.open.contains_key(p) {
                    assert forall|p: (usize, usize)| !found.contains(p) by {
                        assert(!self@.open.contains_key(p));
                    }
                    assert(found =~= Set::<(usize, usize)>::empty());
                }
            }
        }
        self.path.len() == 0 && empty
    }

    /// Counts the cell `pos` among the found cells, with what is to be
    /// remembered of it.
    fn remember(&mut self, pos: (usize, usize), info: CellInformation)
        ensures
            final(self)@ == (AStarState { open: old(self)@.open.insert(pos, info), ..old(self)@ }),
    {
        broadcast use vstd::laws_cmp::group_laws_cmp;

        self.open.insert(pos, info);
    }

    /// Takes the cell `pos` from the found cells.
    fn forget(&mut self, pos: (usize, usize))
        ensures
            final(self)@ == (AStarState { open: old(self)@.open.remove(pos), ..old(self)@ }),
    {
        broadcast use vstd::laws_cmp::group_laws_cmp;

        self.open.remove(&pos);
    }
}

impl MazeSolver for AStarSolver {
    /// The search fits the grid.
    open spec fn ready(&self, grid: Grid) -> bool {
        self@.fits(grid)
    }

    /// The route of a search that has come to the goal.
    open spec fn found(&self) -> Option<Seq<(usize, usize)>> {
        if self@.finished() {
            Some(self@.path)
        } else {
            None
        }
    }

    /// A search that has found the first cell and looked at none.
    fn new(bounds: (usize, usize)) -> (solver: Self)
        ensures
            solver@ == AStarState::initial(bounds),
    {
        broadcast use vstd::laws_cmp::group_laws_cmp;

        let mut open: BTreeMap<(usize, usize), CellInformation> = BTreeMap::new();
        open.insert((0, 0), CellInformation { cost: 0, heuristic: 0, from: None });
        let solver = Self {
            open,
            closed: HashMap::new(),
            end: (bounds.0 - 1, bounds.1 - 1),
            path: Vec::new(),
        };
        proof {
            assert(solver@ =~= AStarState::initial(bounds));
            assert forall|grid: Grid|
                grid.wf() && grid.width == bounds.0 && grid.height == bounds.1 implies #[trigger] solver.ready(
                grid,
            ) by {
                AStarState::lemma_initial_fits(bounds, grid);
            }
        }
        solver
    }

    /// A search that has finished hands out its route and stays. Otherwise
    /// the search looks at the best of the cells that it has found: the
    /// one of least cost, among those the one of least estimate, among
    /// those the last, counting column by column. If it is the goal, the
    /// search has finished, and hands out the way on which it came
    /// there. If not, each cell that a passage leads to from it, and that
    /// has been neither looked at nor found, is found, at one step more
    /// and with the distance from the cell looked at to the goal as its
    /// estimate. A search that has found no cell to look at has given up,
    /// and stays as it is.
    fn step(&mut self, maze: &Maze) -> (r: Option<&Vec<(usize, usize)>>)
        ensures
            old(self)@.steps_to(maze@, final(self)@),
            r is Some <==> final(self)@.finished(),
    {
        if self.path.len() > 0 {
            return Some(&self.path);
        }
        let ghost before = self@;
        let (current_pos, current) = match self.best() {
            Some(best) => best,
            None => {
                return None;
            },
        };
        proof {
            assert(before.found_well(maze@, current_pos));
            before.lemma_settle(maze@, current_pos);
        }
        let key = cell_key(maze, current_pos);
        self.closed.insert(key, current);
        self.forget(current_pos);
        let ghost settled = before.settle(maze@, current_pos);
        proof {
            assert(self@ =~= settled);
            assert(vstd::std_specs::hash::spec_hash_map_len(&self.closed) == self.closed@.len());
            assert(before.sound(maze@, current_pos, current));
        }
        if current_pos.0 == self.end.0 && current_pos.1 == self.end.1 {
            let trail = self.trail(maze, current_pos);
            self.path = reversed(&trail);
            proof {
                let path = self.path@;
                assert(path.last() == trail@[0]);
                assert(path[0] == trail@.last());
                assert forall|i: int| 1 <= i < path.len() implies #[trigger] settled.follows_at(
                    maze@,
                    path,
                    i,
                ) by {
                    let k = trail@.len() - 1 - i;
                    assert(settled.follows_at(maze@, trail@.reverse(), trail@.len() - 1 - k));
                }
                assert(settled.is_trail(maze@, path));
                settled.lemma_trail_is_solution(maze@, path);
                assert(before.advances_by(maze@, current_pos, self@));
            }
            return Some(&self.path);
        }
        let neighbors = maze.get_travellable_neighbors(current_pos);
        let ghost cells = maze@.travellable(current_pos);
        proof {
            assert forall|j: int| 0 <= j < cells.len() implies maze@.linked(
                current_pos,
                #[trigger] cells[j],
            ) by {
                assert(cells.contains(cells[j]));
                maze@.lemma_linked_is_travellable(current_pos, cells[j]);
            }
            AStarState::lemma_manhattan_bound(maze@, current_pos);
        }
        let mut i: usize = 0;
        while i < neighbors.1
            invariant
                maze.wf(),
                settled.searching(maze@),
                settled.end == maze@.goal(),
                settled.path.len() == 0,
                maze@.contains(current_pos),
                settled.settled(maze@, current_pos),
                settled.closed[maze@.key(current_pos)] == current,
                current.cost < settled.closed.dom().len() <= usize::MAX,
                manhattan(current_pos, settled.end) <= usize::MAX,
                cells == maze@.travellable(current_pos),
                neighbors.1 == cells.len(),
                neighbors.0@.subrange(0, neighbors.1 as int) == cells,
                forall|j: int| 0 <= j < cells.len() ==> maze@.linked(current_pos, #[trigger] cells[j]),
                i <= neighbors.1,
                self@ == settled.expand(maze@, current_pos, current, cells, i as int),
            decreases neighbors.1 - i,
        {
            let cell = neighbors.0[i];
            proof {
                assert(cell == cells[i as int]) by {
                    assert(neighbors.0@.subrange(0, neighbors.1 as int)[i as int] == neighbors.0@[i as int]);
                }
                maze@.lemma_linked_contains(current_pos, cell);
                settled.lemma_expand(maze@, current_pos, current, cells, i as int);
            }
            let cell_key = cell_key(maze, cell);
            if !self.closed.contains_key(&cell_key) && !self.has_open(cell) {
                let heuristic = distance(current_pos, self.end);
                self.remember(
                    cell,
                    CellInformation { cost: current.cost + 1, heuristic, from: Some(current_pos) },
                );
            }
            proof {
                let so_far = settled.expand(maze@, current_pos, current, cells, i as int);
                assert(self@ =~= so_far.offer(maze@, current_pos, current, cell));
            }
            i += 1;
        }
        proof {
            settled.lemma_expand(maze@, current_pos, current, cells, cells.len() as int);
            before.lemma_step_thorough(maze@, current_pos);
            assert(before.advances_by(maze@, current_pos, self@));
        }
        None
    }
}


/// A solver of one of the three kinds.
pub enum Algorithm {
    DepthFirstSearch(DFSSolver),
    BreadthFirstSearch(BFSSolver),
    AStar(AStarSolver),
}

impl Algorithm {
    /// The solver and the grid fit together.
    pub open spec fn ready(&self, grid: Grid) -> bool {
        match self {
            Algorithm::DepthFirstSearch(v) => v.ready(grid),
            Algorithm::BreadthFirstSearch(v) => v.ready(grid),
            Algorithm::AStar(v) => v.ready(grid),
        }
    }

    /// The route that the solver has found, once it has found one.
    pub open spec fn found(&self) -> Option<Seq<(usize, usize)>> {
        match self {
            Algorithm::DepthFirstSearch(v) => v.found(),
            Algorithm::BreadthFirstSearch(v) => v.found(),
            Algorithm::AStar(v) => v.found(),
        }
    }

    /// The solver has given up: no further step will find a route.
    pub open spec fn exhausted(&self) -> bool {
        match self {
            Algorithm::DepthFirstSearch(v) => v@.exhausted(),
            Algorithm::BreadthFirstSearch(v) => v@.exhausted(),
            Algorithm::AStar(v) => v@.exhausted(),
        }
    }

    /// The fuel of the solver: a number that is never negative, and of
    /// which every step burns some until the solver has found its route
    /// or given up.
    pub open spec fn fuel(&self, grid: Grid) -> int {
        match self {
            Algorithm::DepthFirstSearch(v) => v@.fuel(grid),
            Algorithm::BreadthFirstSearch(v) => v@.fuel(grid),
            Algorithm::AStar(v) => v@.fuel(grid),
        }
    }

    /// Whether the solver has given up.
    pub fn is_exhausted(&self) -> (exhausted: bool)
        ensures
            exhausted == self.exhausted(),
    {
        match self {
            Algorithm::DepthFirstSearch(v) => v.is_exhausted(),
            Algorithm::BreadthFirstSearch(v) => v.is_exhausted(),
            Algorithm::AStar(v) => v.is_exhausted(),
        }
    }

    /// One step of the solver, whatever its kind, leads from this state to
    /// `next`.
    pub open spec fn steps_to(&self, grid: Grid, next: &Algorithm) -> bool {
        match (self, next) {
            (Algorithm::DepthFirstSearch(a), Algorithm::DepthFirstSearch(b)) => b@ == a@.step(grid),
            (Algorithm::BreadthFirstSearch(a), Algorithm::BreadthFirstSearch(b)) => a@.steps_to(
                grid,
                b@,
            ),
            (Algorithm::AStar(a), Algorithm::AStar(b)) => a@.steps_to(grid, b@),
            _ => false,
        }
    }

    /// Takes one step of the solver. The route is handed out by a
    /// depth-first search that stood at the goal before the step, and by
    /// the other two once they have finished.
    pub fn step(&mut self, maze: &Maze) -> (r: Option<&Vec<(usize, usize)>>)
        requires
            maze.wf(),
            old(self).ready(maze@),
        ensures
            final(self).ready(maze@),
            old(self).steps_to(maze@, &*final(self)),
            r matches Some(path) ==> final(self).found() == Some(path@) && maze@.is_solution(path@),
            old(self).found() is Some ==> final(self).found() == old(self).found() && r is Some,
            r is Some <==> (match *final(self) {
                Algorithm::DepthFirstSearch(_) => old(self).found() is Some,
                _ => final(self).found() is Some,
            }),
            maze@.solvable() ==> !final(self).exhausted(),
            old(self).found() is None && !old(self).exhausted() ==> 0 <= final(self).fuel(maze@)
                < old(self).fuel(maze@),
    {
        proof {
            assert forall|next: Algorithm| #[trigger]
                self.steps_to(maze@, &next) && self.found() is None
                    && !self.exhausted() implies 0 <= next.fuel(maze@) < self.fuel(maze@) by {
                lemma_step_burns_fuel(maze@, *self, next);
            }
            assert forall|next: Algorithm|
                next.ready(maze@) && #[trigger] next.exhausted() implies !maze@.solvable() by {
                lemma_gives_up_only_without_route(maze@, next);
            }
        }
        match self {
            Algorithm::BreadthFirstSearch(v) => v.step(maze),
            Algorithm::DepthFirstSearch(v) => v.step(maze),
            Algorithm::AStar(v) => v.step(maze),
        }
    }

    /// Steps the solver until it has found its route or given up, and
    /// hands out the route. It finds one in every maze that has one.
    pub fn solve(&mut self, maze: &Maze) -> (r: Option<&Vec<(usize, usize)>>)
        requires
            maze.wf(),
            old(self).ready(maze@),
        ensures
            final(self).ready(maze@),
            r is Some <==> maze@.solvable(),
            r matches Some(path) ==> final(self).found() == Some(path@) && maze@.is_solution(path@),
            r is None ==> final(self).exhausted(),
    {
        let mut found = false;
        while !found
            invariant
                maze.wf(),
                self.ready(maze@),
                found ==> self.found() is Some,
            decreases
                    (if found {
                        0
                    } else {
                        self.fuel(maze@) + 1
                    }),
        {
            proof {
                lemma_fuel_is_never_negative(maze@, *self);
            }
            if self.is_exhausted() {
                proof {
                    lemma_gives_up_only_without_route(maze@, *self);
                }
                return None;
            }
            found = self.step(maze).is_some();
        }
        self.step(maze)
    }
}

/// The letter for one step of a route from `from` to `to`: `R` where the
/// column grows, `L` where it shrinks, else `D` where the row grows, and
/// `U` otherwise.
pub open spec fn step_letter(from: (usize, usize), to: (usize, usize)) -> u8 {
    if to.0 > from.0 {
        0x52
    } else if to.0 < from.0 {
        0x4c
    } else if to.1 > from.1 {
        0x44
    } else {
        0x55
    }
}

/// The letters of a route: one for each of its steps.
pub open spec fn trace_of(path: Seq<(usize, usize)>) -> Seq<u8> {
    Seq::new(
        if path.len() > 0 {
            (path.len() - 1) as nat
        } else {
            0
        },
        |i: int| step_letter(path[i], path[i + 1]),
    )
}

/// Writes a route down as the letters of its steps.
pub fn solution_trace(path: &Vec<(usize, usize)>) -> (trace: Vec<u8>)
    ensures
        trace@ == trace_of(path@),
{
    let mut trace: Vec<u8> = Vec::new();
    if path.len() == 0 {
        return trace;
    }
    let mut i: usize = 0;
    while i + 1 < path.len()
        invariant
            0 < path.len(),
            i + 1 <= path.len(),
            trace@.len() == i,
            forall|j: int| 0 <= j < i ==> #[trigger] trace@[j] == step_letter(path@[j], path@[j + 1]),
        decreases path.len() - i,
    {
        let from = path[i];
        let to = path[i + 1];
        let direction = if to.0 > from.0 {
            Direction::RIGHT
        } else if to.0 < from.0 {
            Direction::LEFT
        } else if to.1 > from.1 {
            Direction::DOWN
        } else {
            Direction::UP
        };
        trace.push(
            match direction {
                Direction::UP => 0x55u8,
                Direction::RIGHT => 0x52u8,
                Direction::DOWN => 0x44u8,
                Direction::LEFT => 0x4cu8,
            },
        );
        i += 1;
    }
    assert(trace@ =~= trace_of(path@));
    trace
}

/// No solver has less fuel than none.
pub proof fn lemma_fuel_is_never_negative(grid: Grid, solver: Algorithm)
    ensures
        solver.fuel(grid) >= 0,
{
    match solver {
        Algorithm::DepthFirstSearch(v) => lemma_tally_bounds(grid.cells.len(), v@.trodden(grid)),
        Algorithm::BreadthFirstSearch(v) => lemma_tally_bounds(grid.cells.len(), v@.visited.dom()),
        Algorithm::AStar(v) => lemma_tally_bounds(grid.cells.len(), v@.closed.dom()),
    }
}

/// A step of a solver that has neither found its route nor given up burns
/// fuel, of which there is never less than none: no solver steps on for
/// ever.
pub proof fn lemma_step_burns_fuel(grid: Grid, before: Algorithm, after: Algorithm)
    requires
        grid.wf(),
        before.ready(grid),
        before.found() is None,
        !before.exhausted(),
        before.steps_to(grid, &after),
    ensures
        0 <= after.fuel(grid) < before.fuel(grid),
{
    match (before, after) {
        (Algorithm::DepthFirstSearch(a), Algorithm::DepthFirstSearch(b)) => {
            a@.lemma_step_burns_fuel(grid);
        },
        (Algorithm::BreadthFirstSearch(a), Algorithm::BreadthFirstSearch(b)) => {
            a@.lemma_step_burns_fuel(grid, b@);
        },
        (Algorithm::AStar(a), Algorithm::AStar(b)) => {
            a@.lemma_step_burns_fuel(grid, b@);
        },
        _ => {},
    }
}

/// A solver gives up only in a maze in which no route leads from the first
/// cell to the goal.
pub proof fn lemma_gives_up_only_without_route(grid: Grid, solver: Algorithm)
    requires
        grid.wf(),
        solver.ready(grid),
        solver.exhausted(),
    ensures
        !grid.solvable(),
{
    match solver {
        Algorithm::DepthFirstSearch(v) => v@.lemma_gives_up_without_route(grid),
        Algorithm::BreadthFirstSearch(v) => v@.lemma_gives_up_without_route(grid),
        Algorithm::AStar(v) => v@.lemma_gives_up_without_route(grid),
    }
}

/// In one maze, the route that a breadth-first search has found is no
/// longer than the route at whose end a depth-first search stands.
pub proof fn lemma_bfs_route_no_longer_than_dfs_route(grid: Grid, bfs: BFSSolver, dfs: DFSSolver)
    requires
        grid.wf(),
        bfs.ready(grid),
        dfs.ready(grid),
        bfs.found() is Some,
        dfs.found() is Some,
    ensures
        bfs.found()->0.len() <= dfs.found()->0.len(),
{
    assert(grid.is_shortest_solution(bfs@.path));
    assert(grid.is_solution(dfs@.path));
}

/// In one maze, the route that a breadth-first search has found is no
/// longer than the route that a best-first search has found.
pub proof fn lemma_bfs_route_no_longer_than_a_star_route(
    grid: Grid,
    bfs: BFSSolver,
    a_star: AStarSolver,
)
    requires
        grid.wf(),
        bfs.ready(grid),
        a_star.ready(grid),
        bfs.found() is Some,
        a_star.found() is Some,
    ensures
        bfs.found()->0.len() <= a_star.found()->0.len(),
{
    assert(grid.is_shortest_solution(bfs@.path));
    assert(grid.is_solution(a_star@.path));
}

} // verus!
