//! The model of a breadth-first search, and why the route that it finds is a
//! shortest one.
use vstd::prelude::*;

use crate::maze::grid::Grid;

verus! {

/// What a breadth-first search knows: the cells that wait to be looked at,
/// for each cell that it has reached the cell from which it reached it and
/// the number of steps that led there, both by the key of the cell, and,
/// once it has finished, the route that it found.
#[verifier::ext_equal]
pub struct BfsState {
    pub queue: Seq<(usize, usize)>,
    pub visited: Map<usize, Option<(usize, usize)>>,
    pub depth: Map<usize, nat>,
    pub path: Seq<(usize, usize)>,
    pub finished: bool,
    pub end: (usize, usize),
}

impl BfsState {
    /// The search before its first step, in a maze of the given bounds: the
    /// first cell waits, reached from nowhere in no step.
    pub open spec fn initial(bounds: (usize, usize)) -> BfsState {
        BfsState {
            queue: seq![(0usize, 0usize)],
            visited: map![0usize => None::<(usize, usize)>],
            depth: map![0usize => 0nat],
            path: Seq::empty(),
            finished: false,
            end: ((bounds.0 - 1) as usize, (bounds.1 - 1) as usize),
        }
    }

    /// The search has reached the cell `p`.
    pub open spec fn seen(self, grid: Grid, p: (usize, usize)) -> bool {
        self.visited.contains_key(grid.key(p))
    }

    /// The number of steps in which the search reached the cell `p`.
    pub open spec fn depth_of(self, grid: Grid, p: (usize, usize)) -> nat {
        self.depth[grid.key(p)]
    }

    /// The cell from which the search reached the cell `p`.
    pub open spec fn origin(self, grid: Grid, p: (usize, usize)) -> Option<(usize, usize)> {
        self.visited[grid.key(p)]
    }

    /// The cell `p` was reached through a passage from a cell that was
    /// reached one step earlier.
    pub open spec fn well_reached(self, grid: Grid, p: (usize, usize)) -> bool {
        &&& self.origin(grid, p) matches Some(u)
        &&& grid.linked(u, p)
        &&& self.seen(grid, u)
        &&& self.depth_of(grid, p) == self.depth_of(grid, u) + 1
    }

    /// The cell at place `i` of the queue lies in the grid, has been
    /// reached, and was reached no earlier than the one before it and at
    /// most one step later than the first.
    pub open spec fn queued_in_order(self, grid: Grid, i: int) -> bool {
        &&& grid.contains(self.queue[i])
        &&& self.seen(grid, self.queue[i])
        &&& self.depth_of(grid, self.queue[0]) <= self.depth_of(grid, self.queue[i])
            <= self.depth_of(grid, self.queue[0]) + 1
        &&& i > 0 ==> self.depth_of(grid, self.queue[i - 1]) <= self.depth_of(grid, self.queue[i])
    }

    /// The cell `p` has been looked at: it waits no longer and is not the
    /// goal, every cell that a passage leads to from it has been reached,
    /// and it was reached no later than any cell that waits.
    pub open spec fn settled(self, grid: Grid, p: (usize, usize)) -> bool {
        &&& p != self.end
        &&& forall|b: (usize, usize)| #[trigger] grid.linked(p, b) ==> self.seen(grid, b)
        &&& self.queue.len() > 0 ==> self.depth_of(grid, p) <= self.depth_of(grid, self.queue[0])
    }

    /// Along a passage the number of steps grows by one at most.
    pub open spec fn gentle(self, grid: Grid, u: (usize, usize), v: (usize, usize)) -> bool {
        self.seen(grid, u) && self.seen(grid, v) && grid.linked(u, v) ==> self.depth_of(grid, v)
            <= self.depth_of(grid, u) + 1
    }

    /// What holds of a search that has not finished.
    pub open spec fn searching(self, grid: Grid) -> bool {
        &&& self.seen(grid, (0, 0))
        &&& self.origin(grid, (0, 0)) is None
        &&& self.depth_of(grid, (0, 0)) == 0
        &&& forall|p: (usize, usize)|
            grid.contains(p) && self.seen(grid, p) && p != (0usize, 0usize)
                ==> #[trigger] self.well_reached(grid, p)
        &&& forall|i: int| 0 <= i < self.queue.len() ==> #[trigger] self.queued_in_order(grid, i)
        &&& forall|p: (usize, usize)|
            grid.contains(p) && self.seen(grid, p) && !self.queue.contains(p)
                ==> #[trigger] self.settled(grid, p)
        &&& forall|u: (usize, usize), v: (usize, usize)|
            grid.contains(u) ==> #[trigger] self.gentle(grid, u, v)
    }

    /// The search aims at the goal of the grid; while it runs, what it knows
    /// holds in the grid; once it has finished, its path is a shortest
    /// solution of the grid.
    pub open spec fn fits(self, grid: Grid) -> bool {
        &&& self.end == grid.goal()
        &&& if self.finished {
            grid.is_shortest_solution(self.path)
        } else {
            self.searching(grid)
        }
    }

    /// The search has nothing left to look at: the goal cannot be reached.
    pub open spec fn exhausted(self) -> bool {
        !self.finished && self.queue.len() == 0
    }

    /// The search after it has met the cell `cell` on a passage from `pos`:
    /// a cell that it has not reached before is now reached from `pos`, one
    /// step later, and waits at the end of the queue.
    pub open spec fn enqueue(self, grid: Grid, pos: (usize, usize), cell: (usize, usize)) -> BfsState {
        if self.seen(grid, cell) {
            self
        } else {
            BfsState {
                queue: self.queue.push(cell),
                visited: self.visited.insert(grid.key(cell), Some(pos)),
                depth: self.depth.insert(grid.key(cell), self.depth_of(grid, pos) + 1),
                ..self
            }
        }
    }

    /// The search after it has met the first `upto` of the cells `cells`,
    /// one after the other, on passages from `pos`.
    pub open spec fn expand(
        self,
        grid: Grid,
        pos: (usize, usize),
        cells: Seq<(usize, usize)>,
        upto: int,
    ) -> BfsState
        decreases upto,
    {
        if upto <= 0 {
            self
        } else {
            self.expand(grid, pos, cells, upto - 1).enqueue(grid, pos, cells[upto - 1])
        }
    }

    /// The search without the first cell of its queue.
    pub open spec fn dequeued(self) -> BfsState {
        BfsState { queue: self.queue.drop_first(), ..self }
    }

    /// Whether the cell at place `i` of `path` was reached from the cell
    /// before it.
    pub open spec fn follows_at(self, grid: Grid, path: Seq<(usize, usize)>, i: int) -> bool {
        self.origin(grid, path[i]) == Some(path[i - 1])
    }

    /// `path` is the way on which the search reached its goal: it ends at
    /// the goal, each of its cells was reached from the one before it, and
    /// its first cell from nowhere.
    pub open spec fn is_trail(self, grid: Grid, path: Seq<(usize, usize)>) -> bool {
        &&& path.len() > 0
        &&& path.last() == self.end
        &&& self.origin(grid, path[0]) is None
        &&& forall|i: int| 1 <= i < path.len() ==> #[trigger] self.follows_at(grid, path, i)
    }

    /// One step of the search leads from this state to `next`. A search
    /// that has finished, or has nothing left to look at, stays as it is.
    /// Otherwise the first cell leaves the queue. If it is the goal, the
    /// search has finished, and its path is the way on which it reached the
    /// goal. If not, the search meets the cells that passages lead to from
    /// it.
    pub open spec fn steps_to(self, grid: Grid, next: BfsState) -> bool {
        if self.finished || self.queue.len() == 0 {
            next == self
        } else if self.queue[0] == self.end {
            &&& next.finished
            &&& next.queue == self.queue.drop_first()
            &&& next.visited == self.visited
            &&& next.depth == self.depth
            &&& next.end == self.end
            &&& self.is_trail(grid, next.path)
        } else {
            let pos = self.queue[0];
            let cells = grid.travellable(pos);
            next == self.expand(grid, pos, cells, cells.len() as int).dequeued()
        }
    }

    /// The first state fits every grid of its bounds.
    pub proof fn lemma_initial_fits(bounds: (usize, usize), grid: Grid)
        requires
            grid.wf(),
            grid.width == bounds.0,
            grid.height == bounds.1,
        ensures
            Self::initial(bounds).fits(grid),
    {
        let s = Self::initial(bounds);
        let start = (0usize, 0usize);
        grid.lemma_key_injective(start, start);
        assert(0 * (grid.width as int) == 0) by (nonlinear_arith);
        assert(grid.key(start) == 0);
        assert forall|p: (usize, usize)|
            grid.contains(p) && s.seen(grid, p) && p != start implies #[trigger] s.well_reached(
            grid,
            p,
        ) by {
            grid.lemma_key_injective(p, start);
        }
        assert forall|i: int| 0 <= i < s.queue.len() implies #[trigger] s.queued_in_order(
            grid,
            i,
        ) by {
            assert(s.queue[i] == start);
        }
        assert forall|p: (usize, usize)|
            grid.contains(p) && s.seen(grid, p) && !s.queue.contains(p) implies #[trigger] s.settled(
            grid,
            p,
        ) by {
            grid.lemma_key_injective(p, start);
            assert(s.queue[0] == p);
        }
        assert forall|u: (usize, usize), v: (usize, usize)| grid.contains(u) implies #[trigger] s.gentle(
            grid,
            u,
            v,
        ) by {
            if s.seen(grid, u) && s.seen(grid, v) && grid.linked(u, v) {
                grid.lemma_linked_contains(u, v);
                grid.lemma_key_injective(u, start);
                grid.lemma_key_injective(v, start);
            }
        }
    }

    /// The cells of the queue were reached in the order in which they wait.
    pub proof fn lemma_queue_sorted(self, grid: Grid, i: int, j: int)
        requires
            self.searching(grid),
            0 <= i <= j < self.queue.len(),
        ensures
            self.depth_of(grid, self.queue[i]) <= self.depth_of(grid, self.queue[j]),
        decreases j - i,
    {
        if i < j {
            self.lemma_queue_sorted(grid, i, j - 1);
            assert(self.queued_in_order(grid, j));
        }
    }

    /// Meeting a cell on a passage from the first cell of the queue leaves
    /// what the search knows true of the grid.
    pub proof fn lemma_enqueue(self, grid: Grid, pos: (usize, usize), cell: (usize, usize))
        requires
            grid.wf(),
            self.searching(grid),
            self.queue.len() > 0,
            pos == self.queue[0],
            grid.linked(pos, cell),
        ensures
            self.enqueue(grid, pos, cell).searching(grid),
            self.enqueue(grid, pos, cell).queue.len() > 0,
            self.enqueue(grid, pos, cell).queue[0] == pos,
            self.enqueue(grid, pos, cell).seen(grid, cell),
            forall|p: (usize, usize)| #[trigger]
                self.seen(grid, p) ==> self.enqueue(grid, pos, cell).seen(grid, p),
    {
        let start = (0usize, 0usize);
        let n = self.enqueue(grid, pos, cell);
        grid.lemma_linked_contains(pos, cell);
        assert(self.queued_in_order(grid, 0));
        if !self.seen(grid, cell) {
            let d0 = self.depth_of(grid, pos);
            // what is known of every other cell stays as it was
            assert forall|p: (usize, usize)| grid.contains(p) && p != cell implies n.seen(grid, p)
                == self.seen(grid, p) && n.origin(grid, p) == self.origin(grid, p) && n.depth_of(
                grid,
                p,
            ) == self.depth_of(grid, p) by {
                grid.lemma_key_injective(p, cell);
            }
            assert(grid.contains(start));
            assert(start != cell);
            assert(pos != cell);
            assert forall|p: (usize, usize)|
                grid.contains(p) && n.seen(grid, p) && p != start implies #[trigger] n.well_reached(
                grid,
                p,
            ) by {
                if p != cell {
                    assert(self.seen(grid, p));
                    assert(self.well_reached(grid, p));
                    let u = self.origin(grid, p)->0;
                    grid.lemma_linked_contains(u, p);
                }
            }
            assert forall|i: int| 0 <= i < n.queue.len() implies #[trigger] n.queued_in_order(
                grid,
                i,
            ) by {
                if i < self.queue.len() {
                    assert(self.queued_in_order(grid, i));
                    if i > 0 {
                        assert(self.queued_in_order(grid, i - 1));
                    }
                } else {
                    assert(n.queue[i] == cell);
                    if i > 0 {
                        assert(self.queued_in_order(grid, i - 1));
                    }
                }
            }
            assert forall|p: (usize, usize)|
                grid.contains(p) && n.seen(grid, p) && !n.queue.contains(p) implies #[trigger] n.settled(
                grid,
                p,
            ) by {
                assert(n.queue[self.queue.len() as int] == cell);
                assert(p != cell);
                assert(self.seen(grid, p));
                if self.queue.contains(p) {
                    let j = choose|j: int| 0 <= j < self.queue.len() && self.queue[j] == p;
                    assert(n.queue[j] == p);
                }
                assert(self.settled(grid, p));
                assert forall|b: (usize, usize)| #[trigger] grid.linked(p, b) implies n.seen(
                    grid,
                    b,
                ) by {
                    grid.lemma_linked_contains(p, b);
                    assert(self.seen(grid, b));
                }
            }
            assert forall|u: (usize, usize), v: (usize, usize)| grid.contains(u) implies #[trigger] n.gentle(
                grid,
                u,
                v,
            ) by {
                if n.seen(grid, u) && n.seen(grid, v) && grid.linked(u, v) {
                    grid.lemma_linked_contains(u, v);
                    if v == cell {
                        assert(self.seen(grid, u));
                        if !self.queue.contains(u) {
                            assert(self.settled(grid, u));
                            assert(self.seen(grid, cell));
                        }
                        let j = choose|j: int| 0 <= j < self.queue.len() && self.queue[j] == u;
                        assert(self.queued_in_order(grid, j));
                    } else if u == cell {
                        assert(self.seen(grid, v));
                        if self.queue.contains(v) {
                            let j = choose|j: int| 0 <= j < self.queue.len() && self.queue[j] == v;
                            assert(self.queued_in_order(grid, j));
                        } else {
                            assert(self.settled(grid, v));
                        }
                    } else {
                        assert(self.gentle(grid, u, v));
                    }
                }
            }
            assert forall|p: (usize, usize)| #[trigger] self.seen(grid, p) implies n.seen(
                grid,
                p,
            ) by {}
        }
    }

    /// Meeting the first cells of `cells`, which passages from the first
    /// cell of the queue lead to, leaves what the search knows true.
    pub proof fn lemma_expand(
        self,
        grid: Grid,
        pos: (usize, usize),
        cells: Seq<(usize, usize)>,
        upto: int,
    )
        requires
            grid.wf(),
            self.searching(grid),
            self.queue.len() > 0,
            pos == self.queue[0],
            0 <= upto <= cells.len(),
            forall|j: int| 0 <= j < cells.len() ==> grid.linked(pos, #[trigger] cells[j]),
        ensures
            self.expand(grid, pos, cells, upto).searching(grid),
            self.expand(grid, pos, cells, upto).queue.len() > 0,
            self.expand(grid, pos, cells, upto).queue[0] == pos,
            self.expand(grid, pos, cells, upto).finished == self.finished,
            self.expand(grid, pos, cells, upto).end == self.end,
            self.expand(grid, pos, cells, upto).path == self.path,
            forall|j: int|
                0 <= j < upto ==> self.expand(grid, pos, cells, upto).seen(grid, #[trigger] cells[j]),
        decreases upto,
    {
        if upto > 0 {
            let before = self.expand(grid, pos, cells, upto - 1);
            self.lemma_expand(grid, pos, cells, upto - 1);
            before.lemma_enqueue(grid, pos, cells[upto - 1]);
            let after = before.enqueue(grid, pos, cells[upto - 1]);
            assert forall|j: int| 0 <= j < upto implies after.seen(grid, #[trigger] cells[j]) by {
                if j < upto - 1 {
                    assert(before.seen(grid, cells[j]));
                }
            }
        }
    }

    /// Once every cell that a passage leads to from the first cell of the
    /// queue has been reached, that cell can leave the queue.
    pub proof fn lemma_dequeue(self, grid: Grid)
        requires
            grid.wf(),
            self.searching(grid),
            self.queue.len() > 0,
            self.queue[0] != self.end,
            forall|b: (usize, usize)| #[trigger]
                grid.linked(self.queue[0], b) ==> self.seen(grid, b),
        ensures
            self.dequeued().searching(grid),
    {
        let n = self.dequeued();
        let pos = self.queue[0];
        assert(self.queued_in_order(grid, 0));
        assert forall|i: int| 0 <= i < n.queue.len() implies #[trigger] n.queued_in_order(
            grid,
            i,
        ) by {
            assert(n.queue[i] == self.queue[i + 1]);
            assert(n.queue[0] == self.queue[1]);
            assert(self.queued_in_order(grid, i + 1));
            assert(self.queued_in_order(grid, 1));
            self.lemma_queue_sorted(grid, 1, i + 1);
            if i > 0 {
                assert(n.queue[i - 1] == self.queue[i]);
            }
        }
        assert forall|p: (usize, usize)|
            grid.contains(p) && n.seen(grid, p) && !n.queue.contains(p) implies #[trigger] n.settled(
            grid,
            p,
        ) by {
            if self.queue.contains(p) {
                let j = choose|j: int| 0 <= j < self.queue.len() && self.queue[j] == p;
                if j > 0 {
                    assert(n.queue[j - 1] == p);
                }
                assert(p == pos);
                if n.queue.len() > 0 {
                    assert(self.queued_in_order(grid, 1));
                    assert(n.queue[0] == self.queue[1]);
                }
            } else {
                assert(self.settled(grid, p));
                if n.queue.len() > 0 {
                    assert(self.queued_in_order(grid, 1));
                    assert(n.queue[0] == self.queue[1]);
                }
            }
        }
        assert forall|p: (usize, usize)|
            grid.contains(p) && n.seen(grid, p) && p != (0usize, 0usize) implies #[trigger] n.well_reached(
            grid,
            p,
        ) by {
            assert(self.well_reached(grid, p));
        }
        assert forall|u: (usize, usize), v: (usize, usize)| grid.contains(u) implies #[trigger] n.gentle(
            grid,
            u,
            v,
        ) by {
            assert(self.gentle(grid, u, v));
        }
    }

    /// One step of a search that neither stands at its goal nor has
    /// finished leaves what the search knows true of the grid.
    pub proof fn lemma_step_searching(self, grid: Grid)
        requires
            grid.wf(),
            self.searching(grid),
            self.queue.len() > 0,
            self.queue[0] != self.end,
        ensures
            ({
                let pos = self.queue[0];
                let cells = grid.travellable(pos);
                self.expand(grid, pos, cells, cells.len() as int).dequeued().searching(grid)
            }),
    {
        let pos = self.queue[0];
        let cells = grid.travellable(pos);
        assert forall|j: int| 0 <= j < cells.len() implies grid.linked(pos, #[trigger] cells[j]) by {
            assert(cells.contains(cells[j]));
            grid.lemma_linked_is_travellable(pos, cells[j]);
        }
        self.lemma_expand(grid, pos, cells, cells.len() as int);
        let full = self.expand(grid, pos, cells, cells.len() as int);
        assert forall|b: (usize, usize)| #[trigger] grid.linked(full.queue[0], b) implies full.seen(
            grid,
            b,
        ) by {
            grid.lemma_linked_is_travellable(pos, b);
            let j = choose|j: int| 0 <= j < cells.len() && cells[j] == b;
            assert(full.seen(grid, cells[j]));
        }
        full.lemma_dequeue(grid);
    }

    /// A route from the first cell cannot reach a cell in fewer steps than
    /// the search did, as long as that cell was reached before the cell
    /// that waits first.
    pub proof fn lemma_depth_bound(self, grid: Grid, route: Seq<(usize, usize)>, i: int)
        requires
            grid.wf(),
            self.searching(grid),
            self.queue.len() > 0,
            grid.is_route(route),
            route[0] == (0usize, 0usize),
            0 <= i < route.len(),
        ensures
            i >= self.depth_of(grid, self.queue[0]) || (self.seen(grid, route[i]) && self.depth_of(
                grid,
                route[i],
            ) <= i),
        decreases i,
    {
        if i > 0 {
            self.lemma_depth_bound(grid, route, i - 1);
            let d0 = self.depth_of(grid, self.queue[0]);
            if i < d0 {
                let u = route[i - 1];
                let v = route[i];
                grid.lemma_route_within(route, i - 1);
                assert(grid.joined_at(route, i - 1));
                if self.queue.contains(u) {
                    let j = choose|j: int| 0 <= j < self.queue.len() && self.queue[j] == u;
                    assert(self.queued_in_order(grid, j));
                }
                assert(self.settled(grid, u));
                assert(self.seen(grid, v));
                assert(self.gentle(grid, u, v));
            }
        }
    }

    /// Each cell of the way on which the search reached its goal lies in
    /// the grid, has been reached, and was reached as many steps before the
    /// goal as it stands before the end of the way.
    pub proof fn lemma_trail_cell(self, grid: Grid, path: Seq<(usize, usize)>, i: int)
        requires
            grid.wf(),
            self.searching(grid),
            self.is_trail(grid, path),
            grid.contains(self.end),
            self.seen(grid, self.end),
            0 <= i < path.len(),
        ensures
            grid.contains(path[i]),
            self.seen(grid, path[i]),
            self.depth_of(grid, path[i]) + (path.len() - 1 - i) == self.depth_of(grid, self.end),
            i > 0 ==> grid.linked(path[i - 1], path[i]),
        decreases path.len() - i,
    {
        if i < path.len() - 1 {
            self.lemma_trail_cell(grid, path, i + 1);
            let p = path[i + 1];
            assert(self.follows_at(grid, path, i + 1));
            assert(self.well_reached(grid, p));
            grid.lemma_linked_contains(path[i], p);
        }
        if i > 0 {
            assert(self.follows_at(grid, path, i));
            assert(self.well_reached(grid, path[i]));
        }
    }

    /// The way on which the search reached the goal that waits first in its
    /// queue is a shortest solution of the grid.
    pub proof fn lemma_trail_is_shortest(self, grid: Grid, path: Seq<(usize, usize)>)
        requires
            grid.wf(),
            self.end == grid.goal(),
            self.searching(grid),
            self.queue.len() > 0,
            self.queue[0] == self.end,
            self.is_trail(grid, path),
        ensures
            grid.is_shortest_solution(path),
    {
        let start = (0usize, 0usize);
        assert(self.queued_in_order(grid, 0));
        self.lemma_trail_cell(grid, path, 0);
        if path[0] != start {
            assert(self.well_reached(grid, path[0]));
        }
        assert forall|i: int| 0 <= i < path.len() - 1 implies #[trigger] grid.joined_at(path, i) by {
            self.lemma_trail_cell(grid, path, i + 1);
        }
        assert(grid.is_solution(path));
        assert forall|other: Seq<(usize, usize)>| #[trigger] grid.is_solution(other) implies path.len()
            <= other.len() by {
            self.lemma_depth_bound(grid, other, other.len() - 1);
        }
    }

    /// Every cell of a route from the first cell has been looked at by a
    /// search that has given up.
    pub proof fn lemma_given_up_has_seen(self, grid: Grid, route: Seq<(usize, usize)>, i: int)
        requires
            grid.wf(),
            self.fits(grid),
            self.exhausted(),
            grid.is_route(route),
            route[0] == (0usize, 0usize),
            0 <= i < route.len(),
        ensures
            self.seen(grid, route[i]),
            self.settled(grid, route[i]),
        decreases i,
    {
        grid.lemma_route_within(route, i);
        if i > 0 {
            self.lemma_given_up_has_seen(grid, route, i - 1);
            assert(grid.joined_at(route, i - 1));
        }
    }

    /// A search gives up only where no route leads to the goal.
    pub proof fn lemma_gives_up_without_route(self, grid: Grid)
        requires
            grid.wf(),
            self.fits(grid),
            self.exhausted(),
        ensures
            !grid.solvable(),
    {
        if grid.solvable() {
            let route = choose|route: Seq<(usize, usize)>|
                grid.connects(route, (0, 0), grid.goal());
            self.lemma_given_up_has_seen(grid, route, route.len() - 1);
        }
    }
}

} // verus!
