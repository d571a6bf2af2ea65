//! The model of a depth-first search.
use vstd::prelude::*;

use crate::maze::grid::Grid;

verus! {

/// The first of the cells `cells[from..]` whose index is not in `seen`.
pub open spec fn first_unseen(
    grid: Grid,
    seen: Set<usize>,
    cells: Seq<(usize, usize)>,
    from: int,
) -> Option<(usize, usize)>
    decreases cells.len() - from,
{
    if from < 0 || from >= cells.len() {
        None
    } else if !seen.contains(grid.key(cells[from])) {
        Some(cells[from])
    } else {
        first_unseen(grid, seen, cells, from + 1)
    }
}

/// What a depth-first search knows: the cells that it has left behind, by
/// their indices, the route that it has walked from the first cell, and the
/// cell that it aims at.
#[verifier::ext_equal]
pub struct DfsState {
    pub visited: Set<usize>,
    pub path: Seq<(usize, usize)>,
    pub end: (usize, usize),
}

impl DfsState {
    /// The search before its first step, in a maze of the given bounds.
    pub open spec fn initial(bounds: (usize, usize)) -> DfsState {
        DfsState {
            visited: Set::empty(),
            path: seq![(0usize, 0usize)],
            end: ((bounds.0 - 1) as usize, (bounds.1 - 1) as usize),
        }
    }

    /// The search stands at its goal.
    pub open spec fn arrived(self) -> bool {
        self.path.len() > 0 && self.path.last() == self.end
    }

    /// The search has walked back to before the first cell: the goal cannot
    /// be reached.
    pub open spec fn exhausted(self) -> bool {
        self.path.len() == 0
    }

    /// The search has left behind the cell `p`.
    pub open spec fn seen(self, grid: Grid, p: (usize, usize)) -> bool {
        self.visited.contains(grid.key(p))
    }

    /// The search has left behind every cell that a passage leads to from
    /// the cell `p`.
    pub open spec fn closed_off(self, grid: Grid, p: (usize, usize)) -> bool {
        forall|b: (usize, usize)| #[trigger] grid.linked(p, b) ==> self.seen(grid, b)
    }

    /// The search has left behind the cell at place `i` of its path.
    pub open spec fn walked_at(self, grid: Grid, i: int) -> bool {
        self.seen(grid, self.path[i])
    }

    /// The search aims at the goal of the grid, and its path is a route of
    /// the grid from the first cell. It has left behind the cells of its
    /// path but the last, and never the goal. From a cell that it has left
    /// behind and does not stand on, passages lead only to cells that it
    /// has left behind. A search that has given up has left behind the
    /// first cell.
    pub open spec fn fits(self, grid: Grid) -> bool {
        &&& self.end == grid.goal()
        &&& self.path.len() > 0 ==> grid.is_route(self.path) && self.path[0] == (0usize, 0usize)
        &&& self.path.len() == 0 ==> self.seen(grid, (0, 0))
        &&& !self.seen(grid, self.end)
        &&& forall|i: int| 0 <= i < self.path.len() - 1 ==> #[trigger] self.walked_at(grid, i)
        &&& forall|p: (usize, usize)|
            grid.contains(p) && self.seen(grid, p) && !self.path.contains(p)
                ==> #[trigger] self.closed_off(grid, p)
    }

    /// One step of the search. At the goal, and after it has given up, the
    /// search stays as it is. Otherwise it leaves the last cell of its path
    /// behind and goes on to the first cell, of those that a passage leads
    /// to, that it has not left behind yet; if there is none, it walks one
    /// cell back.
    pub open spec fn step(self, grid: Grid) -> DfsState {
        if self.exhausted() || self.arrived() {
            self
        } else {
            let pos = self.path.last();
            let visited = self.visited.insert(grid.key(pos));
            match first_unseen(grid, self.visited, grid.travellable(pos), 0) {
                Some(next) => DfsState { visited, path: self.path.push(next), ..self },
                None => DfsState { visited, path: self.path.drop_last(), ..self },
            }
        }
    }
}

/// The first unseen cell, if there is one, is one of the cells.
pub proof fn lemma_first_unseen_listed(
    grid: Grid,
    seen: Set<usize>,
    cells: Seq<(usize, usize)>,
    from: int,
)
    requires
        0 <= from,
    ensures
        first_unseen(grid, seen, cells, from) matches Some(cell) ==> cells.contains(cell)
            && !seen.contains(grid.key(cell)),
    decreases cells.len() - from,
{
    if from < cells.len() {
        if seen.contains(grid.key(cells[from])) {
            lemma_first_unseen_listed(grid, seen, cells, from + 1);
        }
    }
}


/// Where no cell from place `from` on is unseen, each of them has been seen.
pub proof fn lemma_none_unseen(
    grid: Grid,
    seen: Set<usize>,
    cells: Seq<(usize, usize)>,
    from: int,
    j: int,
)
    requires
        0 <= from <= j < cells.len(),
        first_unseen(grid, seen, cells, from) is None,
    ensures
        seen.contains(grid.key(cells[j])),
    decreases cells.len() - from,
{
    if from < j {
        lemma_none_unseen(grid, seen, cells, from + 1, j);
    }
}

impl DfsState {
    /// One step of the search keeps search and grid fitting.
    pub proof fn lemma_step_fits(self, grid: Grid)
        requires
            grid.wf(),
            self.fits(grid),
        ensures
            self.step(grid).fits(grid),
    {
        if !(self.exhausted() || self.arrived()) {
            let pos = self.path.last();
            let next = self.step(grid);
            let cells = grid.travellable(pos);
            grid.lemma_route_within(self.path, self.path.len() - 1);
            grid.lemma_route_within(self.path, 0);
            assert(grid.contains(grid.goal()));
            grid.lemma_key_injective(pos, self.end);
            assert forall|p: (usize, usize)| grid.contains(p) && self.seen(grid, p) implies next.seen(
                grid,
                p,
            ) by {}
            assert forall|p: (usize, usize)| grid.contains(p) && next.seen(grid, p) implies p == pos
                || self.seen(grid, p) by {
                grid.lemma_key_injective(p, pos);
            }
            match first_unseen(grid, self.visited, cells, 0) {
                Some(v) => {
                    lemma_first_unseen_listed(grid, self.visited, cells, 0);
                    grid.lemma_linked_is_travellable(pos, v);
                    grid.lemma_route_push(self.path, v);
                    assert(next.path == self.path.push(v));
                    assert forall|i: int| 0 <= i < next.path.len() - 1 implies #[trigger] next.walked_at(
                        grid,
                        i,
                    ) by {
                        if i < self.path.len() - 1 {
                            assert(self.walked_at(grid, i));
                            grid.lemma_route_within(self.path, i);
                        }
                    }
                    assert forall|p: (usize, usize)|
                        grid.contains(p) && next.seen(grid, p) && !next.path.contains(
                            p,
                        ) implies #[trigger] next.closed_off(grid, p) by {
                        assert(next.path[self.path.len() - 1] == pos);
                        assert(p != pos);
                        if self.path.contains(p) {
                            let i = choose|i: int| 0 <= i < self.path.len() && self.path[i] == p;
                            assert(next.path[i] == p);
                        }
                        assert(self.closed_off(grid, p));
                        assert forall|b: (usize, usize)| #[trigger] grid.linked(p, b) implies next.seen(
                            grid,
                            b,
                        ) by {
                            grid.lemma_linked_contains(p, b);
                        }
                    }
                },
                None => {
                    assert(next.path == self.path.drop_last());
                    if self.path.len() > 1 {
                        grid.lemma_route_drop_last(self.path);
                    }
                    assert forall|i: int| 0 <= i < next.path.len() - 1 implies #[trigger] next.walked_at(
                        grid,
                        i,
                    ) by {
                        assert(self.walked_at(grid, i));
                        grid.lemma_route_within(self.path, i);
                    }
                    assert forall|p: (usize, usize)|
                        grid.contains(p) && next.seen(grid, p) && !next.path.contains(
                            p,
                        ) implies #[trigger] next.closed_off(grid, p) by {
                        if p == pos {
                            assert forall|b: (usize, usize)| #[trigger] grid.linked(
                                p,
                                b,
                            ) implies next.seen(grid, b) by {
                                grid.lemma_linked_is_travellable(pos, b);
                                grid.lemma_linked_contains(pos, b);
                                let j = choose|j: int| 0 <= j < cells.len() && cells[j] == b;
                                lemma_none_unseen(grid, self.visited, cells, 0, j);
                            }
                        } else {
                            if self.path.contains(p) {
                                let i = choose|i: int|
                                    0 <= i < self.path.len() && self.path[i] == p;
                                assert(next.path[i] == p);
                            }
                            assert(self.closed_off(grid, p));
                            assert forall|b: (usize, usize)| #[trigger] grid.linked(
                                p,
                                b,
                            ) implies next.seen(grid, b) by {
                                grid.lemma_linked_contains(p, b);
                            }
                        }
                    }
                },
            }
        }
    }

    /// Every cell of a route from the first cell has been left behind by a
    /// search that has given up.
    pub proof fn lemma_given_up_has_seen(self, grid: Grid, route: Seq<(usize, usize)>, i: int)
        requires
            grid.wf(),
            self.fits(grid),
            self.exhausted(),
            grid.is_route(route),
            route[0] == (0usize, 0usize),
            0 <= i < route.len(),
        ensures
            self.seen(grid, route[i]),
        decreases i,
    {
        if i > 0 {
            self.lemma_given_up_has_seen(grid, route, i - 1);
            grid.lemma_route_within(route, i - 1);
            assert(grid.joined_at(route, i - 1));
            assert(self.closed_off(grid, route[i - 1]));
        }
    }

    /// A search gives up only where no route leads to the goal.
    pub proof fn lemma_gives_up_without_route(self, grid: Grid)
        requires
            grid.wf(),
            self.fits(grid),
            self.exhausted(),
        ensures
            !grid.solvable(),
    {
        if grid.solvable() {
            let route = choose|route: Seq<(usize, usize)>|
                grid.connects(route, (0, 0), grid.goal());
            self.lemma_given_up_has_seen(grid, route, route.len() - 1);
        }
    }
}

} // verus!
