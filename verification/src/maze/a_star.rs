//! The model of the best-first search: which cell it looks at next, what it
//! remembers of each cell, and why the way that it finds is a route.
use vstd::prelude::*;

use crate::maze::grid::Grid;

verus! {

/// What the search remembers of a cell: the number of steps on which it
/// came there, the distance to the goal as it was estimated when the cell
/// was found, and the cell from which it came.
#[derive(Debug, Clone, Copy, PartialEq)]
pub struct CellInformation {
    pub cost: usize,
    pub heuristic: usize,
    pub from: Option<(usize, usize)>,
}

/// The distance between two cells for one who walks along rows and columns.
pub open spec fn manhattan(a: (usize, usize), b: (usize, usize)) -> int {
    (if a.0 >= b.0 {
        a.0 - b.0
    } else {
        b.0 - a.0
    }) + (if a.1 >= b.1 {
        a.1 - b.1
    } else {
        b.1 - a.1
    })
}

/// `a` comes before `b`: it costs less, or as much with the smaller
/// estimate.
pub open spec fn cheaper(a: CellInformation, b: CellInformation) -> bool {
    a.cost < b.cost || (a.cost == b.cost && a.heuristic < b.heuristic)
}

/// Neither of `a` and `b` comes before the other.
pub open spec fn tied(a: CellInformation, b: CellInformation) -> bool {
    a.cost == b.cost && a.heuristic == b.heuristic
}

/// The cell `p` stands after the cell `q`, counting column by column.
pub open spec fn after(p: (usize, usize), q: (usize, usize)) -> bool {
    p.0 > q.0 || (p.0 == q.0 && p.1 > q.1)
}

/// What a best-first search knows: the cells that it has found and not
/// looked at, each with what it remembers of it; the cells that it has
/// looked at, by their keys; and, once it has finished, its path.
#[verifier::ext_equal]
pub struct AStarState {
    pub open: Map<(usize, usize), CellInformation>,
    pub closed: Map<usize, CellInformation>,
    pub path: Seq<(usize, usize)>,
    pub end: (usize, usize),
}

impl AStarState {
    /// The search before its first step, in a maze of the given bounds: the
    /// first cell has been found, at no cost and from nowhere.
    pub open spec fn initial(bounds: (usize, usize)) -> AStarState {
        AStarState {
            open: map![(0usize, 0usize) => CellInformation { cost: 0, heuristic: 0, from: None }],
            closed: Map::empty(),
            path: Seq::empty(),
            end: ((bounds.0 - 1) as usize, (bounds.1 - 1) as usize),
        }
    }

    /// The search has found its route.
    pub open spec fn finished(self) -> bool {
        self.path.len() > 0
    }

    /// The search has no cell left to look at.
    pub open spec fn exhausted(self) -> bool {
        !self.finished() && forall|p: (usize, usize)| !self.open.contains_key(p)
    }

    /// The search has looked at the cell `p`.
    pub open spec fn settled(self, grid: Grid, p: (usize, usize)) -> bool {
        self.closed.contains_key(grid.key(p))
    }

    /// The found cell `b` is looked at before the found cell `k`: it comes
    /// before it, or neither comes before the other and `b` stands after
    /// `k`.
    pub open spec fn precedes(self, b: (usize, usize), k: (usize, usize)) -> bool {
        cheaper(self.open[b], self.open[k]) || (tied(self.open[b], self.open[k]) && after(b, k))
    }

    /// The cell `b` is the one that the search looks at next.
    pub open spec fn is_best(self, b: (usize, usize)) -> bool {
        &&& self.open.contains_key(b)
        &&& forall|k: (usize, usize)|
            self.open.contains_key(k) && k != b ==> #[trigger] self.precedes(b, k)
    }

    /// What is remembered of the cell `p` is sound: it costs no more steps
    /// than cells have been looked at; if it came from nowhere, it is the
    /// first cell, at no cost; else a passage leads to it from the cell
    /// that it came from, which has been looked at and costs one step less.
    pub open spec fn sound(self, grid: Grid, p: (usize, usize), info: CellInformation) -> bool {
        &&& info.cost <= self.closed.dom().len()
        &&& match info.from {
            None => p == (0usize, 0usize) && info.cost == 0,
            Some(u) => {
                &&& grid.linked(u, p)
                &&& self.settled(grid, u)
                &&& self.closed[grid.key(u)].cost + 1 == info.cost
            },
        }
    }

    /// The found cell `p` lies in the grid, has not been looked at, and is
    /// soundly remembered.
    pub open spec fn found_well(self, grid: Grid, p: (usize, usize)) -> bool {
        grid.contains(p) && !self.settled(grid, p) && self.sound(grid, p, self.open[p])
    }

    /// The cell `p`, which has been looked at, is soundly remembered.
    pub open spec fn settled_well(self, grid: Grid, p: (usize, usize)) -> bool {
        self.sound(grid, p, self.closed[grid.key(p)])
    }

    /// What holds of a search that has not finished.
    pub open spec fn searching(self, grid: Grid) -> bool {
        &&& self.closed.dom().finite()
        &&& forall|p: (usize, usize)| self.open.contains_key(p) ==> #[trigger] self.found_well(grid, p)
        &&& forall|p: (usize, usize)|
            grid.contains(p) && self.settled(grid, p) ==> #[trigger] self.settled_well(grid, p)
    }

    /// The search has found or looked at the cell `p`.
    pub open spec fn known(self, grid: Grid, p: (usize, usize)) -> bool {
        self.settled(grid, p) || self.open.contains_key(p)
    }

    /// The cell `p` is not the goal, and passages lead from it only to
    /// cells that the search has found or looked at.
    pub open spec fn surrounded(self, grid: Grid, p: (usize, usize)) -> bool {
        &&& p != self.end
        &&& forall|b: (usize, usize)| #[trigger] grid.linked(p, b) ==> self.known(grid, b)
    }

    /// The search has missed nothing, but for what lies round the cell
    /// `except`: it has found the first cell, and it has found every cell
    /// that a passage leads to from a cell that it has looked at.
    pub open spec fn thorough_but(self, grid: Grid, except: Option<(usize, usize)>) -> bool {
        &&& self.known(grid, (0, 0))
        &&& forall|p: (usize, usize)|
            grid.contains(p) && self.settled(grid, p) && except != Some(p)
                ==> #[trigger] self.surrounded(grid, p)
    }

    /// The search aims at the goal of the grid; while it runs, what it
    /// remembers is sound and it has missed nothing; once it has finished,
    /// its path is a solution of the grid.
    pub open spec fn fits(self, grid: Grid) -> bool {
        &&& self.end == grid.goal()
        &&& if self.finished() {
            grid.is_solution(self.path)
        } else {
            self.searching(grid) && self.thorough_but(grid, None)
        }
    }

    /// The search after it has looked at the found cell `b`.
    pub open spec fn settle(self, grid: Grid, b: (usize, usize)) -> AStarState {
        AStarState {
            open: self.open.remove(b),
            closed: self.closed.insert(grid.key(b), self.open[b]),
            ..self
        }
    }

    /// What the search remembers of a cell that it finds on a passage from
    /// the cell `cur`, of which it remembers `info`: one step more, and the
    /// distance from `cur` to the goal.
    pub open spec fn found_from(self, cur: (usize, usize), info: CellInformation) -> CellInformation {
        CellInformation {
            cost: (info.cost + 1) as usize,
            heuristic: manhattan(cur, self.end) as usize,
            from: Some(cur),
        }
    }

    /// The search after it has met the cell `cell` on a passage from `cur`:
    /// a cell that it has neither looked at nor found before is now found.
    pub open spec fn offer(
        self,
        grid: Grid,
        cur: (usize, usize),
        info: CellInformation,
        cell: (usize, usize),
    ) -> AStarState {
        if self.settled(grid, cell) || self.open.contains_key(cell) {
            self
        } else {
            AStarState { open: self.open.insert(cell, self.found_from(cur, info)), ..self }
        }
    }

    /// The search after it has met the first `upto` of the cells `cells`,
    /// one after the other, on passages from `cur`.
    pub open spec fn expand(
        self,
        grid: Grid,
        cur: (usize, usize),
        info: CellInformation,
        cells: Seq<(usize, usize)>,
        upto: int,
    ) -> AStarState
        decreases upto,
    {
        if upto <= 0 {
            self
        } else {
            self.expand(grid, cur, info, cells, upto - 1).offer(grid, cur, info, cells[upto - 1])
        }
    }

    /// Whether the cell at place `i` of `path` came from the cell before it.
    pub open spec fn follows_at(self, grid: Grid, path: Seq<(usize, usize)>, i: int) -> bool {
        self.closed[grid.key(path[i])].from == Some(path[i - 1])
    }

    /// `path` is the way on which the search came to its goal: it ends at
    /// the goal, each of its cells came from the one before it, and its
    /// first cell from nowhere.
    pub open spec fn is_trail(self, grid: Grid, path: Seq<(usize, usize)>) -> bool {
        &&& path.len() > 0
        &&& path.last() == self.end
        &&& self.closed[grid.key(path[0])].from is None
        &&& forall|i: int| 1 <= i < path.len() ==> #[trigger] self.follows_at(grid, path, i)
    }

    /// What one step makes of the search when it looks at the found cell
    /// `b`: the cell is looked at; if it is the goal, the path is the way on
    /// which the search came there; if not, the search meets the cells that
    /// passages lead to from it.
    pub open spec fn advances_by(self, grid: Grid, b: (usize, usize), next: AStarState) -> bool {
        let settled = self.settle(grid, b);
        if b == self.end {
            &&& next.open == settled.open
            &&& next.closed == settled.closed
            &&& next.end == self.end
            &&& settled.is_trail(grid, next.path)
        } else {
            let cells = grid.travellable(b);
            next == settled.expand(grid, b, self.open[b], cells, cells.len() as int)
        }
    }

    /// One step of the search leads from this state to `next`. A search
    /// that has finished, or has no cell left to look at, stays as it is.
    /// Otherwise it looks at the best of the cells that it has found.
    pub open spec fn steps_to(self, grid: Grid, next: AStarState) -> bool {
        if self.finished() || self.exhausted() {
            next == self
        } else {
            exists|b: (usize, usize)| self.is_best(b) && #[trigger] self.advances_by(grid, b, next)
        }
    }

    /// The first state fits every grid of its bounds.
    pub proof fn lemma_initial_fits(bounds: (usize, usize), grid: Grid)
        requires
            grid.wf(),
            grid.width == bounds.0,
            grid.height == bounds.1,
        ensures
            Self::initial(bounds).fits(grid),
    {
        let s = Self::initial(bounds);
        assert forall|p: (usize, usize)| s.open.contains_key(p) implies #[trigger] s.found_well(
            grid,
            p,
        ) by {}
    }

    /// The estimate for a cell of the grid is a machine number.
    pub proof fn lemma_manhattan_bound(grid: Grid, p: (usize, usize))
        requires
            grid.wf(),
            grid.contains(p),
        ensures
            0 <= manhattan(p, grid.goal()) <= usize::MAX,
            manhattan(p, grid.goal()) == (grid.goal().0 - p.0) + (grid.goal().1 - p.1),
    {
        let w = grid.width as int;
        let h = grid.height as int;
        assert(w + h - 2 <= w * h) by (nonlinear_arith)
            requires
                w >= 1,
                h >= 1,
        ;
    }

    /// Looking at a found cell leaves what the search remembers sound.
    pub proof fn lemma_settle(self, grid: Grid, b: (usize, usize))
        requires
            grid.wf(),
            self.searching(grid),
            self.open.contains_key(b),
        ensures
            self.settle(grid, b).searching(grid),
            self.settle(grid, b).settled(grid, b),
            self.settle(grid, b).closed[grid.key(b)] == self.open[b],
            self.settle(grid, b).closed.dom().len() == self.closed.dom().len() + 1,
            grid.contains(b),
    {
        let n = self.settle(grid, b);
        assert(self.found_well(grid, b));
        assert forall|p: (usize, usize)| grid.contains(p) && p != b implies n.settled(grid, p)
            == self.settled(grid, p) && n.closed[grid.key(p)] == self.closed[grid.key(p)] by {
            grid.lemma_key_injective(p, b);
        }
        assert forall|p: (usize, usize), info: CellInformation|
            grid.contains(p) && #[trigger] self.sound(grid, p, info) implies n.sound(
            grid,
            p,
            info,
        ) by {
            if info.from is Some {
                let u = info.from->0;
                grid.lemma_linked_contains(u, p);
                assert(u != b);
            }
        }
        assert forall|p: (usize, usize)| n.open.contains_key(p) implies #[trigger] n.found_well(
            grid,
            p,
        ) by {
            assert(self.found_well(grid, p));
            assert(self.sound(grid, p, self.open[p]));
        }
        assert forall|p: (usize, usize)|
            grid.contains(p) && n.settled(grid, p) implies #[trigger] n.settled_well(grid, p) by {
            if p == b {
                assert(self.sound(grid, b, self.open[b]));
            } else {
                assert(self.settled_well(grid, p));
                assert(self.sound(grid, p, self.closed[grid.key(p)]));
            }
        }
    }

    /// Meeting a cell on a passage from a cell that has been looked at
    /// leaves what the search remembers sound.
    pub proof fn lemma_offer(
        self,
        grid: Grid,
        cur: (usize, usize),
        info: CellInformation,
        cell: (usize, usize),
    )
        requires
            grid.wf(),
            self.searching(grid),
            self.end == grid.goal(),
            grid.contains(cur),
            self.settled(grid, cur),
            self.closed[grid.key(cur)] == info,
            info.cost < self.closed.dom().len() <= usize::MAX,
            grid.linked(cur, cell),
        ensures
            self.offer(grid, cur, info, cell).searching(grid),
            self.offer(grid, cur, info, cell).closed == self.closed,
            self.offer(grid, cur, info, cell).end == self.end,
            self.offer(grid, cur, info, cell).path == self.path,
    {
        let n = self.offer(grid, cur, info, cell);
        grid.lemma_linked_contains(cur, cell);
        if !(self.settled(grid, cell) || self.open.contains_key(cell)) {
            Self::lemma_manhattan_bound(grid, cur);
            assert forall|p: (usize, usize)| n.open.contains_key(p) implies #[trigger] n.found_well(
                grid,
                p,
            ) by {
                if p != cell {
                    assert(self.found_well(grid, p));
                }
            }
            assert forall|p: (usize, usize)|
                grid.contains(p) && n.settled(grid, p) implies #[trigger] n.settled_well(grid, p) by {
                assert(self.settled_well(grid, p));
            }
        }
    }

    /// Meeting the first cells of `cells`, which passages lead to from a
    /// cell that has been looked at, leaves what the search remembers
    /// sound.
    pub proof fn lemma_expand(
        self,
        grid: Grid,
        cur: (usize, usize),
        info: CellInformation,
        cells: Seq<(usize, usize)>,
        upto: int,
    )
        requires
            grid.wf(),
            self.searching(grid),
            self.end == grid.goal(),
            grid.contains(cur),
            self.settled(grid, cur),
            self.closed[grid.key(cur)] == info,
            info.cost < self.closed.dom().len() <= usize::MAX,
            0 <= upto <= cells.len(),
            forall|j: int| 0 <= j < cells.len() ==> grid.linked(cur, #[trigger] cells[j]),
        ensures
            self.expand(grid, cur, info, cells, upto).searching(grid),
            self.expand(grid, cur, info, cells, upto).closed == self.closed,
            self.expand(grid, cur, info, cells, upto).end == self.end,
            self.expand(grid, cur, info, cells, upto).path == self.path,
        decreases upto,
    {
        if upto > 0 {
            self.lemma_expand(grid, cur, info, cells, upto - 1);
            self.expand(grid, cur, info, cells, upto - 1).lemma_offer(
                grid,
                cur,
                info,
                cells[upto - 1],
            );
        }
    }

    /// Each cell of the way on which the search came to its goal lies in
    /// the grid and has been looked at, and a passage leads to it from the
    /// cell before it.
    pub proof fn lemma_trail_cell(self, grid: Grid, path: Seq<(usize, usize)>, i: int)
        requires
            grid.wf(),
            self.searching(grid),
            self.is_trail(grid, path),
            grid.contains(self.end),
            self.settled(grid, self.end),
            0 <= i < path.len(),
        ensures
            grid.contains(path[i]),
            self.settled(grid, path[i]),
            i > 0 ==> grid.linked(path[i - 1], path[i]),
        decreases path.len() - i,
    {
        if i < path.len() - 1 {
            self.lemma_trail_cell(grid, path, i + 1);
            let p = path[i + 1];
            assert(self.follows_at(grid, path, i + 1));
            assert(self.settled_well(grid, p));
            grid.lemma_linked_contains(path[i], p);
        }
        if i > 0 {
            assert(self.follows_at(grid, path, i));
            assert(self.settled_well(grid, path[i]));
        }
    }

    /// The way on which the search came to its goal is a solution of the
    /// grid.
    pub proof fn lemma_trail_is_solution(self, grid: Grid, path: Seq<(usize, usize)>)
        requires
            grid.wf(),
            self.end == grid.goal(),
            self.searching(grid),
            self.settled(grid, self.end),
            self.is_trail(grid, path),
        ensures
            grid.is_solution(path),
    {
        self.lemma_trail_cell(grid, path, 0);
        assert(self.settled_well(grid, path[0]));
        assert forall|i: int| 0 <= i < path.len() - 1 implies #[trigger] grid.joined_at(path, i) by {
            self.lemma_trail_cell(grid, path, i + 1);
        }
    }

    /// A search that looks at a found cell has missed nothing but what
    /// lies round that cell.
    pub proof fn lemma_settle_thorough(self, grid: Grid, b: (usize, usize))
        requires
            grid.wf(),
            grid.contains(b),
            self.open.contains_key(b),
            self.thorough_but(grid, None),
        ensures
            self.settle(grid, b).thorough_but(grid, Some(b)),
    {
        let n = self.settle(grid, b);
        assert forall|p: (usize, usize)| self.known(grid, p) implies n.known(grid, p) by {}
        assert forall|p: (usize, usize)|
            grid.contains(p) && n.settled(grid, p) && Some(b) != Some(p) implies #[trigger] n.surrounded(
            grid,
            p,
        ) by {
            grid.lemma_key_injective(p, b);
            assert(self.surrounded(grid, p));
            assert forall|c: (usize, usize)| #[trigger] grid.linked(p, c) implies n.known(grid, c) by {
                assert(self.known(grid, c));
            }
        }
    }

    /// Meeting the first cells of `cells` lets the search miss nothing that
    /// it had not missed before, and each of those cells is then found or
    /// looked at.
    pub proof fn lemma_expand_thorough(
        self,
        grid: Grid,
        cur: (usize, usize),
        info: CellInformation,
        cells: Seq<(usize, usize)>,
        upto: int,
        except: Option<(usize, usize)>,
    )
        requires
            self.thorough_but(grid, except),
            0 <= upto <= cells.len(),
        ensures
            self.expand(grid, cur, info, cells, upto).thorough_but(grid, except),
            forall|p: (usize, usize)|
                self.known(grid, p) ==> self.expand(grid, cur, info, cells, upto).known(grid, p),
            forall|j: int|
                0 <= j < upto ==> self.expand(grid, cur, info, cells, upto).known(
                    grid,
                    #[trigger] cells[j],
                ),
        decreases upto,
    {
        if upto > 0 {
            let before = self.expand(grid, cur, info, cells, upto - 1);
            self.lemma_expand_thorough(grid, cur, info, cells, upto - 1, except);
            let n = before.offer(grid, cur, info, cells[upto - 1]);
            assert forall|p: (usize, usize)| before.known(grid, p) implies n.known(grid, p) by {}
            assert forall|p: (usize, usize)|
                grid.contains(p) && n.settled(grid, p) && except != Some(p) implies #[trigger] n.surrounded(
                grid,
                p,
            ) by {
                assert(before.surrounded(grid, p));
                assert forall|c: (usize, usize)| #[trigger] grid.linked(p, c) implies n.known(
                    grid,
                    c,
                ) by {
                    assert(before.known(grid, c));
                }
            }
            assert forall|j: int| 0 <= j < upto implies n.known(grid, #[trigger] cells[j]) by {
                if j < upto - 1 {
                    assert(before.known(grid, cells[j]));
                }
            }
        }
    }

    /// A search that looks at a found cell other than the goal, and meets
    /// every cell that a passage leads to from it, has missed nothing.
    pub proof fn lemma_step_thorough(self, grid: Grid, b: (usize, usize))
        requires
            grid.wf(),
            grid.contains(b),
            self.open.contains_key(b),
            self.thorough_but(grid, None),
            b != self.end,
        ensures
            ({
                let cells = grid.travellable(b);
                self.settle(grid, b).expand(
                    grid,
                    b,
                    self.open[b],
                    cells,
                    cells.len() as int,
                ).thorough_but(grid, None)
            }),
    {
        let cells = grid.travellable(b);
        let settled = self.settle(grid, b);
        let n = settled.expand(grid, b, self.open[b], cells, cells.len() as int);
        self.lemma_settle_thorough(grid, b);
        settled.lemma_expand_thorough(grid, b, self.open[b], cells, cells.len() as int, Some(b));
        assert(settled.known(grid, b));
        assert(n.settled(grid, b) || n.open.contains_key(b));
        assert forall|c: (usize, usize)| #[trigger] grid.linked(b, c) implies n.known(grid, c) by {
            grid.lemma_linked_is_travellable(b, c);
            let j = choose|j: int| 0 <= j < cells.len() && cells[j] == c;
            assert(n.known(grid, cells[j]));
        }
        assert(n.end == self.end) by {
            Self::lemma_expand_keeps(settled, grid, b, self.open[b], cells, cells.len() as int);
        }
        assert forall|p: (usize, usize)|
            grid.contains(p) && n.settled(grid, p) implies #[trigger] n.surrounded(grid, p) by {
            if p == b {
            } else {
                assert(None::<(usize, usize)> != Some(p));
            }
        }
    }

    /// Meeting cells changes neither the goal of the search nor what it has
    /// looked at.
    pub proof fn lemma_expand_keeps(
        self,
        grid: Grid,
        cur: (usize, usize),
        info: CellInformation,
        cells: Seq<(usize, usize)>,
        upto: int,
    )
        requires
            0 <= upto <= cells.len(),
        ensures
            self.expand(grid, cur, info, cells, upto).end == self.end,
            self.expand(grid, cur, info, cells, upto).closed == self.closed,
            self.expand(grid, cur, info, cells, upto).path == self.path,
        decreases upto,
    {
        if upto > 0 {
            self.lemma_expand_keeps(grid, cur, info, cells, upto - 1);
        }
    }

    /// Every cell of a route from the first cell has been looked at by a
    /// search that has given up.
    pub proof fn lemma_given_up_has_settled(self, grid: Grid, route: Seq<(usize, usize)>, i: int)
        requires
            grid.wf(),
            self.fits(grid),
            self.exhausted(),
            grid.is_route(route),
            route[0] == (0usize, 0usize),
            0 <= i < route.len(),
        ensures
            self.settled(grid, route[i]),
            self.surrounded(grid, route[i]),
        decreases i,
    {
        grid.lemma_route_within(route, i);
        if i > 0 {
            self.lemma_given_up_has_settled(grid, route, i - 1);
            assert(grid.joined_at(route, i - 1));
            assert(self.known(grid, route[i]));
        } else {
            assert(self.known(grid, route[0]));
        }
    }

    /// A search gives up only where no route leads to the goal.
    pub proof fn lemma_gives_up_without_route(self, grid: Grid)
        requires
            grid.wf(),
            self.fits(grid),
            self.exhausted(),
        ensures
            !grid.solvable(),
    {
        if grid.solvable() {
            let route = choose|route: Seq<(usize, usize)>|
                grid.connects(route, (0, 0), grid.goal());
            self.lemma_given_up_has_settled(grid, route, route.len() - 1);
        }
    }
}

} // verus!
