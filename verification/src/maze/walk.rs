//! The model of the loop-erased random walk that carves a maze: what the
//! walk is, and why carving it into the grid keeps the maze a tree.
use vstd::prelude::*;

use crate::maze::grid::Grid;
use crate::Direction;

verus! {

impl Grid {
    /// The cell `b` lies next to the cell `a`.
    pub open spec fn adjacent(self, a: (usize, usize), b: (usize, usize)) -> bool {
        ||| self.has_neighbor(a, Direction::UP) && self.neighbor(a, Direction::UP) == b
        ||| self.has_neighbor(a, Direction::RIGHT) && self.neighbor(a, Direction::RIGHT) == b
        ||| self.has_neighbor(a, Direction::DOWN) && self.neighbor(a, Direction::DOWN) == b
        ||| self.has_neighbor(a, Direction::LEFT) && self.neighbor(a, Direction::LEFT) == b
    }

    /// What `neighbors` lists are the cells next to the cell, each with the
    /// direction that leads there.
    pub proof fn lemma_neighbors_listed(self, p: (usize, usize), next: (usize, usize, Direction))
        requires
            self.wf(),
            self.neighbors(p).contains(next),
        ensures
            self.has_neighbor(p, next.2),
            self.neighbor(p, next.2) == (next.0, next.1),
            self.adjacent(p, (next.0, next.1)),
            self.contains((next.0, next.1)),
    {
        let list = self.neighbors(p);
        let i = choose|i: int| 0 <= i < list.len() && list[i] == next;
        let left = self.side(p, Direction::LEFT);
        let right = self.side(p, Direction::RIGHT);
        let up = self.side(p, Direction::UP);
        let down = self.side(p, Direction::DOWN);
        if i < left.len() {
            assert(list[i] == left[i]);
        } else if i < left.len() + right.len() {
            assert(list[i] == right[i - left.len()]);
        } else if i < left.len() + right.len() + up.len() {
            assert(list[i] == up[i - left.len() - right.len()]);
        } else {
            assert(list[i] == down[i - left.len() - right.len() - up.len()]);
        }
        self.lemma_neighbor(p, next.2);
    }

    /// The cells without a passage among the first `k` cells, in the order
    /// of the cells.
    pub open spec fn blank_cells_upto(self, k: int) -> Seq<(usize, usize)>
        decreases k,
    {
        if k <= 0 {
            Seq::empty()
        } else if self.cells[k - 1] == 0 {
            self.blank_cells_upto(k - 1).push(self.position(k - 1))
        } else {
            self.blank_cells_upto(k - 1)
        }
    }

    /// The cells without a passage, in the order of the cells.
    pub open spec fn blank_cells(self) -> Seq<(usize, usize)> {
        self.blank_cells_upto(self.cells.len() as int)
    }

    /// Each of the cells without a passage lies in the grid and has no
    /// passage.
    pub proof fn lemma_blank_cell(self, k: int, j: int)
        requires
            self.wf(),
            0 <= k <= self.cells.len(),
            0 <= j < self.blank_cells_upto(k).len(),
        ensures
            self.contains(self.blank_cells_upto(k)[j]),
            self.mask(self.blank_cells_upto(k)[j]) == 0,
        decreases k,
    {
        if k > 0 {
            if self.cells[k - 1] == 0 && j == self.blank_cells_upto(k - 1).len() {
                self.lemma_position_of_index(k - 1);
            } else {
                self.lemma_blank_cell(k - 1, j);
            }
        }
    }

    /// Where no cell among the first `k` is without a passage, each of them
    /// has one.
    pub proof fn lemma_no_blank_cell(self, k: int, i: int)
        requires
            0 <= i < k <= self.cells.len(),
            self.blank_cells_upto(k).len() == 0,
        ensures
            self.cells[i] != 0,
        decreases k,
    {
        if i < k - 1 {
            self.lemma_no_blank_cell(k - 1, i);
        }
    }
}

/// The direction in which a step from `from` to the cell `to` next to it
/// goes: within a column down or up, else right or left.
pub open spec fn direction_to(from: (usize, usize), to: (usize, usize)) -> Direction {
    if from.0 == to.0 {
        if to.1 > from.1 {
            Direction::DOWN
        } else {
            Direction::UP
        }
    } else {
        if to.0 > from.0 {
            Direction::RIGHT
        } else {
            Direction::LEFT
        }
    }
}

/// What the walk knows: the cells that it has walked through, none of them
/// twice; while the maze has no passage yet, the cell that the first walk is
/// to reach; the direction that leads back to where the walk came from; and,
/// once the maze has passages, a cell around which they form a tree.
#[verifier::ext_equal]
pub struct WilsonState {
    pub walk: Seq<(usize, usize)>,
    pub target: Option<(usize, usize)>,
    pub back: Option<Direction>,
    pub root: Option<(usize, usize)>,
}

impl WilsonState {
    /// No walk is left: the maze is complete.
    pub open spec fn finished(self) -> bool {
        self.walk.len() == 0
    }

    /// The cell at place `i` of the walk lies next to the one after it.
    pub open spec fn adjacent_at(self, grid: Grid, i: int) -> bool {
        grid.adjacent(self.walk[i], self.walk[i + 1])
    }

    /// The cell at place `i` of the walk lies in the grid and has no
    /// passage.
    pub open spec fn free_at(self, grid: Grid, i: int) -> bool {
        grid.contains(self.walk[i]) && grid.mask(self.walk[i]) == 0
    }

    /// The walk is strung through the grid: each of its cells lies in the
    /// grid, next to the one before it, and none occurs twice.
    pub open spec fn strung(self, grid: Grid) -> bool {
        &&& forall|i: int| 0 <= i < self.walk.len() ==> grid.contains(#[trigger] self.walk[i])
        &&& forall|i: int| 0 <= i < self.walk.len() - 1 ==> #[trigger] self.adjacent_at(grid, i)
        &&& self.walk.no_duplicates()
    }

    /// The cell around which the maze is a tree once the walk has been
    /// carved: the one that it is a tree around already, or else the cell
    /// that the walk has reached.
    pub open spec fn root_to_be(self) -> (usize, usize) {
        match self.root {
            Some(r) => r,
            None => self.walk.last(),
        }
    }

    /// The walk and the grid fit together. The walk is strung through the
    /// grid, and its cells have no passage. Before the first walk has
    /// reached its target, the grid has no passage at all, and the walk has
    /// not been at the target. Afterwards the passages form a tree; and
    /// when no walk is left, the grid is a perfect maze.
    pub open spec fn fits(self, grid: Grid) -> bool {
        &&& self.strung(grid)
        &&& forall|i: int| 0 <= i < self.walk.len() ==> #[trigger] self.free_at(grid, i)
        &&& match self.target {
            Some(t) => {
                &&& self.root is None
                &&& grid.blank()
                &&& grid.contains(t)
                &&& !self.walk.contains(t)
                &&& self.walk.len() > 0
            },
            None => if self.walk.len() == 0 {
                grid.is_perfect()
            } else {
                self.root matches Some(r) && grid.is_tree(r)
            },
        }
    }

    /// The walk has arrived: its last cell is the target of the first walk,
    /// in a grid without passages, or a cell of the tree; the cells before
    /// it have no passage.
    pub open spec fn arrived(self, grid: Grid) -> bool {
        &&& self.strung(grid)
        &&& self.walk.len() >= 2
        &&& forall|i: int| 0 <= i < self.walk.len() - 1 ==> #[trigger] self.free_at(grid, i)
        &&& match self.target {
            Some(t) => self.root is None && grid.blank() && t == self.walk.last(),
            None => self.root matches Some(r) && grid.is_tree(r) && grid.carved_at(self.walk.last()),
        }
    }

    /// The grid with the walk carved into it from place `from` on: a
    /// passage between each cell and the next, the last of them first.
    pub open spec fn carved_from(self, grid: Grid, from: int) -> Grid
        decreases self.walk.len() - from,
    {
        if from < 0 || from >= self.walk.len() - 1 {
            grid
        } else {
            self.carved_from(grid, from + 1).carved(
                self.walk[from],
                direction_to(self.walk[from], self.walk[from + 1]),
            )
        }
    }

    /// The walk is carved into the grid from place `from` on, and the rest
    /// of it waits: the passages form a tree that holds the cell at that
    /// place, and the cells before it have no passage.
    pub open spec fn joined_from(self, grid: Grid, from: int) -> bool {
        &&& grid.wf()
        &&& grid.is_tree(self.root_to_be())
        &&& grid.carved_at(self.walk[from])
        &&& forall|i: int| 0 <= i < from ==> #[trigger] self.free_at(grid, i)
    }

    /// The walk cut back to its cell at place `k`.
    pub open spec fn erased(self, k: int) -> WilsonState {
        WilsonState { walk: self.walk.subrange(0, k + 1), ..self }
    }

    /// The walk gone on to the cell `next`, in the direction that `next`
    /// names.
    pub open spec fn extended(self, next: (usize, usize, Direction)) -> WilsonState {
        WilsonState {
            walk: self.walk.push((next.0, next.1)),
            back: Some(next.2.opposite()),
            ..self
        }
    }

    /// Going on to `next` in the grid `grid` makes `after` of the walk and
    /// `grid_after` of the grid, and `carved` says whether the walk was
    /// carved into the grid. If the walk has been at that cell, it is cut
    /// back to there. Otherwise the cell joins the walk; and if it has a
    /// passage, or is the target, the walk is carved into the grid, the
    /// target is reached, and the passages form a tree.
    pub open spec fn advances_to(
        self,
        grid: Grid,
        next: (usize, usize, Direction),
        after: WilsonState,
        grid_after: Grid,
        carved: bool,
    ) -> bool {
        let cell = (next.0, next.1);
        if self.walk.contains(cell) {
            &&& !carved
            &&& grid_after == grid
            &&& exists|k: int|
                0 <= k < self.walk.len() && self.walk[k] == cell && after == #[trigger] self.erased(k)
        } else if grid.mask(cell) != 0 || self.target == Some(cell) {
            &&& carved
            &&& grid_after == self.extended(next).carved_from(grid, 0)
            &&& after == (WilsonState {
                target: None,
                root: Some(self.extended(next).root_to_be()),
                ..self.extended(next)
            })
        } else {
            &&& !carved
            &&& grid_after == grid
            &&& after == self.extended(next)
        }
    }

    /// After a walk has been carved, a new walk `after` starts in the grid:
    /// at one of its cells without a passage, having come from nowhere; or,
    /// if there is no such cell, no walk is left.
    pub open spec fn restarts_as(self, grid: Grid, after: WilsonState) -> bool {
        &&& after.target == self.target
        &&& after.root == self.root
        &&& if grid.blank_cells().len() == 0 {
            after.walk.len() == 0 && after.back == self.back
        } else {
            after.walk.len() == 1 && grid.blank_cells().contains(after.walk[0]) && after.back is None
        }
    }

    /// One step leads from this walk in the grid `grid` to the walk `after`
    /// in the grid `grid_after`. With no walk left, nothing changes.
    /// Otherwise the walk goes on to `next`, one of the cells next to its
    /// last cell; and if that carves the walk into the grid, a new walk
    /// starts.
    pub open spec fn steps_to(
        self,
        grid: Grid,
        next: (usize, usize, Direction),
        after: WilsonState,
        grid_after: Grid,
    ) -> bool {
        if self.finished() {
            after == self && grid_after == grid
        } else {
            &&& grid.neighbors(self.walk.last()).contains(next)
            &&& (self.advances_to(grid, next, after, grid_after, false) || exists|
                carved: WilsonState,
            |
                #[trigger] self.advances_to(grid, next, carved, grid_after, true)
                    && carved.restarts_as(grid_after, after))
        }
    }

    /// A walk that is not finished stands at a cell that has a cell next to
    /// it.
    pub proof fn lemma_has_neighbors(self, grid: Grid)
        requires
            grid.wf(),
            self.fits(grid),
            !self.finished(),
        ensures
            grid.neighbors(self.walk.last()).len() > 0,
            grid.contains(self.walk.last()),
    {
        let pos = self.walk.last();
        assert(self.free_at(grid, self.walk.len() - 1));
        let other = match self.target {
            Some(t) => t,
            None => self.root->0,
        };
        assert(other != pos) by {
            if self.target is Some {
                assert(self.walk[self.walk.len() - 1] == pos);
            }
        }
        assert(grid.contains(other));
        if grid.width > 1 {
            assert(grid.has_neighbor(pos, Direction::LEFT) || grid.has_neighbor(
                pos,
                Direction::RIGHT,
            ));
        } else {
            assert(grid.has_neighbor(pos, Direction::UP) || grid.has_neighbor(pos, Direction::DOWN));
        }
    }

    /// A step to a cell next to a cell goes in the direction that leads
    /// there.
    pub proof fn lemma_direction_to(grid: Grid, a: (usize, usize), b: (usize, usize))
        requires
            grid.wf(),
            grid.adjacent(a, b),
        ensures
            grid.has_neighbor(a, direction_to(a, b)),
            grid.neighbor(a, direction_to(a, b)) == b,
    {
    }

    /// Carving the passage at place `i` of a walk that has arrived, after
    /// the passages behind it, makes the tree one cell larger.
    pub proof fn lemma_carve_step(self, before: Grid, grid: Grid, i: int)
        requires
            before.wf(),
            self.arrived(before),
            0 <= i < self.walk.len() - 1,
            grid == self.carved_from(before, i + 1),
            grid.wf(),
            grid.width == before.width,
            grid.height == before.height,
            i + 1 < self.walk.len() - 1 ==> self.joined_from(grid, i + 1),
            i + 1 == self.walk.len() - 1 ==> grid == before,
        ensures
            grid.has_neighbor(self.walk[i], direction_to(self.walk[i], self.walk[i + 1])),
            self.carved_from(before, i) == grid.carved(
                self.walk[i],
                direction_to(self.walk[i], self.walk[i + 1]),
            ),
            self.joined_from(self.carved_from(before, i), i),
            self.carved_from(before, i).width == before.width,
            self.carved_from(before, i).height == before.height,
    {
        let p = self.walk[i];
        let q = self.walk[i + 1];
        let d = direction_to(p, q);
        assert(self.adjacent_at(before, i));
        assert(grid.adjacent(p, q));
        Self::lemma_direction_to(grid, p, q);
        let after = grid.carved(p, d);
        grid.lemma_carved(p, d, p, d);
        if i + 1 == self.walk.len() - 1 {
            assert(self.free_at(before, i));
            match self.target {
                Some(t) => {
                    grid.lemma_tree_begins(p, d);
                    assert forall|j: int| 0 <= j < i implies #[trigger] self.free_at(after, j) by {
                        assert(self.free_at(before, j));
                    }
                },
                None => {
                    grid.lemma_tree_grows(self.root->0, p, d);
                    assert forall|j: int| 0 <= j < i implies #[trigger] self.free_at(after, j) by {
                        assert(self.free_at(before, j));
                    }
                },
            }
        } else {
            assert(self.free_at(grid, i));
            grid.lemma_tree_grows(self.root_to_be(), p, d);
            assert forall|j: int| 0 <= j < i implies #[trigger] self.free_at(after, j) by {
                assert(self.free_at(grid, j));
            }
        }
    }

    /// Once every cell of the grid has a passage, the tree is a perfect
    /// maze.
    pub proof fn lemma_complete(grid: Grid, root: (usize, usize))
        requires
            grid.wf(),
            grid.is_tree(root),
            grid.blank_cells().len() == 0,
        ensures
            grid.is_perfect(),
    {
        assert forall|p: (usize, usize)| grid.contains(p) implies #[trigger] grid.mask(p) != 0 by {
            grid.lemma_index_in_range(p);
            grid.lemma_no_blank_cell(grid.cells.len() as int, grid.index(p));
        }
        grid.lemma_full_tree_is_perfect(root);
    }
}

} // verus!
