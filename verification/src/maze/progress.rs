//! Why the searches and the depth-first generator come to an end: each has
//! a number, its fuel, that is never negative and that every step burns
//! some of, until the search has found its route or given up, or the maze
//! is complete.
use vstd::prelude::*;

use crate::maze::a_star::AStarState;
use crate::maze::backtracker::BacktrackerState;
use crate::maze::breadth_first::BfsState;
use crate::maze::depth_first::{first_unseen, lemma_first_unseen_listed, DfsState};
use crate::maze::grid::{lemma_mask_zero, Grid};
use crate::maze::tree::{lemma_total_update, total};
use crate::Direction;

verus! {

/// One for each of the first `n` keys that is among `keys`, nought for each
/// of the others.
pub open spec fn marks(n: nat, keys: Set<usize>) -> Seq<int> {
    Seq::new(
        n,
        |i: int|
            if keys.contains(i as usize) {
                1int
            } else {
                0int
            },
    )
}

/// How many of the first `n` keys are among `keys`.
pub open spec fn tally(n: nat, keys: Set<usize>) -> int {
    total(marks(n, keys))
}

/// No more than `n` of the first `n` keys are among `keys`.
pub proof fn lemma_tally_bounds(n: nat, keys: Set<usize>)
    ensures
        0 <= tally(n, keys) <= n,
    decreases n,
{
    if n > 0 {
        lemma_tally_bounds((n - 1) as nat, keys);
        assert(marks(n, keys).drop_last() =~= marks((n - 1) as nat, keys));
    }
}

/// One more key among `keys` is one more in the tally.
pub proof fn lemma_tally_insert(n: nat, keys: Set<usize>, k: usize)
    requires
        k < n <= usize::MAX,
        !keys.contains(k),
    ensures
        tally(n, keys.insert(k)) == tally(n, keys) + 1,
{
    assert(marks(n, keys.insert(k)) =~= marks(n, keys).update(k as int, 1));
    lemma_total_update(marks(n, keys), k as int, 1);
}

impl AStarState {
    /// The fuel of the search: the number of cells that it has not looked
    /// at.
    pub open spec fn fuel(self, grid: Grid) -> int {
        grid.cells.len() - tally(grid.cells.len(), self.closed.dom())
    }

    /// A step of a search that has neither finished nor given up burns
    /// fuel.
    pub proof fn lemma_step_burns_fuel(self, grid: Grid, next: AStarState)
        requires
            grid.wf(),
            self.fits(grid),
            !self.finished(),
            !self.exhausted(),
            self.steps_to(grid, next),
        ensures
            0 <= next.fuel(grid) < self.fuel(grid),
    {
        let n = grid.cells.len();
        let b = choose|b: (usize, usize)| self.is_best(b) && #[trigger] self.advances_by(grid, b, next);
        let settled = self.settle(grid, b);
        assert(self.found_well(grid, b));
        grid.lemma_index_in_range(b);
        if b != self.end {
            let cells = grid.travellable(b);
            settled.lemma_expand_keeps(grid, b, self.open[b], cells, cells.len() as int);
        }
        assert(next.closed.dom() =~= self.closed.dom().insert(grid.key(b)));
        lemma_tally_insert(n, self.closed.dom(), grid.key(b));
        lemma_tally_bounds(n, next.closed.dom());
    }
}

impl BfsState {
    /// The fuel of the search: two for each cell that it has not reached,
    /// and one for each cell that waits.
    pub open spec fn fuel(self, grid: Grid) -> int {
        2 * (grid.cells.len() - tally(grid.cells.len(), self.visited.dom())) + self.queue.len()
    }

    /// Meeting cells burns fuel, or leaves it as it is, and takes no cell
    /// out of the queue.
    pub proof fn lemma_expand_fuel(
        self,
        grid: Grid,
        pos: (usize, usize),
        cells: Seq<(usize, usize)>,
        upto: int,
    )
        requires
            grid.wf(),
            0 <= upto <= cells.len(),
            forall|j: int| 0 <= j < cells.len() ==> grid.contains(#[trigger] cells[j]),
        ensures
            self.expand(grid, pos, cells, upto).fuel(grid) <= self.fuel(grid),
            self.expand(grid, pos, cells, upto).queue.len() >= self.queue.len(),
        decreases upto,
    {
        if upto > 0 {
            let before = self.expand(grid, pos, cells, upto - 1);
            let cell = cells[upto - 1];
            self.lemma_expand_fuel(grid, pos, cells, upto - 1);
            if !before.seen(grid, cell) {
                let after = before.enqueue(grid, pos, cell);
                grid.lemma_index_in_range(cell);
                assert(after.visited.dom() =~= before.visited.dom().insert(grid.key(cell)));
                lemma_tally_insert(grid.cells.len(), before.visited.dom(), grid.key(cell));
            }
        }
    }

    /// A step of a search that has neither finished nor given up burns
    /// fuel.
    pub proof fn lemma_step_burns_fuel(self, grid: Grid, next: BfsState)
        requires
            grid.wf(),
            self.fits(grid),
            !self.finished,
            !self.exhausted(),
            self.steps_to(grid, next),
        ensures
            0 <= next.fuel(grid) < self.fuel(grid),
    {
        let n = grid.cells.len();
        lemma_tally_bounds(n, next.visited.dom());
        if self.queue[0] != self.end {
            let pos = self.queue[0];
            let cells = grid.travellable(pos);
            assert(self.queued_in_order(grid, 0));
            assert forall|j: int| 0 <= j < cells.len() implies grid.contains(#[trigger] cells[j]) by {
                assert(cells.contains(cells[j]));
                grid.lemma_linked_is_travellable(pos, cells[j]);
                grid.lemma_linked_contains(pos, cells[j]);
            }
            self.lemma_expand_fuel(grid, pos, cells, cells.len() as int);
        }
    }
}

impl DfsState {
    /// The keys of the cells that the search has left behind or stands on.
    pub open spec fn trodden(self, grid: Grid) -> Set<usize> {
        if self.path.len() > 0 {
            self.visited.insert(grid.key(self.path.last()))
        } else {
            self.visited
        }
    }

    /// The fuel of the search: two for each cell on which it has not been,
    /// and one for each cell of its path.
    pub open spec fn fuel(self, grid: Grid) -> int {
        2 * (grid.cells.len() - tally(grid.cells.len(), self.trodden(grid))) + self.path.len()
    }

    /// A step of a search that has neither arrived nor given up burns
    /// fuel.
    pub proof fn lemma_step_burns_fuel(self, grid: Grid)
        requires
            grid.wf(),
            self.fits(grid),
            !self.arrived(),
            !self.exhausted(),
        ensures
            0 <= self.step(grid).fuel(grid) < self.fuel(grid),
    {
        let n = grid.cells.len();
        let next = self.step(grid);
        let pos = self.path.last();
        let cells = grid.travellable(pos);
        grid.lemma_route_within(self.path, self.path.len() - 1);
        grid.lemma_index_in_range(pos);
        lemma_tally_bounds(n, next.trodden(grid));
        match first_unseen(grid, self.visited, cells, 0) {
            Some(v) => {
                lemma_first_unseen_listed(grid, self.visited, cells, 0);
                grid.lemma_linked_is_travellable(pos, v);
                grid.lemma_linked_contains(pos, v);
                grid.lemma_index_in_range(v);
                grid.lemma_key_injective(pos, v);
                assert(next.path.last() == v);
                assert(next.trodden(grid) =~= self.trodden(grid).insert(grid.key(v)));
                lemma_tally_insert(n, self.trodden(grid), grid.key(v));
            },
            None => {
                if self.path.len() > 1 {
                    assert(self.walked_at(grid, self.path.len() - 2));
                    assert(next.path.last() == self.path[self.path.len() - 2]);
                }
                assert(next.trodden(grid) =~= self.trodden(grid));
            },
        }
    }
}

/// The sum of numbers that are each nought or one is not negative, and no
/// more than there are numbers.
pub proof fn lemma_total_of_marks(w: Seq<int>)
    requires
        forall|i: int| 0 <= i < w.len() ==> 0 <= #[trigger] w[i] <= 1,
    ensures
        0 <= total(w) <= w.len(),
    decreases w.len(),
{
    if w.len() > 0 {
        lemma_total_of_marks(w.drop_last());
    }
}

impl BacktrackerState {
    /// The fuel of the generator: two for each cell without a passage, and
    /// one for each cell of its stack.
    pub open spec fn fuel(self, grid: Grid) -> int {
        2 * (grid.cells.len() - grid.carved_count()) + self.stack.len()
    }

    /// No generator has less fuel than none.
    pub proof fn lemma_fuel_is_never_negative(self, grid: Grid)
        ensures
            self.fuel(grid) >= 0,
    {
        lemma_total_of_marks(Seq::new(grid.cells.len(), |i: int| grid.carved_weight(i)));
    }

    /// Carving on burns fuel.
    pub proof fn lemma_dig_burns_fuel(self, grid: Grid, next: (usize, usize, Direction))
        requires
            grid.wf(),
            self.fits(grid),
            !self.finished(),
            grid.neighbors(self.stack.last()).contains(next),
            grid.mask((next.0, next.1)) == 0,
        ensures
            0 <= self.dug(next).fuel(grid.carved(self.stack.last(), next.2)) < self.fuel(grid),
    {
        let pos = self.stack.last();
        self.dug(next).lemma_fuel_is_never_negative(grid.carved(pos, next.2));
        let cell = (next.0, next.1);
        let d = next.2;
        grid.lemma_neighbors_listed(pos, next);
        grid.lemma_index_in_range(pos);
        grid.lemma_index_in_range(cell);
        lemma_mask_zero(0);
        if self.root is None {
            grid.lemma_blank();
            assert(grid.mask(pos) == 0);
        } else {
            assert(grid.symmetric());
            if grid.passage(pos, d) {
                assert(false);
            }
        }
        grid.lemma_carved_counts(pos, d);
    }

    /// Walking back burns fuel.
    pub proof fn lemma_retreat_burns_fuel(self, grid: Grid)
        requires
            !self.finished(),
        ensures
            0 <= self.retreated().fuel(grid) < self.fuel(grid),
    {
        self.retreated().lemma_fuel_is_never_negative(grid);
    }
}

} // verus!
