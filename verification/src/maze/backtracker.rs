//! The model of the random depth-first generator: a stack of cells that
//! grows by carving into cells without passages and shrinks where there are
//! none left.
use vstd::prelude::*;

use crate::maze::grid::Grid;
use crate::Direction;

verus! {

impl Grid {
    /// Every cell next to the cell `p` has a passage.
    pub open spec fn enclosed(self, p: (usize, usize)) -> bool {
        &&& self.has_neighbor(p, Direction::UP) ==> self.mask(self.neighbor(p, Direction::UP)) != 0
        &&& self.has_neighbor(p, Direction::RIGHT) ==> self.mask(self.neighbor(p, Direction::RIGHT))
            != 0
        &&& self.has_neighbor(p, Direction::DOWN) ==> self.mask(self.neighbor(p, Direction::DOWN))
            != 0
        &&& self.has_neighbor(p, Direction::LEFT) ==> self.mask(self.neighbor(p, Direction::LEFT))
            != 0
    }

    /// The cell `p` lies in the grid and has no passage.
    pub open spec fn blank_at(self, p: (usize, usize)) -> bool {
        self.contains(p) && self.mask(p) == 0
    }

    /// Those of the first `upto` cells of `list` that lie in the grid and
    /// have no passage, in their order.
    pub open spec fn blank_among(
        self,
        list: Seq<(usize, usize, Direction)>,
        upto: int,
    ) -> Seq<(usize, usize, Direction)>
        decreases upto,
    {
        if upto <= 0 {
            Seq::empty()
        } else if self.blank_at((list[upto - 1].0, list[upto - 1].1)) {
            self.blank_among(list, upto - 1).push(list[upto - 1])
        } else {
            self.blank_among(list, upto - 1)
        }
    }

    /// Each of the cells without a passage among a list is one of the list
    /// and has no passage.
    pub proof fn lemma_blank_among(self, list: Seq<(usize, usize, Direction)>, upto: int, j: int)
        requires
            0 <= upto <= list.len(),
            0 <= j < self.blank_among(list, upto).len(),
        ensures
            list.contains(self.blank_among(list, upto)[j]),
            self.blank_at((self.blank_among(list, upto)[j].0, self.blank_among(list, upto)[j].1)),
        decreases upto,
    {
        if upto > 0 {
            if self.blank_at((list[upto - 1].0, list[upto - 1].1)) && j == self.blank_among(
                list,
                upto - 1,
            ).len() {
                assert(list[upto - 1] == self.blank_among(list, upto)[j]);
            } else {
                self.lemma_blank_among(list, upto - 1, j);
            }
        }
    }

    /// Where none of a list of cells is without a passage, each of them has
    /// one.
    pub proof fn lemma_none_blank_among(self, list: Seq<(usize, usize, Direction)>, upto: int, i: int)
        requires
            0 <= i < upto <= list.len(),
            self.blank_among(list, upto).len() == 0,
        ensures
            !self.blank_at((list[i].0, list[i].1)),
        decreases upto,
    {
        if i < upto - 1 {
            self.lemma_none_blank_among(list, upto - 1, i);
        }
    }

    /// A cell none of whose listed neighbours is without a passage is
    /// enclosed.
    pub proof fn lemma_enclosed(self, p: (usize, usize))
        requires
            self.wf(),
            self.contains(p),
            self.blank_among(self.neighbors(p), self.neighbors(p).len() as int).len() == 0,
        ensures
            self.enclosed(p),
    {
        let list = self.neighbors(p);
        let left = self.side(p, Direction::LEFT);
        let right = self.side(p, Direction::RIGHT);
        let up = self.side(p, Direction::UP);
        let down = self.side(p, Direction::DOWN);
        if self.has_neighbor(p, Direction::LEFT) {
            assert(list[0] == left[0]);
            self.lemma_none_blank_among(list, list.len() as int, 0);
        }
        if self.has_neighbor(p, Direction::RIGHT) {
            let i = left.len() as int;
            assert(list[i] == right[0]);
            self.lemma_none_blank_among(list, list.len() as int, i);
        }
        if self.has_neighbor(p, Direction::UP) {
            let i = (left.len() + right.len()) as int;
            assert(list[i] == up[0]);
            self.lemma_none_blank_among(list, list.len() as int, i);
        }
        if self.has_neighbor(p, Direction::DOWN) {
            let i = (left.len() + right.len() + up.len()) as int;
            assert(list[i] == down[0]);
            self.lemma_none_blank_among(list, list.len() as int, i);
        }
    }

    /// Carving a passage from one end is carving it from the other.
    pub proof fn lemma_carved_either_way(self, p: (usize, usize), d: Direction)
        requires
            self.wf(),
            self.has_neighbor(p, d),
        ensures
            self.carved(p, d) == self.carved(self.neighbor(p, d), d.opposite()),
    {
        let q = self.neighbor(p, d);
        self.lemma_neighbor(p, d);
        self.lemma_index_in_range(p);
        self.lemma_index_in_range(q);
        if self.index(p) == self.index(q) {
            self.lemma_index_injective(p, q);
        }
        assert(self.carved(p, d).cells =~= self.carved(q, d.opposite()).cells);
    }

    /// Where every cell with a passage is enclosed, and one cell has a
    /// passage, every cell has one.
    pub proof fn lemma_enclosed_everywhere(self, r: (usize, usize), p: (usize, usize))
        requires
            self.wf(),
            self.carved_at(r),
            forall|q: (usize, usize)| self.carved_at(q) ==> #[trigger] self.enclosed(q),
            self.contains(p),
        ensures
            self.mask(p) != 0,
        decreases
                (if p.0 >= r.0 {
                    p.0 - r.0
                } else {
                    r.0 - p.0
                }) + (if p.1 >= r.1 {
                    p.1 - r.1
                } else {
                    r.1 - p.1
                }),
    {
        if p != r {
            let d = if p.0 > r.0 {
                Direction::LEFT
            } else if p.0 < r.0 {
                Direction::RIGHT
            } else if p.1 > r.1 {
                Direction::UP
            } else {
                Direction::DOWN
            };
            assert(self.has_neighbor(p, d));
            let q = self.neighbor(p, d);
            self.lemma_neighbor(p, d);
            self.lemma_enclosed_everywhere(r, q);
            assert(self.carved_at(q));
            assert(self.enclosed(q));
        }
    }
}

/// What the generator knows: the cells from the one where it started to the
/// one where it stands, and, once the maze has passages, a cell around which
/// they form a tree.
#[verifier::ext_equal]
pub struct BacktrackerState {
    pub stack: Seq<(usize, usize)>,
    pub root: Option<(usize, usize)>,
}

impl BacktrackerState {
    /// The generator has walked back to before its start: the maze is
    /// complete.
    pub open spec fn finished(self) -> bool {
        self.stack.len() == 0
    }

    /// The cell `p`, if it has a passage and the generator does not stand
    /// on it, is enclosed.
    pub open spec fn left_behind(self, grid: Grid, p: (usize, usize)) -> bool {
        grid.carved_at(p) && !self.stack.contains(p) ==> grid.enclosed(p)
    }

    /// The generator and the grid fit together. Before the first passage
    /// the generator stands on one cell of a grid without passages.
    /// Afterwards the passages form a tree that holds the cells of the
    /// stack, and every other cell of the tree is enclosed. When the stack
    /// is empty, the grid is a perfect maze.
    pub open spec fn fits(self, grid: Grid) -> bool {
        &&& forall|i: int| 0 <= i < self.stack.len() ==> grid.contains(#[trigger] self.stack[i])
        &&& if self.stack.len() == 0 {
            grid.is_perfect()
        } else {
            match self.root {
                None => grid.blank() && self.stack.len() == 1,
                Some(r) => {
                    &&& grid.is_tree(r)
                    &&& forall|i: int|
                        0 <= i < self.stack.len() ==> grid.mask(#[trigger] self.stack[i]) != 0
                    &&& forall|p: (usize, usize)| #[trigger] self.left_behind(grid, p)
                },
            }
        }
    }

    /// The generator after it has carved on to the cell `next`, with the
    /// direction that leads there from the cell where it stood.
    pub open spec fn dug(self, next: (usize, usize, Direction)) -> BacktrackerState {
        BacktrackerState {
            stack: self.stack.push((next.0, next.1)),
            root: match self.root {
                Some(r) => Some(r),
                None => Some((next.0, next.1)),
            },
        }
    }

    /// The generator after it has walked one cell back.
    pub open spec fn retreated(self) -> BacktrackerState {
        BacktrackerState { stack: self.stack.drop_last(), ..self }
    }

    /// Carving on to a cell without a passage next to the cell where the
    /// generator stands keeps generator and grid fitting.
    pub proof fn lemma_dig(self, grid: Grid, next: (usize, usize, Direction))
        requires
            grid.wf(),
            self.fits(grid),
            !self.finished(),
            grid.neighbors(self.stack.last()).contains(next),
            grid.mask((next.0, next.1)) == 0,
        ensures
            grid.has_neighbor(self.stack.last(), next.2),
            self.dug(next).fits(grid.carved(self.stack.last(), next.2)),
            grid.carved(self.stack.last(), next.2).wf(),
            grid.carved(self.stack.last(), next.2).extends(grid),
    {
        let pos = self.stack.last();
        let cell = (next.0, next.1);
        let d = next.2;
        let after = grid.carved(pos, d);
        let state = self.dug(next);
        grid.lemma_neighbors_listed(pos, next);
        grid.lemma_neighbor(pos, d);
        grid.lemma_carved_either_way(pos, d);
        grid.lemma_carved_extends(pos, d);
        grid.lemma_carved(pos, d, pos, d);
        assert(self.stack[self.stack.len() - 1] == pos);
        assert(state.stack.len() == self.stack.len() + 1);
        assert forall|i: int| 0 <= i < state.stack.len() implies after.contains(
            #[trigger] state.stack[i],
        ) by {
            if i < self.stack.len() {
                assert(grid.contains(self.stack[i]));
            }
        }
        match self.root {
            None => {
                grid.lemma_tree_begins(pos, d);
                grid.lemma_blank();
                assert(self.stack[0] == pos);
                assert(state.stack =~= seq![pos, cell]);
                assert forall|p: (usize, usize)| #[trigger] state.left_behind(after, p) by {
                    if after.carved_at(p) && p != pos && p != cell {
                        assert(after.mask(p) == 0);
                    }
                    if p == pos {
                        assert(state.stack[0] == p);
                    }
                    if p == cell {
                        assert(state.stack[1] == p);
                    }
                }
                assert forall|i: int| 0 <= i < state.stack.len() implies after.mask(
                    #[trigger] state.stack[i],
                ) != 0 by {}
            },
            Some(r) => {
                assert(grid.mask(self.stack[self.stack.len() - 1]) != 0);
                grid.lemma_tree_grows(r, cell, d.opposite());
                assert forall|i: int| 0 <= i < state.stack.len() implies after.mask(
                    #[trigger] state.stack[i],
                ) != 0 by {
                    if i < self.stack.len() {
                        assert(grid.mask(self.stack[i]) != 0);
                        assert(grid.contains(self.stack[i]));
                        assert(self.stack[i] != cell);
                        assert(after.mask(self.stack[i]) == 0 <==> grid.mask(self.stack[i]) == 0);
                    }
                }
                assert forall|p: (usize, usize)| #[trigger] state.left_behind(after, p) by {
                    if after.carved_at(p) && !state.stack.contains(p) {
                        assert(state.stack[self.stack.len() as int] == cell);
                        assert(p != cell);
                        assert(after.mask(p) == 0 <==> grid.mask(p) == 0);
                        if self.stack.contains(p) {
                            let i = choose|i: int| 0 <= i < self.stack.len() && self.stack[i] == p;
                            assert(state.stack[i] == p);
                        }
                        assert(self.left_behind(grid, p));
                        assert(grid.enclosed(p));
                        Self::lemma_enclosed_stays(grid, after, cell, p);
                    }
                }
            },
        }
    }

    /// A cell that is enclosed stays so when passages are carved.
    pub proof fn lemma_enclosed_stays(
        grid: Grid,
        after: Grid,
        cell: (usize, usize),
        p: (usize, usize),
    )
        requires
            grid.wf(),
            after.width == grid.width,
            after.height == grid.height,
            grid.enclosed(p),
            forall|a: (usize, usize)|
                grid.contains(a) && a != cell ==> (#[trigger] after.mask(a) == 0 <==> grid.mask(a)
                    == 0),
            after.mask(cell) != 0,
        ensures
            after.enclosed(p),
    {
        if grid.has_neighbor(p, Direction::UP) {
            grid.lemma_neighbor(p, Direction::UP);
            let a = grid.neighbor(p, Direction::UP);
            assert(a == cell || (after.mask(a) == 0 <==> grid.mask(a) == 0));
        }
        if grid.has_neighbor(p, Direction::RIGHT) {
            grid.lemma_neighbor(p, Direction::RIGHT);
            let a = grid.neighbor(p, Direction::RIGHT);
            assert(a == cell || (after.mask(a) == 0 <==> grid.mask(a) == 0));
        }
        if grid.has_neighbor(p, Direction::DOWN) {
            grid.lemma_neighbor(p, Direction::DOWN);
            let a = grid.neighbor(p, Direction::DOWN);
            assert(a == cell || (after.mask(a) == 0 <==> grid.mask(a) == 0));
        }
        if grid.has_neighbor(p, Direction::LEFT) {
            grid.lemma_neighbor(p, Direction::LEFT);
            let a = grid.neighbor(p, Direction::LEFT);
            assert(a == cell || (after.mask(a) == 0 <==> grid.mask(a) == 0));
        }
    }

    /// Walking back from a cell that is enclosed keeps generator and grid
    /// fitting; and when the stack is empty, the grid is a perfect maze.
    pub proof fn lemma_retreat(self, grid: Grid)
        requires
            grid.wf(),
            self.fits(grid),
            !self.finished(),
            grid.enclosed(self.stack.last()),
        ensures
            self.retreated().fits(grid),
    {
        let pos = self.stack.last();
        let state = self.retreated();
        assert(self.stack[self.stack.len() - 1] == pos);
        assert forall|i: int| 0 <= i < state.stack.len() implies grid.contains(
            #[trigger] state.stack[i],
        ) by {
            assert(grid.contains(self.stack[i]));
        }
        match self.root {
            None => {
                assert(grid.contains(pos));
                grid.lemma_blank();
                assert(!grid.has_neighbor(pos, Direction::LEFT));
                assert(!grid.has_neighbor(pos, Direction::RIGHT));
                assert(!grid.has_neighbor(pos, Direction::UP));
                assert(!grid.has_neighbor(pos, Direction::DOWN));
                grid.lemma_single_cell_is_perfect();
            },
            Some(r) => {
                assert forall|p: (usize, usize)| #[trigger] state.left_behind(grid, p) by {
                    if grid.carved_at(p) && !state.stack.contains(p) {
                        if p != pos {
                            if self.stack.contains(p) {
                                let i = choose|i: int|
                                    0 <= i < self.stack.len() && self.stack[i] == p;
                                assert(state.stack[i] == p);
                            }
                            assert(self.left_behind(grid, p));
                        }
                    }
                }
                if state.stack.len() == 0 {
                    assert forall|q: (usize, usize)| grid.carved_at(q) implies #[trigger] grid.enclosed(
                        q,
                    ) by {
                        assert(state.left_behind(grid, q));
                    }
                    assert forall|p: (usize, usize)| grid.contains(p) implies #[trigger] grid.mask(p)
                        != 0 by {
                        grid.lemma_enclosed_everywhere(r, p);
                    }
                    grid.lemma_full_tree_is_perfect(r);
                } else {
                    assert forall|i: int| 0 <= i < state.stack.len() implies grid.mask(
                        #[trigger] state.stack[i],
                    ) != 0 by {
                        assert(grid.mask(self.stack[i]) != 0);
                    }
                }
            },
        }
    }
}

} // verus!
