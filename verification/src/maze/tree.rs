//! Counting the passages of a grid, and what makes a grid a perfect maze:
//! its passages join all cells, and there is one passage less than there are
//! cells.
use vstd::prelude::*;

use crate::maze::grid::{has_bit, lemma_mask_zero, Grid};
use crate::Direction;

verus! {

/// The sum of the numbers `w`.
pub open spec fn total(w: Seq<int>) -> int
    decreases w.len(),
{
    if w.len() == 0 {
        0
    } else {
        total(w.drop_last()) + w.last()
    }
}

/// Changing one of the numbers changes their sum by as much.
pub proof fn lemma_total_update(w: Seq<int>, i: int, v: int)
    requires
        0 <= i < w.len(),
    ensures
        total(w.update(i, v)) == total(w) - w[i] + v,
    decreases w.len(),
{
    let u = w.update(i, v);
    if i == w.len() - 1 {
        assert(u.drop_last() =~= w.drop_last());
    } else {
        assert(u.drop_last() =~= w.drop_last().update(i, v));
        lemma_total_update(w.drop_last(), i, v);
    }
}

/// The sum of numbers that are all `v` is as many times `v`.
pub proof fn lemma_total_constant(w: Seq<int>, v: int)
    requires
        forall|i: int| 0 <= i < w.len() ==> #[trigger] w[i] == v,
    ensures
        total(w) == w.len() * v,
    decreases w.len(),
{
    if w.len() > 0 {
        lemma_total_constant(w.drop_last(), v);
        assert(w.len() * v == (w.len() - 1) * v + v) by (nonlinear_arith);
    }
}

impl Grid {
    /// The cell `p` belongs to the maze: a passage leaves it.
    pub open spec fn carved_at(self, p: (usize, usize)) -> bool {
        self.contains(p) && self.mask(p) != 0
    }

    /// One for a cell with a passage, nought for one without.
    pub open spec fn carved_weight(self, i: int) -> int {
        if self.cells[i] != 0 {
            1
        } else {
            0
        }
    }

    /// The number of passages that leave the `i`-th cell to the right and
    /// downwards. Counted so, each passage that can be walked both ways is
    /// counted once.
    pub open spec fn passage_weight(self, i: int) -> int {
        (if self.has_neighbor(self.position(i), Direction::RIGHT) && has_bit(
            self.cells[i],
            Direction::RIGHT,
        ) {
            1int
        } else {
            0int
        }) + (if self.has_neighbor(self.position(i), Direction::DOWN) && has_bit(
            self.cells[i],
            Direction::DOWN,
        ) {
            1int
        } else {
            0int
        })
    }

    /// The number of cells that belong to the maze.
    pub open spec fn carved_count(self) -> int {
        total(Seq::new(self.cells.len(), |i: int| self.carved_weight(i)))
    }

    /// The number of passages.
    pub open spec fn passage_count(self) -> int {
        total(Seq::new(self.cells.len(), |i: int| self.passage_weight(i)))
    }

    /// The cells that belong to the maze form a tree around the cell
    /// `root`: passages can be walked both ways and stay within the grid,
    /// every cell of the maze can be reached from `root`, and there is one
    /// passage less than there are cells in the maze.
    pub open spec fn is_tree(self, root: (usize, usize)) -> bool {
        &&& self.symmetric()
        &&& self.sealed()
        &&& self.carved_at(root)
        &&& self.passage_count() + 1 == self.carved_count()
        &&& forall|p: (usize, usize)| self.carved_at(p) ==> #[trigger] self.reachable(root, p)
    }

    /// The grid is a perfect maze: passages can be walked both ways, every
    /// cell can be reached from the first cell, and there is one passage
    /// less than there are cells.
    pub open spec fn is_perfect(self) -> bool {
        &&& self.symmetric()
        &&& self.passage_count() == self.cells.len() - 1
        &&& forall|p: (usize, usize)| self.contains(p) ==> #[trigger] self.reachable((0, 0), p)
    }

    /// The grid has all the passages of the grid `other`, which has the
    /// same bounds.
    pub open spec fn extends(self, other: Grid) -> bool {
        &&& self.width == other.width
        &&& self.height == other.height
        &&& forall|p: (usize, usize), d: Direction| #[trigger]
            other.passage(p, d) ==> self.passage(p, d)
    }

    /// A route stays a route when passages are added.
    pub proof fn lemma_route_extends(self, other: Grid, path: Seq<(usize, usize)>)
        requires
            self.extends(other),
            other.is_route(path),
        ensures
            self.is_route(path),
    {
        assert forall|i: int| 0 <= i < path.len() - 1 implies #[trigger] self.joined_at(path, i) by {
            assert(other.joined_at(path, i));
        }
    }

    /// What can be reached can still be reached when passages are added.
    pub proof fn lemma_reachable_extends(self, other: Grid, a: (usize, usize), b: (usize, usize))
        requires
            self.extends(other),
            other.reachable(a, b),
        ensures
            self.reachable(a, b),
    {
        let path = choose|path: Seq<(usize, usize)>| other.connects(path, a, b);
        self.lemma_route_extends(other, path);
        assert(self.connects(path, a, b));
    }

    /// What can be reached from a cell can be reached further through a
    /// passage.
    pub proof fn lemma_reachable_step(self, a: (usize, usize), b: (usize, usize), c: (usize, usize))
        requires
            self.reachable(a, b),
            self.linked(b, c),
        ensures
            self.reachable(a, c),
    {
        let path = choose|path: Seq<(usize, usize)>| self.connects(path, a, b);
        self.lemma_route_push(path, c);
        assert(self.connects(path.push(c), a, c));
    }

    /// Every cell of the grid can be reached from itself.
    pub proof fn lemma_reachable_self(self, a: (usize, usize))
        requires
            self.contains(a),
        ensures
            self.reachable(a, a),
    {
        let path = seq![a];
        assert(self.connects(path, a, a));
    }

    /// Where passages can be walked both ways, two cells that can be
    /// reached from a third can be reached from each other.
    pub proof fn lemma_reachable_via(self, r: (usize, usize), a: (usize, usize), b: (usize, usize))
        requires
            self.wf(),
            self.symmetric(),
            self.reachable(r, a),
            self.reachable(r, b),
        ensures
            self.reachable(a, b),
    {
        let to_a = choose|path: Seq<(usize, usize)>| self.connects(path, r, a);
        let to_b = choose|path: Seq<(usize, usize)>| self.connects(path, r, b);
        self.lemma_route_reverse(to_a);
        self.lemma_route_join(to_a.reverse(), to_b);
        assert(self.connects(to_a.reverse() + to_b.drop_first(), a, b));
    }

    /// A grid without passages counts no passage and no cell of the maze.
    pub proof fn lemma_blank_counts(self)
        requires
            self.wf(),
            self.blank(),
        ensures
            self.passage_count() == 0,
            self.carved_count() == 0,
    {
        let carved = Seq::new(self.cells.len(), |i: int| self.carved_weight(i));
        let passages = Seq::new(self.cells.len(), |i: int| self.passage_weight(i));
        assert forall|i: int| 0 <= i < passages.len() implies #[trigger] passages[i] == 0 by {
            lemma_mask_zero(0);
        }
        lemma_total_constant(carved, 0);
        lemma_total_constant(passages, 0);
    }

    /// A grid whose cells all have a passage counts all its cells.
    pub proof fn lemma_full_count(self)
        requires
            self.wf(),
            forall|i: int| 0 <= i < self.cells.len() ==> #[trigger] self.cells[i] != 0,
        ensures
            self.carved_count() == self.cells.len(),
    {
        let carved = Seq::new(self.cells.len(), |i: int| self.carved_weight(i));
        lemma_total_constant(carved, 1);
    }

    /// Carving a passage where there was none, in either direction, adds
    /// one passage, and adds to the cells of the maze those of the two
    /// cells that had no passage before.
    pub proof fn lemma_carved_counts(self, p: (usize, usize), d: Direction)
        requires
            self.wf(),
            self.has_neighbor(p, d),
            !has_bit(self.mask(p), d),
            !has_bit(self.mask(self.neighbor(p, d)), d.opposite()),
        ensures
            self.carved(p, d).passage_count() == self.passage_count() + 1,
            self.carved(p, d).carved_count() == self.carved_count() + (if self.mask(p) == 0 {
                1int
            } else {
                0int
            }) + (if self.mask(self.neighbor(p, d)) == 0 {
                1int
            } else {
                0int
            }),
    {
        let q = self.neighbor(p, d);
        let g = self.carved(p, d);
        let n = self.cells.len();
        let ip = self.index(p);
        let iq = self.index(q);
        self.lemma_neighbor(p, d);
        self.lemma_index_in_range(p);
        self.lemma_index_in_range(q);
        if ip == iq {
            self.lemma_index_injective(p, q);
        }
        self.lemma_carved(p, d, p, d);
        self.lemma_carved(p, d, q, d);
        assert(g.cells.len() == n);
        assert(g.position(ip) == p);
        assert(g.position(iq) == q);
        assert forall|i: int| 0 <= i < n && i != ip && i != iq implies g.cells[i]
            == self.cells[i] by {}

        let carved = Seq::new(n, |i: int| self.carved_weight(i));
        let carved_after = Seq::new(n, |i: int| g.carved_weight(i));
        assert(g.mask(p) != 0 && g.mask(q) != 0) by {
            self.lemma_carved(p, d, p, d);
            self.lemma_carved(p, d, q, d.opposite());
            g.lemma_index_in_range(p);
            g.lemma_index_in_range(q);
            lemma_mask_zero(g.mask(p));
            lemma_mask_zero(g.mask(q));
        }
        assert(carved_after =~= carved.update(ip, 1).update(iq, 1));
        lemma_total_update(carved, ip, 1);
        lemma_total_update(carved.update(ip, 1), iq, 1);

        let passages = Seq::new(n, |i: int| self.passage_weight(i));
        let passages_after = Seq::new(n, |i: int| g.passage_weight(i));
        self.lemma_carved(p, d, p, Direction::RIGHT);
        self.lemma_carved(p, d, p, Direction::DOWN);
        self.lemma_carved(p, d, q, Direction::RIGHT);
        self.lemma_carved(p, d, q, Direction::DOWN);
        let at_p = g.passage_weight(ip);
        let at_q = g.passage_weight(iq);
        assert(passages_after =~= passages.update(ip, at_p).update(iq, at_q));
        lemma_total_update(passages, ip, at_p);
        lemma_total_update(passages.update(ip, at_p), iq, at_q);
        assert(at_p + at_q == passages[ip] + passages[iq] + 1);
    }

    /// Carving keeps every passage that was there.
    pub proof fn lemma_carved_extends(self, p: (usize, usize), d: Direction)
        requires
            self.wf(),
            self.has_neighbor(p, d),
        ensures
            self.carved(p, d).extends(self),
    {
        let g = self.carved(p, d);
        assert forall|a: (usize, usize), e: Direction| #[trigger] self.passage(a, e) implies g.passage(
            a,
            e,
        ) by {
            self.lemma_carved(p, d, a, e);
        }
    }

    /// Joining a cell without passages to a cell of a tree makes the tree
    /// one cell larger.
    pub proof fn lemma_tree_grows(self, root: (usize, usize), p: (usize, usize), d: Direction)
        requires
            self.wf(),
            self.is_tree(root),
            self.has_neighbor(p, d),
            self.mask(p) == 0,
            self.carved_at(self.neighbor(p, d)),
        ensures
            self.carved(p, d).is_tree(root),
            self.carved(p, d).carved_at(p),
            forall|a: (usize, usize)|
                self.contains(a) && a != p ==> (#[trigger] self.carved(p, d).mask(a) == 0
                    <==> self.mask(a) == 0),
    {
        let q = self.neighbor(p, d);
        let g = self.carved(p, d);
        self.lemma_neighbor(p, d);
        lemma_mask_zero(0);
        assert(!has_bit(self.mask(q), d.opposite())) by {
            if has_bit(self.mask(q), d.opposite()) {
                assert(self.has_neighbor(q, d.opposite()));
                assert(self.passage(q, d.opposite()));
                assert(has_bit(self.mask(self.neighbor(q, d.opposite())), d.opposite().opposite()));
            }
        }
        self.lemma_carved_counts(p, d);
        self.lemma_carved_symmetric(p, d);
        self.lemma_carved_extends(p, d);
        assert forall|a: (usize, usize)| self.contains(a) && a != p implies (#[trigger] g.mask(a) == 0
            <==> self.mask(a) == 0) by {
            self.lemma_carved(p, d, a, d);
            if a == q {
                self.lemma_carved(p, d, q, d.opposite());
                g.lemma_index_in_range(q);
                lemma_mask_zero(g.mask(q));
            }
        }
        assert(g.carved_at(p)) by {
            self.lemma_carved(p, d, p, d);
            g.lemma_index_in_range(p);
            lemma_mask_zero(g.mask(p));
        }
        assert forall|a: (usize, usize)| g.carved_at(a) implies #[trigger] g.reachable(root, a) by {
            if a == p {
                assert(self.reachable(root, q));
                g.lemma_reachable_extends(self, root, q);
                g.lemma_reachable_step(root, q, p);
            } else {
                assert(self.carved_at(a));
                assert(self.reachable(root, a));
                g.lemma_reachable_extends(self, root, a);
            }
        }
    }

    /// Joining two neighbours in a grid without passages makes a tree of
    /// two cells around the second.
    pub proof fn lemma_tree_begins(self, p: (usize, usize), d: Direction)
        requires
            self.wf(),
            self.blank(),
            self.has_neighbor(p, d),
        ensures
            self.carved(p, d).is_tree(self.neighbor(p, d)),
            self.carved(p, d).carved_at(p),
            forall|a: (usize, usize)|
                self.contains(a) && a != p && a != self.neighbor(p, d) ==> #[trigger] self.carved(
                    p,
                    d,
                ).mask(a) == 0,
    {
        let q = self.neighbor(p, d);
        let g = self.carved(p, d);
        self.lemma_neighbor(p, d);
        self.lemma_blank();
        self.lemma_blank_counts();
        lemma_mask_zero(0);
        assert(self.mask(p) == 0);
        assert(self.mask(q) == 0);
        self.lemma_carved_counts(p, d);
        self.lemma_carved_symmetric(p, d);
        assert forall|a: (usize, usize)| self.contains(a) && a != p && a != q implies #[trigger] g.mask(
            a,
        ) == 0 by {
            self.lemma_carved(p, d, a, d);
            assert(self.mask(a) == 0);
        }
        assert(g.carved_at(p) && g.carved_at(q)) by {
            self.lemma_carved(p, d, p, d);
            self.lemma_carved(p, d, q, d.opposite());
            g.lemma_index_in_range(p);
            g.lemma_index_in_range(q);
            lemma_mask_zero(g.mask(p));
            lemma_mask_zero(g.mask(q));
        }
        assert forall|a: (usize, usize)| g.carved_at(a) implies #[trigger] g.reachable(q, a) by {
            g.lemma_reachable_self(q);
            if a != q {
                assert(a == p);
                g.lemma_reachable_step(q, q, p);
            }
        }
    }

    /// A tree that holds every cell of the grid is a perfect maze.
    pub proof fn lemma_full_tree_is_perfect(self, root: (usize, usize))
        requires
            self.wf(),
            self.is_tree(root),
            forall|p: (usize, usize)| self.contains(p) ==> #[trigger] self.mask(p) != 0,
        ensures
            self.is_perfect(),
    {
        assert forall|i: int| 0 <= i < self.cells.len() implies #[trigger] self.cells[i] != 0 by {
            self.lemma_position_of_index(i);
            assert(self.mask(self.position(i)) != 0);
        }
        self.lemma_full_count();
        assert(self.contains((0, 0)));
        assert(self.carved_at((0, 0)));
        assert(self.reachable(root, (0, 0)));
        assert forall|p: (usize, usize)| self.contains(p) implies #[trigger] self.reachable(
            (0, 0),
            p,
        ) by {
            assert(self.carved_at(p));
            assert(self.reachable(root, p));
            self.lemma_reachable_via(root, (0, 0), p);
        }
    }

    /// A grid of one cell is a perfect maze.
    pub proof fn lemma_single_cell_is_perfect(self)
        requires
            self.wf(),
            self.width == 1,
            self.height == 1,
        ensures
            self.is_perfect(),
    {
        assert(self.cells.len() == 1) by (nonlinear_arith)
            requires
                self.cells.len() == self.width * self.height,
                self.width == 1,
                self.height == 1,
        ;
        let passages = Seq::new(self.cells.len(), |i: int| self.passage_weight(i));
        assert forall|i: int| 0 <= i < passages.len() implies #[trigger] passages[i] == 0 by {
            self.lemma_position_of_index(i);
        }
        lemma_total_constant(passages, 0);
        assert forall|p: (usize, usize)| self.contains(p) implies #[trigger] self.reachable(
            (0, 0),
            p,
        ) by {
            self.lemma_reachable_self(p);
        }
        assert forall|p: (usize, usize), d: Direction| #[trigger] self.passage(p, d) implies has_bit(
            self.mask(self.neighbor(p, d)),
            d.opposite(),
        ) by {}
    }
}

} // verus!
