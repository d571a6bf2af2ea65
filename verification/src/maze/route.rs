//! Routes through a grid: what it is to lead from one cell to another, and to
//! do so in the fewest steps.
use vstd::prelude::*;

use crate::maze::grid::Grid;

verus! {

impl Grid {
    /// The cell that every solver aims at: the last cell of the last row.
    pub open spec fn goal(self) -> (usize, usize) {
        ((self.width - 1) as usize, (self.height - 1) as usize)
    }

    /// Whether a passage joins the `i`-th cell of `path` to the one after it.
    pub open spec fn joined_at(self, path: Seq<(usize, usize)>, i: int) -> bool {
        self.linked(path[i], path[i + 1])
    }

    /// A route is one cell of the grid or more, each joined to the next by
    /// a passage.
    pub open spec fn is_route(self, path: Seq<(usize, usize)>) -> bool {
        &&& path.len() > 0
        &&& self.contains(path[0])
        &&& forall|i: int| 0 <= i < path.len() - 1 ==> #[trigger] self.joined_at(path, i)
    }

    /// The route `path` leads from `from` to `to`.
    pub open spec fn connects(
        self,
        path: Seq<(usize, usize)>,
        from: (usize, usize),
        to: (usize, usize),
    ) -> bool {
        self.is_route(path) && path[0] == from && path.last() == to
    }

    /// Some route leads from `from` to `to`.
    pub open spec fn reachable(self, from: (usize, usize), to: (usize, usize)) -> bool {
        exists|path: Seq<(usize, usize)>| self.connects(path, from, to)
    }

    /// The route `path` leads from the first cell of the grid to its goal.
    pub open spec fn is_solution(self, path: Seq<(usize, usize)>) -> bool {
        self.connects(path, (0, 0), self.goal())
    }

    /// No solution has fewer cells than the solution `path`.
    pub open spec fn is_shortest_solution(self, path: Seq<(usize, usize)>) -> bool {
        &&& self.is_solution(path)
        &&& forall|other: Seq<(usize, usize)>| #[trigger]
            self.is_solution(other) ==> path.len() <= other.len()
    }

    /// The grid has a solution.
    pub open spec fn solvable(self) -> bool {
        self.reachable((0, 0), self.goal())
    }

    /// Every cell of a route lies within the grid.
    pub proof fn lemma_route_within(self, path: Seq<(usize, usize)>, i: int)
        requires
            self.wf(),
            self.is_route(path),
            0 <= i < path.len(),
        ensures
            self.contains(path[i]),
        decreases i,
    {
        if i > 0 {
            self.lemma_route_within(path, i - 1);
            assert(self.joined_at(path, i - 1));
            self.lemma_linked_contains(path[i - 1], path[i]);
        }
    }

    /// A route goes on through a passage that leaves its last cell.
    pub proof fn lemma_route_push(self, path: Seq<(usize, usize)>, next: (usize, usize))
        requires
            self.is_route(path),
            self.linked(path.last(), next),
        ensures
            self.is_route(path.push(next)),
            path.push(next)[0] == path[0],
    {
        let longer = path.push(next);
        assert forall|i: int| 0 <= i < longer.len() - 1 implies #[trigger] self.joined_at(
            longer,
            i,
        ) by {
            if i < path.len() - 1 {
                assert(self.joined_at(path, i));
            }
        }
    }

    /// What is left of a route of two cells or more without its last cell is
    /// a route.
    pub proof fn lemma_route_drop_last(self, path: Seq<(usize, usize)>)
        requires
            self.is_route(path),
            path.len() > 1,
        ensures
            self.is_route(path.drop_last()),
            path.drop_last()[0] == path[0],
    {
        let shorter = path.drop_last();
        assert forall|i: int| 0 <= i < shorter.len() - 1 implies #[trigger] self.joined_at(
            shorter,
            i,
        ) by {
            assert(self.joined_at(path, i));
        }
    }

    /// Two routes, the second of which starts where the first ends, make
    /// one route.
    pub proof fn lemma_route_join(
        self,
        first: Seq<(usize, usize)>,
        second: Seq<(usize, usize)>,
    )
        requires
            self.is_route(first),
            self.is_route(second),
            first.last() == second[0],
        ensures
            self.connects(first + second.drop_first(), first[0], second.last()),
    {
        let joined = first + second.drop_first();
        assert forall|i: int| 0 <= i < joined.len() - 1 implies #[trigger] self.joined_at(
            joined,
            i,
        ) by {
            if i < first.len() - 1 {
                assert(self.joined_at(first, i));
            } else {
                let j = i - first.len() + 1;
                assert(self.joined_at(second, j));
                assert(joined[i] == second[j]);
                assert(joined[i + 1] == second[j + 1]);
            }
        }
    }

    /// In a grid whose passages can be walked both ways, a route walked
    /// backwards is a route.
    pub proof fn lemma_route_reverse(self, path: Seq<(usize, usize)>)
        requires
            self.wf(),
            self.symmetric(),
            self.is_route(path),
        ensures
            self.connects(path.reverse(), path.last(), path[0]),
    {
        let back = path.reverse();
        self.lemma_route_within(path, path.len() - 1);
        assert forall|i: int| 0 <= i < back.len() - 1 implies #[trigger] self.joined_at(
            back,
            i,
        ) by {
            let j = path.len() - 2 - i;
            assert(self.joined_at(path, j));
            self.lemma_linked_back(path[j], path[j + 1]);
            assert(back[i] == path[j + 1]);
            assert(back[i + 1] == path[j]);
        }
    }

    /// In a grid whose passages can be walked both ways, a cell joined to
    /// another is joined from it.
    pub proof fn lemma_linked_back(self, a: (usize, usize), b: (usize, usize))
        requires
            self.wf(),
            self.symmetric(),
            self.linked(a, b),
        ensures
            self.linked(b, a),
    {
        let d = if self.passage(a, crate::Direction::UP) && self.neighbor(a, crate::Direction::UP)
            == b {
            crate::Direction::UP
        } else if self.passage(a, crate::Direction::RIGHT) && self.neighbor(
            a,
            crate::Direction::RIGHT,
        ) == b {
            crate::Direction::RIGHT
        } else if self.passage(a, crate::Direction::DOWN) && self.neighbor(
            a,
            crate::Direction::DOWN,
        ) == b {
            crate::Direction::DOWN
        } else {
            crate::Direction::LEFT
        };
        assert(self.passage(a, d) && self.neighbor(a, d) == b);
        self.lemma_neighbor(a, d);
        assert(self.passage(b, d.opposite()));
        assert(self.neighbor(b, d.opposite()) == a);
    }
}

} // verus!
