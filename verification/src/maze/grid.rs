//! The mathematical model of a maze: what the contracts of the engine speak of.
use vstd::prelude::*;

use crate::Direction;

verus! {

/// Whether the bit of direction `d` is set in a cell's bitmask.
pub open spec fn has_bit(mask: u8, d: Direction) -> bool {
    mask & d.bit() != 0
}

/// Setting the bit of `d` sets that bit and no other, and keeps a bitmask
/// within its four bits.
pub proof fn lemma_mask_with_bit(mask: u8, d: Direction, e: Direction)
    ensures
        has_bit(mask | d.bit(), e) == (has_bit(mask, e) || d == e),
        mask <= 0x0F ==> mask | d.bit() <= 0x0F,
        mask | d.bit() != 0,
{
    let b = d.bit();
    let c = e.bit();
    assert((b == 1 || b == 2 || b == 4 || b == 8) && (c == 1 || c == 2 || c == 4 || c == 8) ==> (((
    mask | b) & c != 0) == ((mask & c != 0) || b == c))) by (bit_vector);
    assert((b == 1 || b == 2 || b == 4 || b == 8) && mask <= 0x0F ==> mask | b <= 0x0F)
        by (bit_vector);
    assert((b == 1 || b == 2 || b == 4 || b == 8) ==> mask | b != 0) by (bit_vector);
}

/// Clearing the bit of `d` clears that bit and no other.
pub proof fn lemma_mask_without_bit(mask: u8, d: Direction, e: Direction)
    ensures
        has_bit(mask & !d.bit(), e) == (has_bit(mask, e) && d != e),
        mask <= 0x0F ==> mask & !d.bit() <= 0x0F,
{
    let b = d.bit();
    let c = e.bit();
    assert((b == 1 || b == 2 || b == 4 || b == 8) && (c == 1 || c == 2 || c == 4 || c == 8) ==> (((
    mask & !b) & c != 0) == ((mask & c != 0) && b != c))) by (bit_vector);
    assert(mask <= 0x0F ==> mask & !b <= 0x0F) by (bit_vector);
}

/// A bitmask of four bits is zero exactly if none of the four is set.
pub proof fn lemma_mask_zero(mask: u8)
    requires
        mask <= 0x0F,
    ensures
        mask == 0 <==> !has_bit(mask, Direction::UP) && !has_bit(mask, Direction::RIGHT)
            && !has_bit(mask, Direction::DOWN) && !has_bit(mask, Direction::LEFT),
{
    assert(mask <= 0x0F ==> (mask == 0 <==> (mask & 1 == 0 && mask & 2 == 0 && mask & 4 == 0 && mask
        & 8 == 0))) by (bit_vector);
}

/// A grid of `width` by `height` cells, row by row. A cell is a bitmask of
/// the directions in which a passage leaves it.
pub struct Grid {
    pub width: nat,
    pub height: nat,
    pub cells: Seq<u8>,
}

impl Grid {
    /// The grid has at least one cell, a width that two bytes can hold, as
    /// many cells as its bounds say and as a machine can count, and four
    /// bits to a cell.
    pub open spec fn wf(self) -> bool {
        &&& 1 <= self.width <= 0xFFFF
        &&& 1 <= self.height <= usize::MAX
        &&& self.cells.len() == self.width * self.height
        &&& self.cells.len() <= usize::MAX
        &&& forall|i: int| 0 <= i < self.cells.len() ==> #[trigger] self.cells[i] <= 0x0F
    }

    /// No cell has a passage.
    pub open spec fn blank(self) -> bool {
        forall|i: int| 0 <= i < self.cells.len() ==> #[trigger] self.cells[i] == 0
    }

    /// Whether `p`, as `(x, y)`, lies within the bounds.
    pub open spec fn contains(self, p: (usize, usize)) -> bool {
        p.0 < self.width && p.1 < self.height
    }

    /// Where the cell `p` stands among the cells.
    pub open spec fn index(self, p: (usize, usize)) -> int {
        p.1 * self.width + p.0
    }

    /// The index of the cell `p` as a machine number: the key under which a
    /// search keeps what it knows of the cell.
    pub open spec fn key(self, p: (usize, usize)) -> usize {
        self.index(p) as usize
    }

    /// The coordinate of the `i`-th cell.
    pub open spec fn position(self, i: int) -> (usize, usize) {
        ((i % self.width as int) as usize, (i / self.width as int) as usize)
    }

    /// The bitmask of the cell `p`.
    pub open spec fn mask(self, p: (usize, usize)) -> u8 {
        self.cells[self.index(p)]
    }

    /// Whether the grid has a cell next to `p` on the side `d`.
    pub open spec fn has_neighbor(self, p: (usize, usize), d: Direction) -> bool {
        self.contains(p) && match d {
            Direction::UP => p.1 > 0,
            Direction::RIGHT => p.0 + 1 < self.width,
            Direction::DOWN => p.1 + 1 < self.height,
            Direction::LEFT => p.0 > 0,
        }
    }

    /// The cell next to `p` on the side `d`.
    pub open spec fn neighbor(self, p: (usize, usize), d: Direction) -> (usize, usize)
        recommends
            self.has_neighbor(p, d),
    {
        d.travel(p.0, p.1)
    }

    /// Whether one can walk from `p` in direction `d`: there is a cell on
    /// that side, and `p` is open towards it.
    pub open spec fn passage(self, p: (usize, usize), d: Direction) -> bool {
        self.has_neighbor(p, d) && has_bit(self.mask(p), d)
    }

    /// Whether one step through a passage leads from `a` to `b`.
    pub open spec fn linked(self, a: (usize, usize), b: (usize, usize)) -> bool {
        ||| self.passage(a, Direction::UP) && self.neighbor(a, Direction::UP) == b
        ||| self.passage(a, Direction::RIGHT) && self.neighbor(a, Direction::RIGHT) == b
        ||| self.passage(a, Direction::DOWN) && self.neighbor(a, Direction::DOWN) == b
        ||| self.passage(a, Direction::LEFT) && self.neighbor(a, Direction::LEFT) == b
    }

    /// Every passage can be walked both ways: the cell that it leads to is
    /// open towards the cell that it leaves.
    pub open spec fn symmetric(self) -> bool {
        forall|p: (usize, usize), d: Direction| #[trigger]
            self.passage(p, d) ==> has_bit(self.mask(self.neighbor(p, d)), d.opposite())
    }

    /// No cell is open towards the outside of the grid.
    pub open spec fn sealed(self) -> bool {
        forall|p: (usize, usize), d: Direction|
            self.contains(p) && #[trigger] has_bit(self.mask(p), d) ==> self.has_neighbor(p, d)
    }

    /// The grid with the cell `p` opened on the side `d`.
    pub open spec fn opened(self, p: (usize, usize), d: Direction) -> Grid {
        Grid { cells: self.cells.update(self.index(p), self.mask(p) | d.bit()), ..self }
    }

    /// The grid with the cell `p` closed on the side `d`.
    pub open spec fn closed(self, p: (usize, usize), d: Direction) -> Grid {
        Grid { cells: self.cells.update(self.index(p), self.mask(p) & !d.bit()), ..self }
    }

    /// The grid with the cell `p` closed on all sides.
    pub open spec fn cleared(self, p: (usize, usize)) -> Grid {
        Grid { cells: self.cells.update(self.index(p), 0), ..self }
    }

    /// The grid with a passage between `p` and its neighbour on the side `d`,
    /// open from both ends.
    pub open spec fn carved(self, p: (usize, usize), d: Direction) -> Grid
        recommends
            self.has_neighbor(p, d),
    {
        self.opened(p, d).opened(self.neighbor(p, d), d.opposite())
    }

    /// The neighbour of `p` on the side `d`, with the direction that leads
    /// there, if the grid has one.
    pub open spec fn side(self, p: (usize, usize), d: Direction) -> Seq<(usize, usize, Direction)> {
        if self.has_neighbor(p, d) {
            seq![(self.neighbor(p, d).0, self.neighbor(p, d).1, d)]
        } else {
            Seq::empty()
        }
    }

    /// The cells next to `p`, walls or not: left, right, up, down.
    pub open spec fn neighbors(self, p: (usize, usize)) -> Seq<(usize, usize, Direction)> {
        self.side(p, Direction::LEFT) + self.side(p, Direction::RIGHT) + self.side(
            p,
            Direction::UP,
        ) + self.side(p, Direction::DOWN)
    }

    /// The neighbour of `p` on the side `d`, if a passage leads there.
    pub open spec fn exit(self, p: (usize, usize), d: Direction) -> Seq<(usize, usize)> {
        if self.passage(p, d) {
            seq![self.neighbor(p, d)]
        } else {
            Seq::empty()
        }
    }

    /// The cells that one step through a passage reaches from `p`: up,
    /// right, down, left.
    pub open spec fn travellable(self, p: (usize, usize)) -> Seq<(usize, usize)> {
        self.exit(p, Direction::UP) + self.exit(p, Direction::RIGHT) + self.exit(
            p,
            Direction::DOWN,
        ) + self.exit(p, Direction::LEFT)
    }

    /// A cell within the bounds has an index among the cells.
    pub proof fn lemma_index_in_range(self, p: (usize, usize))
        requires
            self.wf(),
            self.contains(p),
        ensures
            0 <= self.index(p) < self.cells.len(),
            self.index(p) <= usize::MAX,
            self.position(self.index(p)) == p,
            self.mask(p) <= 0x0F,
    {
        let w = self.width as int;
        let h = self.height as int;
        let x = p.0 as int;
        let y = p.1 as int;
        assert(y * w + x < w * h) by (nonlinear_arith)
            requires
                0 <= x < w,
                0 <= y < h,
        ;
        assert(0 <= y * w) by (nonlinear_arith)
            requires
                0 <= y,
                0 <= w,
        ;
        vstd::arithmetic::div_mod::lemma_fundamental_div_mod_converse(y * w + x, w, y, x);
    }

    /// An index among the cells is the index of a cell within the bounds.
    pub proof fn lemma_position_of_index(self, i: int)
        requires
            self.wf(),
            0 <= i < self.cells.len(),
        ensures
            self.contains(self.position(i)),
            self.index(self.position(i)) == i,
            self.position(i).0 == i % (self.width as int),
            self.position(i).1 == i / (self.width as int),
    {
        let w = self.width as int;
        let h = self.height as int;
        vstd::arithmetic::div_mod::lemma_fundamental_div_mod(i, w);
        vstd::arithmetic::div_mod::lemma_mod_bound(i, w);
        vstd::arithmetic::div_mod::lemma_div_pos_is_pos(i, w);
        assert(i / w < h) by (nonlinear_arith)
            requires
                i == w * (i / w) + i % w,
                0 <= i % w < w,
                i < w * h,
                0 < w,
        ;
        assert(w * (i / w) == (i / w) * w) by (nonlinear_arith);
    }

    /// Two cells within the bounds that share a key are one cell.
    pub proof fn lemma_key_injective(self, p: (usize, usize), q: (usize, usize))
        requires
            self.wf(),
            self.contains(p),
            self.contains(q),
        ensures
            self.key(p) == self.index(p),
            self.key(p) < self.cells.len(),
            self.key(p) == self.key(q) ==> p == q,
    {
        self.lemma_index_in_range(p);
        self.lemma_index_in_range(q);
    }

    /// Two cells within the bounds that share an index are one cell.
    pub proof fn lemma_index_injective(self, p: (usize, usize), q: (usize, usize))
        requires
            self.wf(),
            self.contains(p),
            self.contains(q),
            self.index(p) == self.index(q),
        ensures
            p == q,
    {
        self.lemma_index_in_range(p);
        self.lemma_index_in_range(q);
    }

    /// The neighbour of a cell lies within the bounds, is another cell, and
    /// has the cell as its own neighbour on the opposite side.
    pub proof fn lemma_neighbor(self, p: (usize, usize), d: Direction)
        requires
            self.wf(),
            self.has_neighbor(p, d),
        ensures
            d.can_travel(p.0, p.1),
            self.contains(self.neighbor(p, d)),
            self.neighbor(p, d) != p,
            self.has_neighbor(self.neighbor(p, d), d.opposite()),
            self.neighbor(self.neighbor(p, d), d.opposite()) == p,
            forall|e: Direction| e != d && self.has_neighbor(p, e) ==> self.neighbor(p, e)
                != self.neighbor(p, d),
    {
    }

    /// What opening one side of one cell changes: that bit of that cell.
    pub proof fn lemma_opened(self, p: (usize, usize), d: Direction, a: (usize, usize), e: Direction)
        requires
            self.wf(),
            self.contains(p),
            self.contains(a),
        ensures
            self.opened(p, d).wf(),
            self.opened(p, d).width == self.width,
            self.opened(p, d).height == self.height,
            has_bit(self.opened(p, d).mask(a), e) == (has_bit(self.mask(a), e) || (a == p && e
                == d)),
            self.opened(p, d).mask(p) != 0,
            a != p ==> self.opened(p, d).mask(a) == self.mask(a),
    {
        self.lemma_index_in_range(p);
        self.lemma_index_in_range(a);
        lemma_mask_with_bit(self.mask(p), d, e);
        if a != p {
            if self.index(a) == self.index(p) {
                self.lemma_index_injective(a, p);
            }
        }
    }

    /// What carving changes: the passage from `p` towards `d` and the one
    /// that leads back, and nothing else.
    pub proof fn lemma_carved(self, p: (usize, usize), d: Direction, a: (usize, usize), e: Direction)
        requires
            self.wf(),
            self.has_neighbor(p, d),
            self.contains(a),
        ensures
            self.carved(p, d).wf(),
            self.carved(p, d).width == self.width,
            self.carved(p, d).height == self.height,
            has_bit(self.carved(p, d).mask(a), e) == (has_bit(self.mask(a), e) || (a == p && e
                == d) || (a == self.neighbor(p, d) && e == d.opposite())),
            self.carved(p, d).passage(a, e) == (self.passage(a, e) || (a == p && e == d) || (a
                == self.neighbor(p, d) && e == d.opposite())),
            a != p && a != self.neighbor(p, d) ==> self.carved(p, d).mask(a) == self.mask(a),
    {
        let q = self.neighbor(p, d);
        self.lemma_neighbor(p, d);
        self.lemma_opened(p, d, a, e);
        self.lemma_opened(p, d, q, e);
        self.opened(p, d).lemma_opened(q, d.opposite(), a, e);
    }

    /// One step through a passage is a step to a cell that `travellable` lists.
    pub proof fn lemma_linked_is_travellable(self, a: (usize, usize), b: (usize, usize))
        ensures
            self.linked(a, b) <==> self.travellable(a).contains(b),
    {
        let up = self.exit(a, Direction::UP);
        let right = self.exit(a, Direction::RIGHT);
        let down = self.exit(a, Direction::DOWN);
        let left = self.exit(a, Direction::LEFT);
        let t = self.travellable(a);
        if self.linked(a, b) {
            if self.passage(a, Direction::UP) && self.neighbor(a, Direction::UP) == b {
                assert(t[0] == b);
            } else if self.passage(a, Direction::RIGHT) && self.neighbor(a, Direction::RIGHT)
                == b {
                assert(t[up.len() as int] == b);
            } else if self.passage(a, Direction::DOWN) && self.neighbor(a, Direction::DOWN) == b {
                assert(t[(up.len() + right.len()) as int] == b);
            } else {
                assert(t[(up.len() + right.len() + down.len()) as int] == b);
            }
        }
        if t.contains(b) {
            let i = choose|i: int| 0 <= i < t.len() && t[i] == b;
            assert(t[i] == b);
        }
    }

    /// A cell that a passage leaves leads to a cell within the bounds.
    pub proof fn lemma_linked_contains(self, a: (usize, usize), b: (usize, usize))
        requires
            self.wf(),
            self.linked(a, b),
        ensures
            self.contains(a),
            self.contains(b),
            a != b,
    {
        if self.passage(a, Direction::UP) && self.neighbor(a, Direction::UP) == b {
            self.lemma_neighbor(a, Direction::UP);
        } else if self.passage(a, Direction::RIGHT) && self.neighbor(a, Direction::RIGHT) == b {
            self.lemma_neighbor(a, Direction::RIGHT);
        } else if self.passage(a, Direction::DOWN) && self.neighbor(a, Direction::DOWN) == b {
            self.lemma_neighbor(a, Direction::DOWN);
        } else {
            self.lemma_neighbor(a, Direction::LEFT);
        }
    }

    /// A grid without passages is symmetric and sealed.
    pub proof fn lemma_blank(self)
        requires
            self.wf(),
            self.blank(),
        ensures
            self.symmetric(),
            self.sealed(),
            forall|p: (usize, usize)| self.contains(p) ==> #[trigger] self.mask(p) == 0,
            forall|p: (usize, usize), d: Direction| !#[trigger] self.passage(p, d),
    {
        assert forall|p: (usize, usize)| self.contains(p) implies #[trigger] self.mask(p) == 0 by {
            self.lemma_index_in_range(p);
        }
        assert forall|p: (usize, usize), d: Direction|
            self.contains(p) implies !#[trigger] has_bit(self.mask(p), d) by {
            lemma_mask_zero(0);
        }
    }

    /// Carving keeps a symmetric grid symmetric and a sealed grid sealed,
    /// and joins the two cells in both directions.
    pub proof fn lemma_carved_symmetric(self, p: (usize, usize), d: Direction)
        requires
            self.wf(),
            self.has_neighbor(p, d),
        ensures
            self.carved(p, d).wf(),
            self.carved(p, d).linked(p, self.neighbor(p, d)),
            self.carved(p, d).linked(self.neighbor(p, d), p),
            self.carved(p, d).travellable(p).contains(self.neighbor(p, d)),
            self.carved(p, d).travellable(self.neighbor(p, d)).contains(p),
            self.symmetric() ==> self.carved(p, d).symmetric(),
            self.sealed() ==> self.carved(p, d).sealed(),
    {
        let q = self.neighbor(p, d);
        let g = self.carved(p, d);
        self.lemma_neighbor(p, d);
        self.lemma_carved(p, d, p, d);
        self.lemma_carved(p, d, q, d.opposite());
        assert(g.passage(p, d));
        assert(g.passage(q, d.opposite()));
        assert(g.neighbor(q, d.opposite()) == p);
        g.lemma_linked_is_travellable(p, q);
        g.lemma_linked_is_travellable(q, p);
        if self.symmetric() {
            assert forall|a: (usize, usize), e: Direction| #[trigger] g.passage(a, e) implies has_bit(
                g.mask(g.neighbor(a, e)),
                e.opposite(),
            ) by {
                self.lemma_carved(p, d, a, e);
                self.lemma_neighbor(a, e);
                self.lemma_carved(p, d, self.neighbor(a, e), e.opposite());
                if self.passage(a, e) {
                    assert(has_bit(self.mask(self.neighbor(a, e)), e.opposite()));
                }
            }
        }
        if self.sealed() {
            assert forall|a: (usize, usize), e: Direction|
                g.contains(a) && #[trigger] has_bit(g.mask(a), e) implies g.has_neighbor(a, e) by {
                self.lemma_carved(p, d, a, e);
                if has_bit(self.mask(a), e) {
                    assert(self.has_neighbor(a, e));
                }
            }
        }
    }
}

} // verus!

