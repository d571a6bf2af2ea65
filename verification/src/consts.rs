//! Defaults of the engine and the size at which a cell is shown.
use vstd::prelude::*;

verus! {

/// The width of a maze for which no width is given.
pub const DEFAULT_MAZE_WIDTH: u16 = 32;

/// The height of a maze for which no height is given.
pub const DEFAULT_MAZE_HEIGHT: u16 = 32;

/// The edge, in pixels, that a view of an average maze aims at.
pub const PREFERRED_SCREEN_SIZE: usize = 512;

/// The thickness of a wall, in pixels.
pub const WALL_WIDTH: usize = 1;

/// The edge of a cell, in pixels, before any maze has been measured.
pub const DEFAULT_CELL_SIZE: usize = 16;

/// No cell is shown smaller than this.
pub const MIN_CELL_SIZE: usize = 5;

/// The edge of a cell for a maze of the given bounds: the preferred screen
/// size divided by the mean of width and height, and never under the minimum.
pub open spec fn cell_size_for(bounds: (usize, usize)) -> int {
    let average = (bounds.0 + bounds.1) / 2;
    let size = PREFERRED_SCREEN_SIZE as int / average;
    if size < MIN_CELL_SIZE as int {
        MIN_CELL_SIZE as int
    } else {
        size
    }
}

/// Computes the cell size for a maze of the given bounds. The mean of the
/// two bounds must not be zero.
pub fn update_cell_size(bounds: &(usize, usize)) -> (size: usize)
    requires
        bounds.0 + bounds.1 >= 2,
    ensures
        size == cell_size_for(*bounds),
        MIN_CELL_SIZE <= size <= PREFERRED_SCREEN_SIZE,
{
    let average_size = bounds.0 / 2 + bounds.1 / 2 + (bounds.0 % 2 + bounds.1 % 2) / 2;
    assert(average_size == (bounds.0 + bounds.1) / 2);
    let size = PREFERRED_SCREEN_SIZE / average_size;
    assert(size <= PREFERRED_SCREEN_SIZE) by {
        vstd::arithmetic::div_mod::lemma_div_is_ordered_by_denominator(
            PREFERRED_SCREEN_SIZE as int,
            1,
            average_size as int,
        );
    }
    if size < MIN_CELL_SIZE {
        MIN_CELL_SIZE
    } else {
        size
    }
}

} // verus!
