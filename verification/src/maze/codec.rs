//! The binary form of a maze: the width in two bytes, the high byte first,
//! then the cells, two to a byte, the first of a pair in the high half.
use vstd::prelude::*;

use crate::maze::grid::Grid;
use crate::maze::{Maze, MazeError};

verus! {

/// Two cells in one byte.
pub open spec fn pack(high: u8, low: u8) -> u8 {
    (high * 16 + low) as u8
}

/// The `i`-th cell, or zero past the last cell.
pub open spec fn cell_or_zero(cells: Seq<u8>, i: int) -> u8 {
    if 0 <= i < cells.len() {
        cells[i]
    } else {
        0
    }
}

/// The bytes of a grid. An odd number of cells leaves the low half of the
/// last byte zero.
pub open spec fn encode(g: Grid) -> Seq<u8> {
    seq![(g.width / 256) as u8, (g.width % 256) as u8] + Seq::new(
        (g.cells.len() + 1) / 2,
        |k: int| pack(g.cells[2 * k], cell_or_zero(g.cells, 2 * k + 1)),
    )
}

/// The width that the first two bytes hold.
pub open spec fn encoded_width(bytes: Seq<u8>) -> nat {
    (bytes[0] * 256 + bytes[1]) as nat
}

/// The number of cells that the bytes hold: two for each byte after the
/// width, but one less if the low half of the last byte is zero. A maze with
/// an even number of cells whose last cell has no passage therefore loses
/// that cell.
pub open spec fn encoded_cells(bytes: Seq<u8>) -> nat {
    let halves = 2 * (bytes.len() - 2);
    if bytes.last() % 16 == 0 {
        (halves - 1) as nat
    } else {
        halves as nat
    }
}

/// The `i`-th cell that the bytes hold.
pub open spec fn encoded_cell(bytes: Seq<u8>, i: int) -> u8 {
    let byte = bytes[2 + i / 2];
    if i % 2 == 0 {
        byte / 16
    } else {
        byte % 16
    }
}

/// The grid that the bytes encode. There is none if fewer than three bytes
/// are given, if the width is zero, or if the cells do not fill whole rows.
pub open spec fn decode(bytes: Seq<u8>) -> Option<Grid> {
    if bytes.len() < 3 || encoded_width(bytes) == 0 || encoded_cells(bytes) % encoded_width(bytes)
        != 0 {
        None
    } else {
        Some(
            Grid {
                width: encoded_width(bytes),
                height: encoded_cells(bytes) / encoded_width(bytes),
                cells: Seq::new(encoded_cells(bytes), |i: int| encoded_cell(bytes, i)),
            },
        )
    }
}

/// Writes a maze as bytes.
pub fn encode_maze(maze: &Maze) -> (data: Vec<u8>)
    requires
        maze.wf(),
    ensures
        data@ == encode(maze@),
{
    let mut data: Vec<u8> = Vec::new();
    let width = maze.width;
    data.push((width / 256) as u8);
    data.push((width % 256) as u8);
    let count = maze.cells.len();
    let pairs = count / 2 + count % 2;
    let mut k: usize = 0;
    while k < pairs
        invariant
            maze.wf(),
            count == maze.cells.len(),
            pairs == (count + 1) / 2,
            k <= pairs,
            data@.len() == 2 + k,
            data@[0] == (maze@.width / 256) as u8,
            data@[1] == (maze@.width % 256) as u8,
            forall|i: int|
                2 <= i < 2 + k ==> #[trigger] data@[i] == pack(
                    maze@.cells[2 * (i - 2)],
                    cell_or_zero(maze@.cells, 2 * (i - 2) + 1),
                ),
        decreases pairs - k,
    {
        let high = maze.cells[2 * k];
        let low = if 2 * k + 1 < count {
            maze.cells[2 * k + 1]
        } else {
            0
        };
        assert(high <= 0x0F && low <= 0x0F ==> (high << 4 | low) == (high * 16 + low) as u8)
            by (bit_vector);
        data.push(high << 4 | low);
        k += 1;
    }
    assert(data@ =~= encode(maze@));
    data
}

/// Reads a maze from bytes.
pub fn decode_maze(data: &[u8]) -> (r: Result<Maze, MazeError>)
    ensures
        r matches Ok(maze) ==> maze.wf() && decode(data@) == Some(maze@),
        r matches Err(e) ==> e == MazeError::MalformedEncoding && decode(data@) is None,
{
    if data.len() < 3 {
        return Err(MazeError::MalformedEncoding);
    }
    let width = data[0] as usize * 256 + data[1] as usize;
    if width == 0 {
        return Err(MazeError::MalformedEncoding);
    }
    let mut cells: Vec<u8> = Vec::new();
    let mut i: usize = 2;
    while i < data.len()
        invariant
            2 <= i <= data.len(),
            cells@.len() == 2 * (i - 2),
            forall|j: int| 0 <= j < cells@.len() ==> #[trigger] cells@[j] == encoded_cell(data@, j),
        decreases data.len() - i,
    {
        let byte = data[i];
        assert(byte >> 4 == byte / 16 && byte & 0x0f == byte % 16) by (bit_vector);
        cells.push(byte >> 4);
        cells.push(byte & 0x0f);
        i += 1;
    }
    let last = data[data.len() - 1];
    assert(last & 0x0f == last % 16) by (bit_vector);
    if last & 0x0f == 0 {
        cells.pop();
    }
    let count = cells.len();
    assert(count == encoded_cells(data@));
    if count % width != 0 {
        return Err(MazeError::MalformedEncoding);
    }
    let height = count / width;
    proof {
        vstd::arithmetic::div_mod::lemma_fundamental_div_mod(count as int, width as int);
        assert(height >= 1) by (nonlinear_arith)
            requires
                count == width * height,
                count >= 1,
                width >= 1,
        ;
        assert forall|j: int| 0 <= j < cells@.len() implies #[trigger] cells@[j] <= 0x0F by {
            let byte = data@[2 + j / 2];
            assert(byte / 16 <= 0x0F && byte % 16 <= 0x0F);
        }
        assert(cells@ =~= Seq::new(encoded_cells(data@), |i: int| encoded_cell(data@, i)));
    }
    Ok(Maze { width, height, cells })
}

/// Encoding and then decoding gives the grid back, unless the grid has an
/// even number of cells and its last cell has no passage.
pub proof fn lemma_decode_encode(g: Grid)
    requires
        g.wf(),
        g.cells.len() % 2 == 1 || g.cells.last() != 0,
    ensures
        decode(encode(g)) == Some(g),
{
    lemma_encode_shape(g);
    let bytes = encode(g);
    let n = g.cells.len() as int;
    let w = g.width as int;
    assert(encoded_cells(bytes) == n);
    lemma_whole_rows(g);
    let d = decode(bytes).unwrap();
    assert(d.cells =~= g.cells);
}

/// A grid with an even number of cells whose last cell has no passage does
/// not come back: decoding drops the last cell. What remains fills whole
/// rows only if the grid is one cell wide, and then the result is the grid
/// without its last row; otherwise there is no result.
pub proof fn lemma_decode_encode_drops_blank_cell(g: Grid)
    requires
        g.wf(),
        g.cells.len() % 2 == 0,
        g.cells.last() == 0,
    ensures
        g.width == 1 ==> decode(encode(g)) == Some(
            Grid { width: 1, height: (g.height - 1) as nat, cells: g.cells.drop_last() },
        ),
        g.width > 1 ==> decode(encode(g)) is None,
{
    lemma_encode_shape(g);
    let bytes = encode(g);
    let n = g.cells.len() as int;
    let w = g.width as int;
    let h = g.height as int;
    assert(encoded_cells(bytes) == n - 1);
    lemma_whole_rows(g);
    if w == 1 {
        assert(n == h) by (nonlinear_arith)
            requires
                n == w * h,
                w == 1,
        ;
        let d = decode(bytes).unwrap();
        assert(d.cells =~= g.cells.drop_last());
    } else {
        assert((n - 1) % w != 0) by {
            if (n - 1) % w == 0 {
                vstd::arithmetic::div_mod::lemma_fundamental_div_mod(n - 1, w);
                let q = (n - 1) / w;
                assert(w * (h - q) == 1) by (nonlinear_arith)
                    requires
                        n == w * h,
                        n - 1 == w * q,
                ;
                assert(false) by (nonlinear_arith)
                    requires
                        w * (h - q) == 1,
                        w > 1,
                ;
            }
        }
    }
}

/// The bytes of a grid give its width and, cell by cell, its cells.
proof fn lemma_encode_shape(g: Grid)
    requires
        g.wf(),
    ensures
        encode(g).len() == 2 + (g.cells.len() + 1) / 2,
        encode(g).len() >= 3,
        encoded_width(encode(g)) == g.width,
        encode(g).last() % 16 == cell_or_zero(g.cells, 2 * ((g.cells.len() + 1) / 2 - 1) + 1),
        forall|i: int| 0 <= i < g.cells.len() ==> #[trigger] encoded_cell(encode(g), i) == g.cells[i],
{
    let bytes = encode(g);
    let w = g.width as int;
    let n = g.cells.len() as int;
    assert(n >= 1) by (nonlinear_arith)
        requires
            n == g.width * g.height,
            g.width >= 1,
            g.height >= 1,
    ;
    assert(bytes[0] == (w / 256) as u8);
    assert(bytes[1] == (w % 256) as u8);
    assert forall|k: int| 0 <= k < (n + 1) / 2 implies #[trigger] bytes[2 + k] / 16 == g.cells[2
        * k] && bytes[2 + k] % 16 == cell_or_zero(g.cells, 2 * k + 1) by {
        let high = g.cells[2 * k];
        let low = cell_or_zero(g.cells, 2 * k + 1);
        assert(bytes[2 + k] == pack(high, low));
        assert(high <= 0x0F);
        assert(low <= 0x0F);
    }
    let k_last = (n + 1) / 2 - 1;
    assert(bytes.last() == bytes[2 + k_last]);
    assert forall|i: int| 0 <= i < n implies #[trigger] encoded_cell(bytes, i) == g.cells[i] by {
        let k = i / 2;
        assert(bytes[2 + k] / 16 == g.cells[2 * k]);
    }
}

/// The cells of a grid fill whole rows.
proof fn lemma_whole_rows(g: Grid)
    requires
        g.wf(),
    ensures
        g.cells.len() % g.width == 0,
        g.cells.len() / g.width == g.height,
{
    let w = g.width as int;
    let h = g.height as int;
    assert(w * h == h * w + 0) by (nonlinear_arith);
    vstd::arithmetic::div_mod::lemma_fundamental_div_mod_converse(w * h, w, h, 0);
}

} // verus!
