//! Row-major grids: how a buffer of `rows x cols` cells is indexed, how a size
//! is rounded up to whole tiles, and how a rectangle is cut out of a buffer.
use vstd::arithmetic::div_mod::{lemma_fundamental_div_mod, lemma_fundamental_div_mod_converse};
use vstd::prelude::*;

verus! {

/// Position of cell `(r, c)` in a row-major buffer `cols` wide.
pub open spec fn at(r: int, c: int, cols: int) -> int {
    r * cols + c
}

/// A cell of the grid lies inside the buffer, and its position determines its
/// row and column.
pub proof fn lemma_at(r: int, c: int, rows: int, cols: int)
    requires
        0 <= r < rows,
        0 <= c < cols,
    ensures
        0 <= at(r, c, cols) < rows * cols,
        r * cols + cols <= rows * cols,
        at(r, c, cols) / cols == r,
        at(r, c, cols) % cols == c,
{
    assert(r * cols + cols <= rows * cols) by (nonlinear_arith)
        requires
            0 <= r < rows,
            0 < cols,
    ;
    assert(0 <= r * cols) by (nonlinear_arith)
        requires
            0 <= r,
            0 < cols,
    ;
    lemma_fundamental_div_mod_converse(at(r, c, cols), cols, r, c);
}

/// Every position of a buffer is some cell of its grid.
pub proof fn lemma_cell_of(i: int, cols: int)
    requires
        0 <= i,
        0 < cols,
    ensures
        0 <= i / cols,
        0 <= i % cols < cols,
        i == at(i / cols, i % cols, cols),
{
    lemma_fundamental_div_mod(i, cols);
    assert(0 <= i / cols) by (nonlinear_arith)
        requires
            0 <= i,
            0 < cols,
    ;
    assert(cols * (i / cols) == (i / cols) * cols) by (nonlinear_arith);
}

/// The row of a position inside a buffer of `rows` rows.
pub proof fn lemma_row_bound(i: int, rows: int, cols: int)
    requires
        0 <= i < rows * cols,
        0 < cols,
    ensures
        0 <= i / cols < rows,
{
    lemma_cell_of(i, cols);
    assert(i / cols < rows) by (nonlinear_arith)
        requires
            i < rows * cols,
            0 < cols,
            i == (i / cols) * cols + i % cols,
            0 <= i % cols,
    ;
}

/// How many tiles of `tile` cells it takes to hold `n` cells, one at least.
pub open spec fn tile_count(n: int, tile: int) -> int {
    if n <= 0 {
        1
    } else {
        (n - 1) / tile + 1
    }
}

/// `n` rounded up to whole tiles, one at least.
pub open spec fn tiles_up(n: int, tile: int) -> int {
    tile_count(n, tile) * tile
}

/// Rounding up to tiles gives the least positive multiple of the tile size
/// that holds `n` cells.
pub proof fn law_tiles_up(n: int, tile: int)
    requires
        0 <= n,
        0 < tile,
    ensures
        tiles_up(n, tile) % tile == 0,
        tiles_up(n, tile) >= tile,
        n <= tiles_up(n, tile),
        tiles_up(n, tile) == tile || tiles_up(n, tile) - tile < n,
{
    let k = tile_count(n, tile);
    assert((k * tile) % tile == 0) by {
        lemma_fundamental_div_mod_converse(k * tile, tile, k, 0);
    }
    if n > 0 {
        lemma_cell_of(n - 1, tile);
        assert(k * tile == ((n - 1) / tile) * tile + tile) by (nonlinear_arith)
            requires
                k == (n - 1) / tile + 1,
        ;
        assert(0 <= ((n - 1) / tile) * tile) by (nonlinear_arith)
            requires
                0 <= (n - 1) / tile,
                0 < tile,
        ;
    } else {
        assert(1 * tile == tile);
    }
}

/// The quotient rounded up.
pub fn div_ceil(a: usize, b: usize) -> (q: usize)
    requires
        b > 0,
    ensures
        q == if a == 0 { 0 } else { (a - 1) / (b as int) + 1 },
        a > 0 ==> q > 0,
{
    if a == 0 {
        0
    } else {
        let q: usize = (a - 1) / b;
        assert(q <= a - 1) by (nonlinear_arith)
            requires
                q == (a - 1) / (b as int),
                b > 0,
                a > 0,
        ;
        q + 1
    }
}

/// A size rounded up to whole tiles, one at least.
pub fn round_to_tiles(n: usize, tile: usize) -> (m: usize)
    requires
        tile > 0,
        tiles_up(n as int, tile as int) <= usize::MAX,
    ensures
        m == tiles_up(n as int, tile as int),
{
    let count = div_ceil(n, tile);
    let count = if count == 0 { 1 } else { count };
    count * tile
}

/// The rectangle of `rows x cols` cells whose corner is `(pad, pad)`, cut out
/// of a buffer `buf_cols` wide.
pub open spec fn cropped<T>(buf: Seq<T>, buf_cols: int, pad: int, rows: int, cols: int) -> Seq<T> {
    Seq::new(
        (rows * cols) as nat,
        |i: int| buf[at(i / cols + pad, i % cols + pad, buf_cols)],
    )
}

/// Whether the rectangle lies inside the buffer.
pub open spec fn crop_fits(len: int, buf_cols: int, pad: int, rows: int, cols: int) -> bool {
    forall|r: int|
        0 <= r < rows ==> #[trigger] at(r + pad, pad, buf_cols) + cols <= len
}

/// The rectangle of `rows x cols` cells whose corner is `(pad, pad)`.
pub fn crop<T: Copy>(buf: &[T], buf_cols: usize, pad: usize, rows: usize, cols: usize) -> (out: Vec<T>)
    requires
        crop_fits(buf@.len() as int, buf_cols as int, pad as int, rows as int, cols as int),
        rows * cols <= usize::MAX,
        rows + pad <= usize::MAX,
    ensures
        out@ == cropped(buf@, buf_cols as int, pad as int, rows as int, cols as int),
{
    let mut out: Vec<T> = Vec::new();
    let mut r: usize = 0;
    let len: usize = buf.len();
    proof {
        assert(0 * cols == 0) by (nonlinear_arith);
    }
    while r < rows
        invariant
            crop_fits(buf@.len() as int, buf_cols as int, pad as int, rows as int, cols as int),
            rows + pad <= usize::MAX,
            len == buf@.len(),
            r <= rows,
            out@.len() == r * cols,
            forall|i: int|
                0 <= i < out@.len() ==> #[trigger] out@[i] == buf@[at(
                    i / (cols as int) + pad,
                    i % (cols as int) + pad,
                    buf_cols as int,
                )],
        decreases rows - r,
    {
        assert(at(r + pad, pad as int, buf_cols as int) + cols <= buf@.len());
        let ghost row = r as int;
        assert((row + pad) * buf_cols >= 0) by (nonlinear_arith)
            requires
                row >= 0,
                pad >= 0,
                buf_cols >= 0,
        ;
        let start: usize = (r + pad) * buf_cols + pad;
        let mut c: usize = 0;
        while c < cols
            invariant
                c <= cols,
                len == buf@.len(),
                row == r,
                start == at(row + pad, pad as int, buf_cols as int),
                start + cols <= buf@.len(),
                out@.len() == row * cols + c,
                forall|i: int|
                    0 <= i < out@.len() ==> #[trigger] out@[i] == buf@[at(
                        i / (cols as int) + pad,
                        i % (cols as int) + pad,
                        buf_cols as int,
                    )],
            decreases cols - c,
        {
            proof {
                lemma_at(row, c as int, row + 1, cols as int);
            }
            out.push(buf[start + c]);
            c += 1;
        }
        assert(row * cols + cols == (row + 1) * cols) by (nonlinear_arith);
        r += 1;
    }
    assert(out@ =~= cropped(buf@, buf_cols as int, pad as int, rows as int, cols as int));
    out
}

/// A rectangle strictly inside a full buffer can be cut out of it.
pub proof fn lemma_crop_fits(len: int, buf_rows: int, buf_cols: int, pad: int, rows: int, cols: int)
    requires
        0 <= pad,
        0 <= cols,
        rows + pad <= buf_rows,
        cols + pad <= buf_cols,
        buf_rows * buf_cols <= len,
    ensures
        crop_fits(len, buf_cols, pad, rows, cols),
{
    assert forall|r: int| 0 <= r < rows implies #[trigger] at(r + pad, pad, buf_cols) + cols <= len by {
        assert((r + pad) * buf_cols + buf_cols <= buf_rows * buf_cols) by (nonlinear_arith)
            requires
                r + pad + 1 <= buf_rows,
                0 <= buf_cols,
        ;
    }
}

/// A cut-out shows the cell that lies `pad` rows and `pad` columns farther in.
pub proof fn law_crop_shifts<T>(buf: Seq<T>, buf_cols: int, pad: int, rows: int, cols: int, r: int, c: int)
    requires
        0 <= r < rows,
        0 <= c < cols,
    ensures
        cropped(buf, buf_cols, pad, rows, cols).len() == rows * cols,
        cropped(buf, buf_cols, pad, rows, cols)[r * cols + c] == buf[(r + pad) * buf_cols + (c
            + pad)],
{
    lemma_at(r, c, rows, cols);
    let i = at(r, c, cols);
    assert(cropped(buf, buf_cols, pad, rows, cols)[i] == buf[at(r + pad, c + pad, buf_cols)]);
}

/// A cell is followed by the next one of its row, and a row by the next one: the
/// cells of a grid come one after the other, without a gap.
pub proof fn law_cells_in_order(r: int, c: int, cols: int)
    ensures
        at(0, 0, cols) == 0,
        at(r, c + 1, cols) == at(r, c, cols) + 1,
        at(r + 1, 0, cols) == at(r, cols - 1, cols) + 1,
        at(r, c, cols) == r * cols + c,
{
    assert(0 * cols == 0);
    assert((r + 1) * cols == r * cols + cols) by (nonlinear_arith);
}

/// A quotient that is rounded up is the least one that is enough.
pub proof fn law_quotient_rounds_up(a: usize, b: usize, q: usize, n: int)
    requires
        b > 0,
        call_ensures(div_ceil, (a, b), q),
    ensures
        q * b >= a,
        n * b >= a && n >= 0 ==> n >= q,
{
    if a > 0 {
        let k = (a - 1) / (b as int);
        lemma_fundamental_div_mod(a - 1, b as int);
        assert((k + 1) * b >= a && (n * b >= a ==> n >= k + 1)) by (nonlinear_arith)
            requires
                a - 1 == b * k + (a - 1) % (b as int),
                0 <= (a - 1) % (b as int) < b,
                b > 0,
        ;
    } else {
        assert(0 * b == 0) by (nonlinear_arith);
    }
}

} // verus!
