//! World geometry: the torus in a buffer with one ring of ghost tiles.
use crate::grid::{
    at, crop, crop_fits, cropped, lemma_at, lemma_cell_of, lemma_crop_fits, lemma_row_bound,
    round_to_tiles, tiles_up,
};
use vstd::arithmetic::div_mod::lemma_small_mod;
use vstd::prelude::*;

verus! {

/// Cells live in a padded buffer with one ring of ghost tiles, so cell
/// `(r, c)` is at buffer place `(tile + r, tile + c)`.
#[derive(Clone, Copy)]
pub struct Layout {
    pub tile: usize,
    pub rows: usize,
    pub cols: usize,
}

impl Layout {
    /// Rows of a buffer, ghost ring included.
    pub open spec fn height(self) -> int {
        self.rows + 2 * self.tile
    }

    /// Columns of a buffer, ghost ring included.
    pub open spec fn width(self) -> int {
        self.cols + 2 * self.tile
    }

    /// Cells of a buffer.
    pub open spec fn size(self) -> int {
        self.height() * self.width()
    }

    /// Whether a buffer can be held in memory, with room to step around it.
    pub open spec fn fits(self) -> bool {
        &&& self.size() <= usize::MAX
        &&& self.height() + self.rows <= usize::MAX
        &&& self.width() + self.cols <= usize::MAX
    }

    /// The layout of a world of at least `height` by `width` cells.
    pub fn new(height: usize, width: usize, tile: usize) -> (lay: Layout)
        requires
            tile > 0,
            tiles_up(height as int, tile as int) <= usize::MAX,
            tiles_up(width as int, tile as int) <= usize::MAX,
        ensures
            lay.tile == tile,
            lay.rows == tiles_up(height as int, tile as int),
            lay.cols == tiles_up(width as int, tile as int),
    {
        Layout { tile, rows: round_to_tiles(height, tile), cols: round_to_tiles(width, tile) }
    }

    /// Rows of a buffer, ghost ring included.
    pub fn buf_rows(&self) -> (n: usize)
        requires
            self.height() <= usize::MAX,
        ensures
            n == self.height(),
    {
        self.rows + 2 * self.tile
    }

    /// Columns of a buffer, ghost ring included.
    pub fn buf_cols(&self) -> (n: usize)
        requires
            self.width() <= usize::MAX,
        ensures
            n == self.width(),
    {
        self.cols + 2 * self.tile
    }

    /// Embed `cells` in a padded buffer with ghost tiles filled by wrap-around.
    pub fn pad(&self, cells: &[u8]) -> (buf: Vec<u8>)
        requires
            self.fits(),
            self.rows > 0,
            self.cols > 0,
            cells@.len() >= self.rows * self.cols,
        ensures
            buf@ == padded(*self, cells@),
    {
        let len: usize = cells.len();
        let (br, bc, t): (usize, usize, usize) = (self.buf_rows(), self.buf_cols(), self.tile);
        let n: usize = br * bc;
        let mut buf: Vec<u8> = Vec::with_capacity(n);
        let mut i: usize = 0;
        while i < n
            invariant
                self.fits(),
                self.rows > 0,
                self.cols > 0,
                cells@.len() >= self.rows * self.cols,
                len == cells@.len(),
                br == self.height(),
                bc == self.width(),
                t == self.tile,
                n == br * bc,
                i <= n,
                buf@.len() == i,
                forall|j: int| 0 <= j < i ==> #[trigger] buf@[j] == padded(*self, cells@)[j],
            decreases n - i,
        {
            let (r, c): (usize, usize) = (i / bc, i % bc);
            proof {
                lemma_row_bound(i as int, br as int, bc as int);
                lemma_wrap(r as int, t as int, self.rows as int);
                lemma_wrap(c as int, t as int, self.cols as int);
            }
            let src_r: usize = (r + self.rows - t % self.rows) % self.rows;
            let src_c: usize = (c + self.cols - t % self.cols) % self.cols;
            proof {
                lemma_at(src_r as int, src_c as int, self.rows as int, self.cols as int);
            }
            buf.push(cells[src_r * self.cols + src_c]);
            i += 1;
        }
        assert(buf@ =~= padded(*self, cells@));
        buf
    }

    /// The cells of a padded buffer, without the ghost tiles.
    pub fn unpad(&self, buf: &[u8]) -> (cells: Vec<u8>)
        requires
            self.width() <= usize::MAX,
            self.rows + self.tile <= usize::MAX,
            self.rows * self.cols <= usize::MAX,
            crop_fits(
                buf@.len() as int,
                self.width(),
                self.tile as int,
                self.rows as int,
                self.cols as int,
            ),
        ensures
            cells@ == cropped(
                buf@,
                self.width(),
                self.tile as int,
                self.rows as int,
                self.cols as int,
            ),
    {
        crop(buf, self.buf_cols(), self.tile, self.rows, self.cols)
    }
}

/// The row (or column) of the torus that buffer row `x` shows.
pub open spec fn wrapped(x: int, tile: int, n: int) -> int {
    (x - tile) % n
}

/// A torus in a padded buffer.
pub open spec fn padded(lay: Layout, cells: Seq<u8>) -> Seq<u8> {
    Seq::new(
        lay.size() as nat,
        |i: int|
            cells[at(
                wrapped(i / lay.width(), lay.tile as int, lay.rows as int),
                wrapped(i % lay.width(), lay.tile as int, lay.cols as int),
                lay.cols as int,
            )],
    )
}

/// Wrapping around without negative numbers.
proof fn lemma_wrap(x: int, t: int, n: int)
    requires
        n > 0,
        t >= 0,
    ensures
        0 <= t % n < n,
        (x + n - t % n) % n == wrapped(x, t, n),
        0 <= wrapped(x, t, n) < n,
{
    lemma_same_place(x + n - t % n, x - t, t / n + 1, n);
    assert(t == n * (t / n) + t % n) by (nonlinear_arith)
        requires
            n > 0,
    ;
    assert(x + n - t % n == x - t + (t / n + 1) * n) by (nonlinear_arith)
        requires
            t == n * (t / n) + t % n,
    ;
}

/// Places whole turns apart are the same place of a torus.
pub proof fn lemma_same_place(x: int, y: int, k: int, n: int)
    requires
        n > 0,
    ensures
        x == y + k * n ==> x % n == y % n,
        0 <= y % n < n,
        0 <= x % n < n,
{
    if x == y + k * n {
        lemma_mod_add_multiples(y, k, n);
    }
}

proof fn lemma_mod_add_multiples(y: int, k: int, n: int)
    requires
        n > 0,
    ensures
        (y + k * n) % n == y % n,
{
    vstd::arithmetic::div_mod::lemma_fundamental_div_mod(y, n);
    let q = y / n + k;
    assert(y + k * n == q * n + y % n) by (nonlinear_arith)
        requires
            y == n * (y / n) + y % n,
            q == y / n + k,
    ;
    vstd::arithmetic::div_mod::lemma_fundamental_div_mod_converse(y + k * n, n, q, y % n);
}

/// Cutting the world out of a padded buffer gives back the world that was
/// padded.
pub proof fn law_unpad_undoes_pad(lay: Layout, cells: Seq<u8>)
    requires
        lay.rows > 0,
        lay.cols > 0,
        cells.len() == lay.rows * lay.cols,
    ensures
        crop_fits(
            padded(lay, cells).len() as int,
            lay.width(),
            lay.tile as int,
            lay.rows as int,
            lay.cols as int,
        ),
        cropped(
            padded(lay, cells),
            lay.width(),
            lay.tile as int,
            lay.rows as int,
            lay.cols as int,
        ) == cells,
{
    let (h, w, t) = (lay.height(), lay.width(), lay.tile as int);
    let (rows, cols) = (lay.rows as int, lay.cols as int);
    assert(0 <= h * w) by (nonlinear_arith)
        requires
            0 <= h,
            0 <= w,
    ;
    lemma_crop_fits(padded(lay, cells).len() as int, h, w, t, rows, cols);
    let out = cropped(padded(lay, cells), w, t, rows, cols);
    assert(out =~= cells) by {
        assert forall|i: int| 0 <= i < cells.len() implies out[i] == cells[i] by {
            lemma_cell_of(i, cols);
            lemma_row_bound(i, rows, cols);
            lemma_at(i / cols + t, i % cols + t, h, w);
            lemma_small_mod((i / cols) as nat, rows as nat);
            lemma_small_mod((i % cols) as nat, cols as nat);
        }
    }
}

/// What a padded buffer shows repeats every `rows` rows and `cols` columns: a place
/// that is whole turns away from cell `(r, c)` shows that cell.
pub proof fn law_ghosts_repeat(lay: Layout, cells: Seq<u8>, x: int, y: int, j: int, k: int)
    requires
        lay.rows > 0,
        lay.cols > 0,
        0 <= x < lay.rows + 2 * lay.tile,
        0 <= y < lay.cols + 2 * lay.tile,
        0 <= x - lay.tile + j * lay.rows < lay.rows,
        0 <= y - lay.tile + k * lay.cols < lay.cols,
    ensures
        padded(lay, cells).len() == (lay.rows + 2 * lay.tile) * (lay.cols + 2 * lay.tile),
        padded(lay, cells)[x * (lay.cols + 2 * lay.tile) + y] == cells[(x - lay.tile + j
            * lay.rows) * lay.cols + (y - lay.tile + k * lay.cols)],
{
    let (r, c) = (x - lay.tile + j * lay.rows, y - lay.tile + k * lay.cols);
    lemma_at(x, y, lay.height(), lay.width());
    lemma_same_place(r, x - lay.tile, j, lay.rows as int);
    lemma_same_place(c, y - lay.tile, k, lay.cols as int);
    lemma_small_mod(r as nat, lay.rows as nat);
    lemma_small_mod(c as nat, lay.cols as nat);
    assert(padded(lay, cells)[at(x, y, lay.width())] == cells[at(r, c, lay.cols as int)]);
}

} // verus!
