//! Reading a buffer through shifted views, one tile at a time.
//!
//! A tile kernel loads whole tiles at whole block indices. To read cells some
//! way off, it loads from a view of the buffer that starts a few rows and
//! columns in. Where a tile sticks out of its view it is padded.
use crate::grid::{at, lemma_at};
use vstd::prelude::*;

verus! {

/// What is at row `a`, column `b` of block `(i, j)` in a view of `src` that
/// starts at `(dr, dc)`; `pad` where the tile sticks out.
pub open spec fn view_at<T>(
    src: Seq<T>,
    rows: int,
    cols: int,
    tile: int,
    dr: int,
    dc: int,
    i: int,
    j: int,
    a: int,
    b: int,
    pad: T,
) -> T {
    let (r, c) = (i * tile + a + dr, j * tile + b + dc);
    if r < rows && c < cols {
        src[at(r, c, cols)]
    } else {
        pad
    }
}

/// One element of a tile of a shifted view.
pub fn load<T: Copy>(
    src: &[T],
    rows: usize,
    cols: usize,
    tile: usize,
    dr: usize,
    dc: usize,
    i: usize,
    j: usize,
    a: usize,
    b: usize,
    pad: T,
) -> (v: T)
    requires
        src@.len() == rows * cols,
        i * tile + a + dr <= usize::MAX,
        j * tile + b + dc <= usize::MAX,
    ensures
        v == view_at(
            src@,
            rows as int,
            cols as int,
            tile as int,
            dr as int,
            dc as int,
            i as int,
            j as int,
            a as int,
            b as int,
            pad,
        ),
{
    let len: usize = src.len();
    assert(0 <= i * tile && 0 <= j * tile) by (nonlinear_arith);
    let (r, c): (usize, usize) = (i * tile + a + dr, j * tile + b + dc);
    if r < rows && c < cols {
        proof {
            lemma_at(r as int, c as int, rows as int, cols as int);
        }
        src[r * cols + c]
    } else {
        pad
    }
}

/// A shifted view shows what lies `dr` rows and `dc` columns farther on, as if the
/// buffer went on with padding beyond its right and lower edges: where in a tile a
/// cell is does not matter.
pub proof fn law_view_shifts<T>(
    src: Seq<T>,
    rows: int,
    cols: int,
    tile: int,
    dr: int,
    dc: int,
    i: int,
    j: int,
    a: int,
    b: int,
    pad: T,
)
    ensures
        ({
            let (r, c) = (i * tile + a + dr, j * tile + b + dc);
            let v = view_at(src, rows, cols, tile, dr, dc, i, j, a, b, pad);
            &&& r < rows && c < cols ==> v == src[r * cols + c]
            &&& r >= rows || c >= cols ==> v == pad
        }),
{
}

} // verus!
