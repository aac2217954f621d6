//! One generation of a torus, and random worlds to start from.
use crate::grid::{at, lemma_at, lemma_cell_of, lemma_row_bound};
use crate::life::layout::lemma_same_place;
use crate::parallel::par_map;
use crate::random::{advance, draw32, high32, state_after};
use vstd::prelude::*;

verus! {

/// The cell `(dr, dc)` away from `(r, c)` on the torus.
pub open spec fn near(cells: Seq<u8>, rows: int, cols: int, r: int, c: int, dr: int, dc: int) -> u8 {
    cells[at((r + dr) % rows, (c + dc) % cols, cols)]
}

/// How many cells are alive in the 3x3 block around `(r, c)`, itself included.
pub open spec fn crowd(cells: Seq<u8>, rows: int, cols: int, r: int, c: int) -> int {
    near(cells, rows, cols, r, c, -1, -1) + near(cells, rows, cols, r, c, -1, 0) + near(
        cells,
        rows,
        cols,
        r,
        c,
        -1,
        1,
    ) + near(cells, rows, cols, r, c, 0, -1) + near(cells, rows, cols, r, c, 0, 0) + near(
        cells,
        rows,
        cols,
        r,
        c,
        0,
        1,
    ) + near(cells, rows, cols, r, c, 1, -1) + near(cells, rows, cols, r, c, 1, 0) + near(
        cells,
        rows,
        cols,
        r,
        c,
        1,
        1,
    )
}

/// What a cell in a crowd becomes: born or surviving in a crowd of three,
/// surviving in a crowd of four.
pub open spec fn becomes(cell: u8, crowd: int) -> u8 {
    if crowd == 3 || (crowd == 4 && cell == 1) {
        1
    } else {
        0
    }
}

/// Cell `i` in the next generation.
pub open spec fn next_at(cells: Seq<u8>, rows: int, cols: int, i: int) -> u8 {
    becomes(cells[i], crowd(cells, rows, cols, i / cols, i % cols))
}

/// The next generation of the first `n` cells.
pub open spec fn next_cells(cells: Seq<u8>, rows: int, cols: int, n: int) -> Seq<u8> {
    Seq::new(n as nat, |i: int| next_at(cells, rows, cols, i))
}

/// Whether every cell is dead (0) or alive (1).
pub open spec fn all_plain(cells: Seq<u8>) -> bool {
    forall|i: int| 0 <= i < cells.len() ==> #[trigger] cells[i] <= 1
}

/// Whether the crowd of every cell can be counted in a byte.
pub open spec fn countable(cells: Seq<u8>, rows: int, cols: int) -> bool {
    forall|r: int, c: int|
        0 <= r < rows && 0 <= c < cols ==> #[trigger] crowd(cells, rows, cols, r, c) <= 255
}

/// Worlds of plain cells can be counted.
pub proof fn lemma_plain_countable(cells: Seq<u8>, rows: int, cols: int)
    requires
        rows > 0,
        cols > 0,
        cells.len() >= rows * cols,
        all_plain(cells),
    ensures
        countable(cells, rows, cols),
        forall|r: int, c: int|
            0 <= r < rows && 0 <= c < cols ==> 0 <= #[trigger] crowd(cells, rows, cols, r, c) <= 9,
{
    assert forall|r: int, c: int| 0 <= r < rows && 0 <= c < cols implies 0 <= #[trigger] crowd(
        cells,
        rows,
        cols,
        r,
        c,
    ) <= 9 by {
        lemma_near(cells, rows, cols, r, c, -1, -1);
        lemma_near(cells, rows, cols, r, c, -1, 0);
        lemma_near(cells, rows, cols, r, c, -1, 1);
        lemma_near(cells, rows, cols, r, c, 0, -1);
        lemma_near(cells, rows, cols, r, c, 0, 0);
        lemma_near(cells, rows, cols, r, c, 0, 1);
        lemma_near(cells, rows, cols, r, c, 1, -1);
        lemma_near(cells, rows, cols, r, c, 1, 0);
        lemma_near(cells, rows, cols, r, c, 1, 1);
    }
}

proof fn lemma_near(cells: Seq<u8>, rows: int, cols: int, r: int, c: int, dr: int, dc: int)
    requires
        rows > 0,
        cols > 0,
        cells.len() >= rows * cols,
        all_plain(cells),
    ensures
        near(cells, rows, cols, r, c, dr, dc) <= 1,
{
    lemma_same_place(r + dr, r + dr, 0, rows);
    lemma_same_place(c + dc, c + dc, 0, cols);
    lemma_at((r + dr) % rows, (c + dc) % cols, rows, cols);
}

/// The row (or column) before, at, and after `x` on a torus.
fn around(x: usize, n: usize) -> (t: (usize, usize))
    requires
        x < n,
        2 * n <= usize::MAX,
    ensures
        t.0 == (x - 1) % (n as int),
        t.1 == (x + 1) % (n as int),
        t.0 < n,
        t.1 < n,
{
    proof {
        lemma_same_place(x + n - 1, x - 1, 1, n as int);
        lemma_same_place(x + 1, x + 1, 0, n as int);
    }
    ((x + n - 1) % n, (x + 1) % n)
}

/// Cell `i` in the next generation.
fn next_cell(cells: &[u8], rows: usize, cols: usize, i: usize) -> (v: u8)
    requires
        0 < rows,
        0 < cols,
        2 * rows <= usize::MAX,
        2 * cols <= usize::MAX,
        cells@.len() >= rows * cols,
        i < rows * cols,
        countable(cells@, rows as int, cols as int),
    ensures
        v == next_at(cells@, rows as int, cols as int, i as int),
{
    let len: usize = cells.len();
    let (r, c): (usize, usize) = (i / cols, i % cols);
    proof {
        lemma_row_bound(i as int, rows as int, cols as int);
        lemma_cell_of(i as int, cols as int);
        lemma_same_place(r as int, r as int, 0, rows as int);
        lemma_same_place(c as int, c as int, 0, cols as int);
        vstd::arithmetic::div_mod::lemma_small_mod(r as nat, rows as nat);
        vstd::arithmetic::div_mod::lemma_small_mod(c as nat, cols as nat);
    }
    let (u, d): (usize, usize) = around(r, rows);
    let (l, rt): (usize, usize) = around(c, cols);
    proof {
        lemma_at(u as int, c as int, rows as int, cols as int);
        lemma_at(u as int, l as int, rows as int, cols as int);
        lemma_at(u as int, rt as int, rows as int, cols as int);
        lemma_at(r as int, l as int, rows as int, cols as int);
        lemma_at(r as int, c as int, rows as int, cols as int);
        lemma_at(r as int, rt as int, rows as int, cols as int);
        lemma_at(d as int, l as int, rows as int, cols as int);
        lemma_at(d as int, c as int, rows as int, cols as int);
        lemma_at(d as int, rt as int, rows as int, cols as int);
        assert(crowd(cells@, rows as int, cols as int, r as int, c as int) <= 255);
    }
    let (up, mid, down): (usize, usize, usize) = (u * cols, r * cols, d * cols);
    let sum: u8 = cells[up + l] + cells[up + c] + cells[up + rt] + cells[mid + l] + cells[mid + c]
        + cells[mid + rt] + cells[down + l] + cells[down + c] + cells[down + rt];
    if sum == 3 || (sum == 4 && cells[mid + c] == 1) {
        1
    } else {
        0
    }
}

/// One generation of a torus, into `next`.
pub fn step(cells: &[u8], next: &mut [u8], rows: usize, cols: usize)
    requires
        0 < rows,
        0 < cols,
        2 * rows <= usize::MAX,
        2 * cols <= usize::MAX,
        cells@.len() >= rows * cols,
        old(next)@.len() <= rows * cols,
        countable(cells@, rows as int, cols as int),
    ensures
        final(next)@ == next_cells(cells@, rows as int, cols as int, old(next)@.len() as int),
{
    let n: usize = next.len();
    let out = par_map(
        n,
        |i: usize| -> (v: u8)
            requires
                n > i,
                n <= rows * cols,
                0 < rows,
                0 < cols,
                2 * rows <= usize::MAX,
                2 * cols <= usize::MAX,
                cells@.len() >= rows * cols,
                countable(cells@, rows as int, cols as int),
            ensures
                v == next_at(cells@, rows as int, cols as int, i as int),
            { next_cell(cells, rows, cols, i) });
    let mut i: usize = 0;
    while i < n
        invariant
            i <= n,
            next@.len() == n,
            out@.len() == n,
            forall|j: usize|
                j < n ==> #[trigger] out@[j as int] == next_at(
                    cells@,
                    rows as int,
                    cols as int,
                    j as int,
                ),
            forall|j: int|
                0 <= j < i ==> #[trigger] next@[j] == next_at(cells@, rows as int, cols as int, j),
        decreases n - i,
    {
        next[i] = out[i];
        i += 1;
    }
    assert(next@ =~= next_cells(cells@, rows as int, cols as int, n as int));
}

/// A random world: cell `i` is alive where the `i + 1`st number drawn is below
/// the threshold.
pub open spec fn soup(n: int, threshold: u32, seed: u64) -> Seq<u8> {
    Seq::new(
        n as nat,
        |i: int|
            if high32(state_after(seed | 1, (i + 1) as nat)) < threshold {
                1u8
            } else {
                0u8
            },
    )
}

/// Random soup: a share of `threshold` in `2^32` of the cells alive, roughly.
pub fn random_soup(rows: usize, cols: usize, threshold: u32, seed: u64) -> (cells: Vec<u8>)
    requires
        rows * cols <= usize::MAX,
    ensures
        cells@ == soup(rows * cols, threshold, seed),
        all_plain(cells@),
{
    let n: usize = rows * cols;
    let mut x: u64 = seed | 1;
    let ghost start = x;
    let mut cells: Vec<u8> = Vec::with_capacity(n);
    let mut i: usize = 0;
    while i < n
        invariant
            i <= n,
            n == rows * cols,
            start == seed | 1,
            x == state_after(start, i as nat),
            cells@.len() == i,
            forall|j: int| 0 <= j < i ==> #[trigger] cells@[j] == soup(n as int, threshold, seed)[j],
        decreases n - i,
    {
        x = advance(x);
        assert(x == state_after(start, (i + 1) as nat));
        cells.push(
            if draw32(x) < threshold {
                1
            } else {
                0
            },
        );
        i += 1;
    }
    assert(cells@ =~= soup(rows * cols, threshold, seed));
    cells
}

/// The rule is Conway's: with `n` living neighbors, a living cell survives if
/// `n` is two or three, and a dead one is born if `n` is three.
pub proof fn law_conway(cell: u8, n: int)
    requires
        cell <= 1,
        0 <= n <= 8,
    ensures
        becomes(cell, n + cell) == 1 <==> n == 3 || (n == 2 && cell == 1),
        becomes(cell, n + cell) <= 1,
{
}

/// Generations of plain cells stay plain, and as many.
pub proof fn law_plain_stays_plain(cells: Seq<u8>, rows: int, cols: int)
    requires
        rows >= 0,
        cols >= 0,
    ensures
        all_plain(next_cells(cells, rows, cols, rows * cols)),
        next_cells(cells, rows, cols, rows * cols).len() == rows * cols,
{
    assert(0 <= rows * cols) by (nonlinear_arith)
        requires
            rows >= 0,
            cols >= 0,
    ;
}

/// The next generation, cell by cell: of the eight cells around a cell, over the
/// edges of the world where need be, three or two must be alive for it to live on,
/// and three for it to be born.
pub proof fn law_next_generation(cells: Seq<u8>, rows: int, cols: int, r: int, c: int)
    requires
        cells.len() == rows * cols,
        all_plain(cells),
        0 <= r < rows,
        0 <= c < cols,
    ensures
        ({
            let (up, down) = (
                if r == 0 {
                    rows - 1
                } else {
                    r - 1
                },
                if r == rows - 1 {
                    0
                } else {
                    r + 1
                },
            );
            let (left, right) = (
                if c == 0 {
                    cols - 1
                } else {
                    c - 1
                },
                if c == cols - 1 {
                    0
                } else {
                    c + 1
                },
            );
            let cell = |y: int, x: int| cells[y * cols + x];
            let n = cell(up, left) + cell(up, c) + cell(up, right) + cell(r, left) + cell(r, right)
                + cell(down, left) + cell(down, c) + cell(down, right);
            next_cells(cells, rows, cols, rows * cols)[r * cols + c] == (if n == 3 || (n == 2
                && cell(r, c) == 1) {
                1u8
            } else {
                0u8
            })
        }),
{
    lemma_at(r, c, rows, cols);
    lemma_plain_countable(cells, rows, cols);
    lemma_beside(r, rows);
    lemma_beside(c, cols);
    assert(cells[at(r, c, cols)] <= 1);
    assert(next_cells(cells, rows, cols, rows * cols)[at(r, c, cols)] == next_at(
        cells,
        rows,
        cols,
        at(r, c, cols),
    ));
}

proof fn lemma_beside(x: int, n: int)
    requires
        0 <= x < n,
    ensures
        (x + 0) % n == x,
        (x + -1) % n == (if x == 0 {
            n - 1
        } else {
            x - 1
        }),
        (x + 1) % n == (if x == n - 1 {
            0
        } else {
            x + 1
        }),
{
    lemma_same_place(n - 1, -1, 1, n);
    lemma_same_place(n, 0, 1, n);
    vstd::arithmetic::div_mod::lemma_small_mod(x as nat, n as nat);
    vstd::arithmetic::div_mod::lemma_small_mod((n - 1) as nat, n as nat);
    vstd::arithmetic::div_mod::lemma_small_mod(0, n as nat);
    if x > 0 {
        vstd::arithmetic::div_mod::lemma_small_mod((x - 1) as nat, n as nat);
    }
    if x < n - 1 {
        vstd::arithmetic::div_mod::lemma_small_mod((x + 1) as nat, n as nat);
    }
}

/// A soup asks its generator once for every cell, in order, starting after the seed
/// with its low bit set. A cell lives if its number is below the threshold, so
/// raising the threshold kills no cell.
pub proof fn law_soup_draws_in_order(n: int, threshold: u32, more: u32, seed: u64, i: int)
    requires
        0 <= i < n,
        threshold <= more,
    ensures
        soup(n, threshold, seed).len() == n,
        soup(n, threshold, seed)[i] == 1 <==> high32(state_after(seed | 1, (i + 1) as nat))
            < threshold,
        soup(n, threshold, seed)[i] <= soup(n, more, seed)[i] <= 1,
        soup(n, 0, seed)[i] == 0,
        soup(i + 1, threshold, seed)[i] == soup(n, threshold, seed)[i],
{
}

/// A generation is computed as is said of it here, and leaves the world that it reads alone.
pub proof fn law_generation_is_computed(cells: &[u8], next: &mut [u8], rows: usize, cols: usize)
    requires
        call_ensures(step, (cells, next, rows, cols), ()),
        old(next)@.len() == rows * cols,
    ensures
        final(next)@ == next_cells(cells@, rows as int, cols as int, rows * cols),
{
}

} // verus!
