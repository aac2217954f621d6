//! A generation as the tile kernel computes it, on the padded buffer, and the
//! launches that several generations take.
use crate::grid::{at, div_ceil, lemma_at, lemma_cell_of, lemma_row_bound};
use crate::life::cpu::{all_plain, crowd, lemma_plain_countable, near, next_at, next_cells};
use crate::life::layout::{lemma_same_place, padded, wrapped, Layout};
use crate::parallel::par_map;
use crate::tiles::load;
use vstd::arithmetic::div_mod::{lemma_add_mod_noop, lemma_fundamental_div_mod, lemma_mod_twice};
use vstd::prelude::*;

verus! {

/// Whether a layout is made of whole tiles, and stepping around it is safe.
pub open spec fn is_tiled(lay: Layout) -> bool {
    &&& lay.tile > 0
    &&& lay.rows > 0
    &&& lay.cols > 0
    &&& lay.rows % lay.tile == 0
    &&& lay.cols % lay.tile == 0
    &&& lay.fits()
}

/// The row (or column) a kernel computes for buffer row `x`: ghost tiles
/// compute the tile they mirror on the far side of the torus.
pub open spec fn mirrored(x: int, tile: int, n: int) -> int {
    if x < tile {
        x + n
    } else if x >= n + tile {
        x - n
    } else {
        x
    }
}

/// What is around buffer place `(r, c)`, itself included.
pub open spec fn buffer_crowd(buf: Seq<u8>, w: int, r: int, c: int) -> int {
    buf[at(r - 1, c - 1, w)] + buf[at(r - 1, c, w)] + buf[at(r - 1, c + 1, w)] + buf[at(
        r,
        c - 1,
        w,
    )] + buf[at(r, c, w)] + buf[at(r, c + 1, w)] + buf[at(r + 1, c - 1, w)] + buf[at(r + 1, c, w)]
        + buf[at(r + 1, c + 1, w)]
}

/// What the kernel stores at buffer place `(x, y)`: without branches, one in
/// a crowd of three, the cell itself in a crowd of four, nothing otherwise.
pub open spec fn kernel_cell(lay: Layout, buf: Seq<u8>, x: int, y: int) -> u8 {
    let r = mirrored(x, lay.tile as int, lay.rows as int);
    let c = mirrored(y, lay.tile as int, lay.cols as int);
    let sum = buffer_crowd(buf, lay.width(), r, c);
    if sum == 3 {
        1
    } else if sum == 4 {
        buf[at(r, c, lay.width())]
    } else {
        0
    }
}

/// The padded buffer after a generation.
pub open spec fn kernel_step(lay: Layout, buf: Seq<u8>) -> Seq<u8> {
    Seq::new(
        buf.len(),
        |i: int| kernel_cell(lay, buf, i / lay.width(), i % lay.width()),
    )
}

/// The block a kernel computes for block `p` of `n + 2`.
fn alias(p: usize, n: usize) -> (i: usize)
    requires
        1 <= n < usize::MAX,
        p <= n + 1,
    ensures
        i == (if p == 0 {
            n as int
        } else if p == n + 1 {
            1
        } else {
            p as int
        }),
        1 <= i <= n,
{
    if p == 0 {
        n
    } else if p == n + 1 {
        1
    } else {
        p
    }
}

/// The view and the block to read `d` cells from block `i` through.
fn reach(i: usize, tile: usize, d: i32) -> (r: (usize, usize))
    requires
        -1 <= d <= 1,
        i >= 1,
        tile >= 1,
        i * tile <= usize::MAX,
    ensures
        r.0 + r.1 * tile == i * tile + d,
        r.0 <= tile,
        r.1 <= i,
        r.1 * tile <= i * tile,
{
    assert((i - 1) * tile == i * tile - tile) by (nonlinear_arith);
    if d < 0 {
        (tile - 1, i - 1)
    } else if d == 0 {
        (0, i)
    } else {
        (1, i)
    }
}

/// The cell `(dr, dc)` away from row `a`, column `b` of block `(i, j)`.
fn around(lay: &Layout, buf: &[u8], rows: usize, cols: usize, i: usize, j: usize, a: usize, b: usize, dr: i32, dc: i32) -> (v: u8)
    requires
        is_tiled(*lay),
        buf@.len() == lay.size(),
        rows == lay.height(),
        cols == lay.width(),
        -1 <= dr <= 1,
        -1 <= dc <= 1,
        1 <= i,
        1 <= j,
        a < lay.tile,
        b < lay.tile,
        lay.tile <= i * lay.tile + a < lay.tile + lay.rows,
        lay.tile <= j * lay.tile + b < lay.tile + lay.cols,
    ensures
        v == buf@[at(i * lay.tile + a + dr, j * lay.tile + b + dc, lay.width())],
{
    let t: usize = lay.tile;
    let (sr, br): (usize, usize) = reach(i, t, dr);
    let (sc, bc): (usize, usize) = reach(j, t, dc);
    proof {
        assert(br * t + a + sr == i * t + a + dr);
        assert(bc * t + b + sc == j * t + b + dc);
    }
    load(buf, rows, cols, t, sr, sc, br, bc, a, b, 0)
}

/// What the kernel computes at row `a`, column `b` of an interior block.
fn life_cell(lay: &Layout, buf: &[u8], rows: usize, cols: usize, i: usize, j: usize, a: usize, b: usize) -> (v: u8)
    requires
        is_tiled(*lay),
        buf@.len() == lay.size(),
        all_plain(buf@),
        rows == lay.height(),
        cols == lay.width(),
        1 <= i,
        1 <= j,
        a < lay.tile,
        b < lay.tile,
        lay.tile <= i * lay.tile + a < lay.tile + lay.rows,
        lay.tile <= j * lay.tile + b < lay.tile + lay.cols,
    ensures
        ({
            let (r, c) = (i * lay.tile + a, j * lay.tile + b);
            let sum = buffer_crowd(buf@, lay.width(), r, c);
            v == if sum == 3 {
                1u8
            } else if sum == 4 {
                buf@[at(r, c, lay.width())]
            } else {
                0u8
            }
        }),
{
    let ghost (r, c) = (i * lay.tile + a, j * lay.tile + b);
    proof {
        let (h, w) = (lay.height(), lay.width());
        lemma_at(r - 1, c - 1, h, w);
        lemma_at(r - 1, c, h, w);
        lemma_at(r - 1, c + 1, h, w);
        lemma_at(r, c - 1, h, w);
        lemma_at(r, c, h, w);
        lemma_at(r, c + 1, h, w);
        lemma_at(r + 1, c - 1, h, w);
        lemma_at(r + 1, c, h, w);
        lemma_at(r + 1, c + 1, h, w);
    }
    let t_ul = around(lay, buf, rows, cols, i, j, a, b, -1, -1);
    let t_um = around(lay, buf, rows, cols, i, j, a, b, -1, 0);
    let t_ur = around(lay, buf, rows, cols, i, j, a, b, -1, 1);
    let t_ml = around(lay, buf, rows, cols, i, j, a, b, 0, -1);
    let t_mm = around(lay, buf, rows, cols, i, j, a, b, 0, 0);
    let t_mr = around(lay, buf, rows, cols, i, j, a, b, 0, 1);
    let t_dl = around(lay, buf, rows, cols, i, j, a, b, 1, -1);
    let t_dm = around(lay, buf, rows, cols, i, j, a, b, 1, 0);
    let t_dr = around(lay, buf, rows, cols, i, j, a, b, 1, 1);
    let sum: u8 = t_ul + t_um + t_ur + t_ml + t_mm + t_mr + t_dl + t_dm + t_dr;
    if sum == 3 {
        1
    } else if sum == 4 {
        t_mm
    } else {
        0
    }
}

/// Where block arithmetic and mirroring meet.
proof fn lemma_alias(x: int, t: int, n: int)
    requires
        t > 0,
        n > 0,
        n % t == 0,
        0 <= x < n + 2 * t,
    ensures
        n / t >= 1,
        0 <= x / t <= n / t + 1,
        0 <= x % t < t,
        ({
            let p = x / t;
            let i = if p == 0 {
                n / t
            } else if p == n / t + 1 {
                1
            } else {
                p
            };
            &&& i * t + x % t == mirrored(x, t, n)
            &&& t <= mirrored(x, t, n) < t + n
            &&& i * t <= n + t
        }),
{
    let k = n / t;
    let (p, a) = (x / t, x % t);
    lemma_fundamental_div_mod(n, t);
    lemma_fundamental_div_mod(x, t);
    assert(n == k * t && x == p * t + a) by (nonlinear_arith)
        requires
            n == t * k + 0,
            x == t * p + a,
    ;
    assert(k >= 1) by (nonlinear_arith)
        requires
            n == k * t,
            n > 0,
            t > 0,
    ;
    assert(0 <= p <= k + 1) by (nonlinear_arith)
        requires
            x == p * t + a,
            n == k * t,
            0 <= x < n + 2 * t,
            0 <= a < t,
            t > 0,
    ;
    assert(x < t <==> p == 0) by (nonlinear_arith)
        requires
            x == p * t + a,
            0 <= a < t,
            p >= 0,
            t > 0,
    ;
    assert(x >= n + t <==> p == k + 1) by (nonlinear_arith)
        requires
            x == p * t + a,
            n == k * t,
            0 <= a < t,
            0 <= p <= k + 1,
            t > 0,
    ;
    assert((k + 1) * t == k * t + t) by (nonlinear_arith);
    assert(0 * t == 0 && 1 * t == t) by (nonlinear_arith);
    let i = if p == 0 {
        k
    } else if p == k + 1 {
        1
    } else {
        p
    };
    assert(i * t <= k * t && i * t >= t) by (nonlinear_arith)
        requires
            1 <= i <= k,
            t > 0,
    ;
}

/// A generation of a padded buffer, tile by tile. Ghost tiles come out right
/// without a separate copy.
pub fn life_step(lay: &Layout, buf: &[u8]) -> (out: Vec<u8>)
    requires
        is_tiled(*lay),
        buf@.len() == lay.size(),
        all_plain(buf@),
    ensures
        out@ == kernel_step(*lay, buf@),
{
    let len: usize = buf.len();
    let (rows, cols): (usize, usize) = (lay.buf_rows(), lay.buf_cols());
    let t: usize = lay.tile;
    let (tile_rows, tile_cols): (usize, usize) = (lay.rows / t, lay.cols / t);
    let out = par_map(
        len,
        |p: usize| -> (v: u8)
            requires
                len > p,
                len == buf@.len(),
                is_tiled(*lay),
                buf@.len() == lay.size(),
                all_plain(buf@),
                rows == lay.height(),
                cols == lay.width(),
                t == lay.tile,
                tile_rows == lay.rows as int / (lay.tile as int),
                tile_cols == lay.cols as int / (lay.tile as int),
            ensures
                v == kernel_cell(*lay, buf@, p as int / lay.width(), p as int % lay.width()),
            {
                let (x, y): (usize, usize) = (p / cols, p % cols);
                proof {
                    lemma_row_bound(p as int, rows as int, cols as int);
                    lemma_alias(x as int, t as int, lay.rows as int);
                    lemma_alias(y as int, t as int, lay.cols as int);
                    lemma_small_quotient(lay.rows as int, t as int);
                    lemma_small_quotient(lay.cols as int, t as int);
                }
                let i: usize = alias(x / t, tile_rows);
                let j: usize = alias(y / t, tile_cols);
                life_cell(lay, buf, rows, cols, i, j, x % t, y % t)
            });
    assert(out@ =~= kernel_step(*lay, buf@));
    out
}

proof fn lemma_small_quotient(n: int, t: int)
    requires
        n >= 0,
        t >= 1,
    ensures
        n / t <= n,
{
    assert(n / t <= n) by (nonlinear_arith)
        requires
            n >= 0,
            t >= 1,
    ;
}

/// A cell of a padded buffer, near an interior place.
proof fn lemma_padded_near(lay: Layout, cells: Seq<u8>, r: int, c: int, dr: int, dc: int)
    requires
        is_tiled(lay),
        cells.len() == lay.rows * lay.cols,
        lay.tile <= r < lay.tile + lay.rows,
        lay.tile <= c < lay.tile + lay.cols,
        -1 <= dr <= 1,
        -1 <= dc <= 1,
    ensures
        padded(lay, cells)[at(r + dr, c + dc, lay.width())] == near(
            cells,
            lay.rows as int,
            lay.cols as int,
            wrapped(r, lay.tile as int, lay.rows as int),
            wrapped(c, lay.tile as int, lay.cols as int),
            dr,
            dc,
        ),
{
    let (h, w, t) = (lay.height(), lay.width(), lay.tile as int);
    let (rows, cols) = (lay.rows as int, lay.cols as int);
    lemma_at(r + dr, c + dc, h, w);
    lemma_shift(r - t, dr, rows);
    lemma_shift(c - t, dc, cols);
    assert(r + dr - t == r - t + dr && c + dc - t == c - t + dc);
}

/// Wrapping before or after a step comes to the same.
proof fn lemma_shift(x: int, d: int, n: int)
    requires
        n > 0,
    ensures
        (x % n + d) % n == (x + d) % n,
{
    lemma_add_mod_noop(x % n, d, n);
    lemma_add_mod_noop(x, d, n);
    lemma_mod_twice(x, n);
}

/// A mirrored place shows the same place of the torus.
proof fn lemma_mirrored(x: int, t: int, n: int)
    requires
        n > 0,
    ensures
        wrapped(mirrored(x, t, n), t, n) == wrapped(x, t, n),
        0 <= wrapped(x, t, n) < n,
{
    lemma_same_place(x + n - t, x - t, 1, n);
    lemma_same_place(x - n - t, x - t, -1, n);
}

/// Stepping a padded buffer is padding the stepped world: the kernel computes
/// Life on the torus, and its ghost ring stays right.
pub proof fn law_kernel_is_life(lay: Layout, cells: Seq<u8>)
    requires
        is_tiled(lay),
        cells.len() == lay.rows * lay.cols,
        all_plain(cells),
    ensures
        kernel_step(lay, padded(lay, cells)) == padded(
            lay,
            next_cells(cells, lay.rows as int, lay.cols as int, lay.rows * lay.cols),
        ),
{
    let (h, w, t) = (lay.height(), lay.width(), lay.tile as int);
    let (rows, cols) = (lay.rows as int, lay.cols as int);
    let buf = padded(lay, cells);
    let next = next_cells(cells, rows, cols, rows * cols);
    let (left, right) = (kernel_step(lay, buf), padded(lay, next));
    assert(0 <= h * w) by (nonlinear_arith)
        requires
            0 <= h,
            0 <= w,
    ;
    lemma_plain_countable(cells, rows, cols);
    assert(left =~= right) by {
        assert forall|i: int| 0 <= i < left.len() implies left[i] == right[i] by {
            let (x, y) = (i / w, i % w);
            lemma_row_bound(i, h, w);
            lemma_cell_of(i, w);
            lemma_alias(x, t, rows);
            lemma_alias(y, t, cols);
            let (r, c) = (mirrored(x, t, rows), mirrored(y, t, cols));
            lemma_mirrored(x, t, rows);
            lemma_mirrored(y, t, cols);
            let (a, b) = (wrapped(r, t, rows), wrapped(c, t, cols));
            assert(a == wrapped(x, t, rows) && b == wrapped(y, t, cols));
            lemma_padded_near(lay, cells, r, c, -1, -1);
            lemma_padded_near(lay, cells, r, c, -1, 0);
            lemma_padded_near(lay, cells, r, c, -1, 1);
            lemma_padded_near(lay, cells, r, c, 0, -1);
            lemma_padded_near(lay, cells, r, c, 0, 0);
            lemma_padded_near(lay, cells, r, c, 0, 1);
            lemma_padded_near(lay, cells, r, c, 1, -1);
            lemma_padded_near(lay, cells, r, c, 1, 0);
            lemma_padded_near(lay, cells, r, c, 1, 1);
            assert(buffer_crowd(buf, w, r, c) == crowd(cells, rows, cols, a, b));
            lemma_at(a, b, rows, cols);
            lemma_small(a, rows);
            lemma_small(b, cols);
            assert(near(cells, rows, cols, a, b, 0, 0) == cells[at(a, b, cols)]);
            let k = at(a, b, cols);
            assert(right[i] == next[k]);
            assert(next[k] == next_at(cells, rows, cols, k));
        }
    }
}

proof fn lemma_small(a: int, n: int)
    requires
        0 <= a < n,
    ensures
        (a + 0) % n == a,
{
    vstd::arithmetic::div_mod::lemma_small_mod(a as nat, n as nat);
}

/// Generations per launch: as many as asked for, rounded up to an even number.
pub open spec fn even_up(gens: int) -> int {
    if gens <= 2 {
        2
    } else {
        (gens + 1) / 2 * 2
    }
}

/// How many generations a launch runs: a launch leaves its result where it
/// started, so their number is even.
pub fn gens_per_launch(gens: usize) -> (n: usize)
    requires
        gens < usize::MAX,
    ensures
        n == even_up(gens as int),
        n % 2 == 0,
        n >= gens,
        n >= 2,
        gens >= 2 ==> n <= gens + 1,
{
    let pairs: usize = div_ceil(gens, 2);
    let pairs: usize = if pairs == 0 {
        1
    } else {
        pairs
    };
    pairs * 2
}

/// How many launches of `per` generations it takes to run at least `gens`.
pub fn launches(gens: usize, per: usize) -> (n: usize)
    requires
        per > 0,
    ensures
        n >= 1,
        n * per >= gens,
        n == 1 || (n - 1) * per < gens,
{
    let n: usize = div_ceil(gens, per);
    proof {
        if gens > 0 {
            let q = (gens - 1) / (per as int);
            lemma_fundamental_div_mod(gens - 1, per as int);
            assert((q + 1) * per >= gens && q * per < gens) by (nonlinear_arith)
                requires
                    gens - 1 == per * q + (gens - 1) % (per as int),
                    0 <= (gens - 1) % (per as int) < per,
            ;
        }
    }
    if n == 0 {
        1
    } else {
        n
    }
}

/// A kernel launch: read buffer `from`, write the other one. The world is in
/// buffer 0.
#[derive(Clone, Copy, Debug)]
pub struct Launch {
    pub from: usize,
}

/// The launches of a graph of `gens` generations: there and back.
pub open spec fn plan_of(gens: nat) -> Seq<Launch> {
    Seq::new(gens, |i: int| Launch { from: (i % 2) as usize })
}

/// Capture `gens` generations, rounded up to an even number: each pair goes
/// there and back, so the result is always in buffer 0.
pub fn capture(gens: usize) -> (plan: Vec<Launch>)
    requires
        gens < usize::MAX,
    ensures
        plan@ == plan_of(even_up(gens as int) as nat),
{
    let n: usize = gens_per_launch(gens);
    let mut plan: Vec<Launch> = Vec::new();
    let mut i: usize = 0;
    while i < n
        invariant
            i <= n,
            n % 2 == 0,
            plan@ == plan_of(i as nat),
        decreases n - i,
    {
        plan.push(Launch { from: i % 2 });
        assert(plan@ =~= plan_of((i + 1) as nat));
        i += 1;
    }
    plan
}

/// `n` generations of a world.
pub open spec fn generations(cells: Seq<u8>, rows: int, cols: int, n: nat) -> Seq<u8>
    decreases n,
{
    if n == 0 {
        cells
    } else {
        next_cells(generations(cells, rows, cols, (n - 1) as nat), rows, cols, rows * cols)
    }
}

/// The two buffers after a launch.
pub open spec fn launched(lay: Layout, bufs: Seq<Seq<u8>>, l: Launch) -> Seq<Seq<u8>> {
    bufs.update(1 - l.from, kernel_step(lay, bufs[l.from as int]))
}

/// The two buffers after all of `ls`.
pub open spec fn all_launched(lay: Layout, bufs: Seq<Seq<u8>>, ls: Seq<Launch>) -> Seq<Seq<u8>>
    decreases ls.len(),
{
    if ls.len() == 0 {
        bufs
    } else {
        launched(lay, all_launched(lay, bufs, ls.drop_last()), ls.last())
    }
}

/// Generations keep their size, and stay plain.
proof fn lemma_generations(lay: Layout, cells: Seq<u8>, n: nat)
    requires
        is_tiled(lay),
        cells.len() == lay.rows * lay.cols,
        all_plain(cells),
    ensures
        generations(cells, lay.rows as int, lay.cols as int, n).len() == lay.rows * lay.cols,
        all_plain(generations(cells, lay.rows as int, lay.cols as int, n)),
    decreases n,
{
    if n > 0 {
        lemma_generations(lay, cells, (n - 1) as nat);
        crate::life::cpu::law_plain_stays_plain(
            generations(cells, lay.rows as int, lay.cols as int, (n - 1) as nat),
            lay.rows as int,
            lay.cols as int,
        );
    }
}

/// After `n` launches buffer `n % 2` holds the world `n` generations on.
pub proof fn law_launches_are_generations(
    lay: Layout,
    cells: Seq<u8>,
    bufs: Seq<Seq<u8>>,
    n: nat,
)
    requires
        is_tiled(lay),
        cells.len() == lay.rows * lay.cols,
        all_plain(cells),
        bufs.len() == 2,
        bufs[0] == padded(lay, cells),
    ensures
        all_launched(lay, bufs, plan_of(n)).len() == 2,
        all_launched(lay, bufs, plan_of(n))[n as int % 2] == padded(
            lay,
            generations(cells, lay.rows as int, lay.cols as int, n),
        ),
    decreases n,
{
    if n > 0 {
        let m = (n - 1) as nat;
        law_launches_are_generations(lay, cells, bufs, m);
        lemma_generations(lay, cells, m);
        law_kernel_is_life(lay, generations(cells, lay.rows as int, lay.cols as int, m));
        assert(plan_of(n).drop_last() =~= plan_of(m));
        assert(plan_of(n).last() == (Launch { from: (m as int % 2) as usize }));
        assert(n as int % 2 == 1 - m as int % 2);
    }
}

/// A launch runs the least even number of generations that is at least two and at
/// least what was asked for.
pub proof fn law_launches_are_even(gens: int, n: int)
    requires
        n % 2 == 0,
        n >= 2,
        n >= gens,
    ensures
        even_up(gens) % 2 == 0,
        even_up(gens) >= 2,
        even_up(gens) >= gens,
        even_up(gens) <= n,
{
}

/// Every generation follows from the one before it.
pub proof fn law_one_generation_more(cells: Seq<u8>, rows: int, cols: int, n: nat)
    ensures
        generations(cells, rows, cols, 0) == cells,
        generations(cells, rows, cols, n + 1) == next_cells(
            generations(cells, rows, cols, n),
            rows,
            cols,
            rows * cols,
        ),
{
}

/// Whatever a buffer holds, a launch stores one in a crowd of three, leaves a cell as
/// it is in a crowd of four, and clears it otherwise. What it stores in the ghost
/// tiles is what it stores on the far side.
pub proof fn law_kernel_rule(lay: Layout, buf: Seq<u8>, x: int, y: int)
    requires
        lay.tile > 0,
        lay.rows > 0,
        lay.cols > 0,
        buf.len() == (lay.rows + 2 * lay.tile) * (lay.cols + 2 * lay.tile),
        0 <= x < lay.rows + 2 * lay.tile,
        0 <= y < lay.cols + 2 * lay.tile,
    ensures
        ({
            let w = lay.cols + 2 * lay.tile;
            let out = kernel_step(lay, buf);
            let cell = |i: int, j: int| buf[(x + i) * w + (y + j)];
            let sum = cell(-1, -1) + cell(-1, 0) + cell(-1, 1) + cell(0, -1) + cell(0, 0) + cell(
                0,
                1,
            ) + cell(1, -1) + cell(1, 0) + cell(1, 1);
            let inside = lay.tile <= x < lay.tile + lay.rows && lay.tile <= y < lay.tile + lay.cols;
            &&& out.len() == buf.len()
            &&& inside ==> out[x * w + y] == (if sum == 3 {
                1
            } else if sum == 4 {
                cell(0, 0)
            } else {
                0
            })
            &&& x < lay.tile && lay.tile <= lay.rows ==> out[x * w + y] == out[(x + lay.rows) * w
                + y]
            &&& y < lay.tile && lay.tile <= lay.cols ==> out[x * w + y] == out[x * w + (y
                + lay.cols)]
            &&& x >= lay.tile + lay.rows && lay.tile <= lay.rows ==> out[x * w + y] == out[(x
                - lay.rows) * w + y]
            &&& y >= lay.tile + lay.cols && lay.tile <= lay.cols ==> out[x * w + y] == out[x * w + (
            y - lay.cols)]
        }),
{
    let (h, w) = (lay.height(), lay.width());
    let (rows, cols, t) = (lay.rows as int, lay.cols as int, lay.tile as int);
    lemma_at(x, y, h, w);
    assert(kernel_step(lay, buf)[at(x, y, w)] == kernel_cell(lay, buf, x, y));
    if x < t && t <= rows {
        lemma_at(x + rows, y, h, w);
    }
    if y < t && t <= cols {
        lemma_at(x, y + cols, h, w);
    }
    if x >= t + rows && t <= rows {
        lemma_at(x - rows, y, h, w);
    }
    if y >= t + cols && t <= cols {
        lemma_at(x, y - cols, h, w);
    }
}

} // verus!
