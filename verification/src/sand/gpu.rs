//! The rules as the tile kernels compute them: without branches, from bit
//! tables and masks, each cell on its own from the nine cells around it. They
//! agree with the block rules cell for cell.
use crate::grid::{at, crop, cropped, lemma_at, lemma_crop_fits, lemma_row_bound};
use crate::parallel::par_map;
use crate::sand::canvas::is_paint;
use crate::sand::cpu::{
    block_after, block_random, cell_after, corner, flowed, hash, hashed, in_block, is_falling,
    is_liquid, is_rising, is_solid, is_spreading, offset, paint, painted, reacted, sinking,
    sliding_down, sliding_up, step, stepped, updated, weight_of, Block,
};
use crate::sand::laws::lemma_reaction_is_cell;
use crate::sand::world::{
    cell_of, is_cell, is_element, kind, kind_of, Layout, DIR, EMBER, EMPTY, FIRE, OIL, PAINT,
    SAND, SMOKE, TILE, WALL, WATER, WOOD,
};
use crate::tiles::load;
use vstd::prelude::*;

verus! {

/// Whether bit `k` of a table is set.
fn has(k: i32, table: i32) -> (b: bool)
    requires
        is_element(k),
    ensures
        b == ((table >> (k as u32)) & 1 == 1),
{
    (table >> (k as u32)) & 1 == 1
}

/// The elements each table names.
proof fn lemma_tables(k: i32)
    requires
        is_element(k),
    ensures
        ((0x130i32 >> (k as u32)) & 1 == 1) == is_solid(k),
        ((0x0ci32 >> (k as u32)) & 1 == 1) == is_liquid(k),
        ((0x0ei32 >> (k as u32)) & 1 == 1) == is_falling(k),
        ((0xc0i32 >> (k as u32)) & 1 == 1) == is_rising(k),
        ((0xcdi32 >> (k as u32)) & 1 == 1) == is_spreading(k),
        k < 8 ==> (0x01993452i32 >> ((k * 4) as u32)) & 15 == weight_of(k),
{
    let n = k as u32;
    assert(n <= 8 ==> {
        &&& ((0x130i32 >> n) & 1 == 1) == (n == 4 || n == 5 || n == 8)
        &&& ((0x0ci32 >> n) & 1 == 1) == (n == 2 || n == 3)
        &&& ((0x0ei32 >> n) & 1 == 1) == (n == 1 || n == 2 || n == 3)
        &&& ((0xc0i32 >> n) & 1 == 1) == (n == 6 || n == 7)
        &&& ((0xcdi32 >> n) & 1 == 1) == (n == 0 || n == 2 || n == 3 || n == 6 || n == 7)
    }) by (bit_vector);
    assert({
        &&& (0x01993452i32 >> 0u32) & 15 == 2
        &&& (0x01993452i32 >> 4u32) & 15 == 5
        &&& (0x01993452i32 >> 8u32) & 15 == 4
        &&& (0x01993452i32 >> 12u32) & 15 == 3
        &&& (0x01993452i32 >> 16u32) & 15 == 9
        &&& (0x01993452i32 >> 20u32) & 15 == 9
        &&& (0x01993452i32 >> 24u32) & 15 == 1
        &&& (0x01993452i32 >> 28u32) & 15 == 0
    }) by (bit_vector);
}

fn select(m: bool, yes: i32, no: i32) -> (v: i32)
    ensures
        v == if m { yes } else { no },
{
    if m {
        yes
    } else {
        no
    }
}

/// How readily an element sinks: 4 bits each for the first eight, and embers
/// apart.
fn density(k: i32) -> (d: i32)
    requires
        is_element(k),
    ensures
        d == weight_of(k),
{
    proof {
        lemma_tables(k);
    }
    let d: i32 = if k < 8 {
        (0x01993452i32 >> ((k * 4) as u32)) & 15
    } else {
        0
    };
    select(k == EMBER, 9, d)
}

fn solid(k: i32) -> (b: bool)
    requires
        is_element(k),
    ensures
        b == is_solid(k),
{
    proof {
        lemma_tables(k);
    }
    has(k, 0x130)
}

fn liquid(k: i32) -> (b: bool)
    requires
        is_element(k),
    ensures
        b == is_liquid(k),
{
    proof {
        lemma_tables(k);
    }
    has(k, 0x0c)
}

fn falls(k: i32) -> (b: bool)
    requires
        is_element(k),
    ensures
        b == is_falling(k),
{
    proof {
        lemma_tables(k);
    }
    has(k, 0x0e)
}

fn rises(k: i32) -> (b: bool)
    requires
        is_element(k),
    ensures
        b == is_rising(k),
{
    proof {
        lemma_tables(k);
    }
    has(k, 0xc0)
}

fn spreads(k: i32) -> (b: bool)
    requires
        is_element(k),
    ensures
        b == is_spreading(k),
{
    proof {
        lemma_tables(k);
    }
    has(k, 0xcd)
}

/// A new cell, from a shade of four bits.
fn fresh(k: i32, shade: i32) -> (v: i32)
    requires
        is_element(k),
        0 <= shade < 16,
    ensures
        v == cell_of(k, shade),
{
    proof {
        assert(0 <= shade < 16 ==> shade * 256 == (shade & 15) << 8) by (bit_vector);
    }
    k | (shade * 256)
}

fn near(k1: i32, k2: i32, k3: i32, k: i32) -> (b: bool)
    ensures
        b == (k1 == k || k2 == k || k3 == k),
{
    k1 == k || k2 == k || k3 == k
}

/// The reactions, every outcome worked out and the right one selected.
fn react(x: i32, o1: i32, o2: i32, o3: i32, byte: i32) -> (v: i32)
    requires
        0 <= byte < 256,
    ensures
        v == reacted(x, o1, o2, o3, byte),
{
    proof {
        assert(0 <= byte < 256 ==> 0 <= byte >> 4 < 16) by (bit_vector);
    }
    let k = kind(x);
    let (k1, k2, k3): (i32, i32, i32) = (kind(o1), kind(o2), kind(o3));
    let near_fire = near(k1, k2, k3, FIRE);
    let near_ember = near(k1, k2, k3, EMBER);
    let near_water = near(k1, k2, k3, WATER);
    let heat = near_fire || near_ember;
    let shade: i32 = byte >> 4;
    let fire = fresh(FIRE, shade);
    let smoke = fresh(SMOKE, shade);
    // Fire: out with water or by chance, to smoke or nothing.
    let fire_out = select(byte < 20, EMPTY, x);
    let fire_out = select(near_water || byte < 16, smoke, fire_out);
    let v = select(k == FIRE, fire_out, x);
    // Embers throw flames into empty cells.
    let v = select(k == EMPTY && near_ember && byte < 48, fire, v);
    // Oil and wood catch.
    let v = select(k == OIL && heat && byte < 128, fire, v);
    let v = select(k == WOOD && heat && byte < 40, fresh(EMBER, shade), v);
    // Embers: doused to wood, or burn out to smoke.
    let ember_out = select(byte < 6, smoke, x);
    let ember_out = select(near_water, fresh(WOOD, shade), ember_out);
    let v = select(k == EMBER, ember_out, v);
    // Smoke thins out.
    select(k == SMOKE && byte < 4, EMPTY, v)
}

fn sinks(top: i32, bottom: i32) -> (b: bool)
    requires
        is_cell(top),
        is_cell(bottom),
    ensures
        b == sinking(top, bottom),
{
    let (kt, kb): (i32, i32) = (kind(top), kind(bottom));
    !solid(kt) && !solid(kb) && density(kt) > density(kb)
}

fn slides_down(x: i32, into: i32) -> (b: bool)
    requires
        is_cell(x),
        is_cell(into),
    ensures
        b == sliding_down(x, into),
{
    let (kx, ki): (i32, i32) = (kind(x), kind(into));
    falls(kx) && !solid(ki) && density(ki) < density(kx)
}

fn slides_up(x: i32, into: i32) -> (b: bool)
    requires
        is_cell(x),
        is_cell(into),
    ensures
        b == sliding_up(x, into),
{
    let (kx, ki): (i32, i32) = (kind(x), kind(into));
    rises(kx) && !solid(ki) && density(ki) > density(kx)
}

/// Sideways movement of a pair. Cells that just moved vertically stay put.
fn flow(x: i32, y: i32, x_fell: bool, y_fell: bool, bit: bool) -> (p: (i32, i32))
    requires
        is_cell(x),
        is_cell(y),
    ensures
        p == flowed(x, y, x_fell, y_fell, bit),
{
    let (kx, ky): (i32, i32) = (kind(x), kind(y));
    let open = spreads(kx) && spreads(ky) && kx != ky;
    let x_right = liquid(kx) && x & DIR != 0 && !x_fell;
    let y_left = liquid(ky) && y & DIR == 0 && !y_fell;
    let gas_pair = !liquid(kx) && !liquid(ky);
    let rested = (x_fell && kx != EMPTY) || (y_fell && ky != EMPTY);
    let go = open && !rested && (x_right || y_left || (gas_pair && bit));
    let x2 = select(x_right && !go, x ^ DIR, x);
    let y2 = select(y_left && !go, y ^ DIR, y);
    (select(go, y, x2), select(go, x, y2))
}

fn swap(m: bool, x: i32, y: i32) -> (p: (i32, i32))
    ensures
        p == if m { (y, x) } else { (x, y) },
{
    (select(m, y, x), select(m, x, y))
}

/// A block between two stages, as masks leave it.
spec fn is_block(s: Block, a: i32, b: i32, c: i32, d: i32) -> bool {
    s.a == a && s.b == b && s.c == c && s.d == d && is_cell(a) && is_cell(b) && is_cell(c)
        && is_cell(d)
}

/// One pass on a block `[a, b]` over `[c, d]`.
fn update(a: i32, b: i32, c: i32, d: i32, r: i32) -> (out: (i32, i32, i32, i32))
    requires
        is_cell(a),
        is_cell(b),
        is_cell(c),
        is_cell(d),
    ensures
        seq![out.0, out.1, out.2, out.3] == updated(a, b, c, d, r),
{
    let ghost s0 = Block::after_reactions(a, b, c, d, r);
    let ghost r2g = hashed(r);
    proof {
        assert({
            &&& 0 <= (r & 255) < 256
            &&& 0 <= ((r >> 8) & 255) < 256
            &&& 0 <= ((r >> 16) & 255) < 256
            &&& 0 <= ((r >> 24) & 255) < 256
        }) by (bit_vector);
        lemma_reaction_is_cell(a, b, c, d, r & 255);
        lemma_reaction_is_cell(b, s0.a, c, d, (r >> 8) & 255);
        lemma_reaction_is_cell(c, s0.a, s0.b, d, (r >> 16) & 255);
        lemma_reaction_is_cell(d, s0.a, s0.b, s0.c, (r >> 24) & 255);
    }
    let a = react(a, b, c, d, r & 255);
    let b = react(b, a, c, d, (r >> 8) & 255);
    let c = react(c, a, b, d, (r >> 16) & 255);
    let d = react(d, a, b, c, (r >> 24) & 255);
    let r2 = hash(r);

    // Gravity. The masks remember who moved vertically in this pass.
    let m_ac = sinks(a, c);
    let (a, c): (i32, i32) = swap(m_ac, a, c);
    let m_bd = sinks(b, d);
    let (b, d): (i32, i32) = swap(m_bd, b, d);
    let ghost g = s0.after_gravity();
    proof {
        reveal(Block::after_gravity);
        assert(is_block(g, a, b, c, d));
        assert(g.fell_a == m_ac && g.fell_c == m_ac && g.fell_b == m_bd && g.fell_d == m_bd);
    }
    // Diagonals, in a random order so piles don't lean.
    proof {
        assert((r2 >> 0i32) & 1 == r2 & 1 && (r2 & 1 == 0 || r2 & 1 == 1)) by (bit_vector);
    }
    let left_first = !((r2 >> 0) & 1 == 1);
    let right_first = !left_first;
    let m1 = left_first && slides_down(a, d);
    let (a, d): (i32, i32) = swap(m1, a, d);
    let m2 = right_first && slides_down(b, c);
    let (b, c): (i32, i32) = swap(m2, b, c);
    let m3 = left_first && slides_down(b, c);
    let (b, c): (i32, i32) = swap(m3, b, c);
    let m4 = right_first && slides_down(a, d);
    let (a, d): (i32, i32) = swap(m4, a, d);
    let m5 = left_first && slides_up(c, b);
    let (c, b): (i32, i32) = swap(m5, c, b);
    let m6 = right_first && slides_up(d, a);
    let (d, a): (i32, i32) = swap(m6, d, a);
    let m7 = left_first && slides_up(d, a);
    let (d, a): (i32, i32) = swap(m7, d, a);
    let m8 = right_first && slides_up(c, b);
    let (c, b): (i32, i32) = swap(m8, c, b);
    let m_ad = m1 || m4 || m6 || m7;
    let m_bc = m2 || m3 || m5 || m8;
    let fell_a = m_ac || m_ad;
    let fell_b = m_bd || m_bc;
    let fell_c = m_ac || m_bc;
    let fell_d = m_bd || m_ad;
    let ghost t = g.after_slides(left_first);
    proof {
        reveal(Block::slide_a);
        reveal(Block::slide_b);
        reveal(Block::slide_c);
        reveal(Block::slide_d);
        assert(is_block(t, a, b, c, d));
        assert(t.fell_a == fell_a && t.fell_b == fell_b && t.fell_c == fell_c && t.fell_d
            == fell_d);
    }
    // Sideways.
    let (a, b): (i32, i32) = flow(a, b, fell_a, fell_b, (r2 >> 1) & 1 == 1);
    let (c, d): (i32, i32) = flow(c, d, fell_c, fell_d, (r2 >> 2) & 1 == 1);
    proof {
        reveal(Block::after_flow);
        reveal(updated);
        assert(left_first == (r2g & 1 == 0));
    }
    (a, b, c, d)
}

/// The cell one step before, at or after place `a` of block `i` along one
/// axis: the start of the view to read, and the block. Before is the view that
/// starts 31 cells in, one block back; after is the view that starts one cell
/// in.
fn reach(i: usize, d: i32) -> (r: (usize, usize))
    requires
        -1 <= d <= 1,
        i >= 1,
        i * TILE <= i32::MAX,
    ensures
        r.0 + r.1 * TILE == i * TILE + d,
        r.0 < TILE,
        r.1 <= i,
{
    if d < 0 {
        (TILE - 1, i - 1)
    } else if d == 0 {
        (0, i)
    } else {
        (1, i)
    }
}

/// The cell `(dr, dc)` away from row `a`, column `b` of block `(i, j)`.
fn around(src: &[i32], rows: usize, cols: usize, i: usize, j: usize, a: usize, b: usize, dr: i32, dc: i32) -> (v: i32)
    requires
        src@.len() == rows * cols,
        rows * cols <= i32::MAX,
        -1 <= dr <= 1,
        -1 <= dc <= 1,
        1 <= i,
        1 <= j,
        a < TILE,
        b < TILE,
        (i + 1) * TILE < rows <= i32::MAX,
        (j + 1) * TILE < cols <= i32::MAX,
    ensures
        v == src@[at(i * TILE + a + dr, j * TILE + b + dc, cols as int)],
{
    let (sr, br): (usize, usize) = reach(i, dr);
    let (sc, bc): (usize, usize) = reach(j, dc);
    load(src, rows, cols, TILE, sr, sc, br, bc, a, b, 0)
}

/// Whether every value of a buffer is a cell.
pub open spec fn all_cells(src: Seq<i32>) -> bool {
    forall|i: int| 0 <= i < src.len() ==> is_cell(#[trigger] src[i])
}

/// Whether a buffer is a world of the layout, in whole tiles.
pub open spec fn is_tiled_world(lay: Layout, src: Seq<i32>) -> bool {
    &&& src.len() == lay.size()
    &&& lay.size() <= i32::MAX
    &&& lay.rows % TILE == 0
    &&& lay.cols % TILE == 0
    &&& all_cells(src)
}

/// A cell of a world and its neighbors lie in whole blocks.
proof fn lemma_inner(lay: Layout, src: Seq<i32>, pass: i32, r: int, c: int)
    requires
        src.len() == lay.size(),
        lay.inside(r, c),
    ensures
        in_block(src.len() as int, lay.width(), pass, r, c),
        0 <= offset(pass) <= 1,
        lay.height() <= src.len(),
        lay.width() <= src.len(),
{
    let (h, w) = (lay.height(), lay.width());
    assert(0 <= (pass & 1) <= 1) by (bit_vector);
    let r0 = corner(r, pass);
    assert((r0 + 2) * w <= h * w) by (nonlinear_arith)
        requires
            r0 + 2 <= h,
            0 <= w,
    ;
    assert(h <= h * w && w <= h * w) by (nonlinear_arith)
        requires
            h >= 64,
            w >= 64,
    ;
}

/// The block of the cell at row `a`, column `b` of block `(i, j)` of tiles,
/// picked out of the nine cells around it: `top` and `lft` say which corner of
/// the block it is.
fn pick_block(src: &[i32], rows: usize, cols: usize, i: usize, j: usize, a: usize, b: usize, top: bool, lft: bool) -> (t: (i32, i32, i32, i32))
    requires
        src@.len() == rows * cols,
        rows * cols <= i32::MAX,
        1 <= i,
        1 <= j,
        a < TILE,
        b < TILE,
        (i + 1) * TILE < rows <= i32::MAX,
        (j + 1) * TILE < cols <= i32::MAX,
    ensures
        ({
            let r0 = i * TILE + a - if top { 0int } else { 1 };
            let c0 = j * TILE + b - if lft { 0int } else { 1 };
            &&& t.0 == src@[at(r0, c0, cols as int)]
            &&& t.1 == src@[at(r0, c0 + 1, cols as int)]
            &&& t.2 == src@[at(r0 + 1, c0, cols as int)]
            &&& t.3 == src@[at(r0 + 1, c0 + 1, cols as int)]
        }),
{
    let t_ul = around(src, rows, cols, i, j, a, b, -1, -1);
    let t_um = around(src, rows, cols, i, j, a, b, -1, 0);
    let t_ur = around(src, rows, cols, i, j, a, b, -1, 1);
    let t_ml = around(src, rows, cols, i, j, a, b, 0, -1);
    let t_mm = around(src, rows, cols, i, j, a, b, 0, 0);
    let t_mr = around(src, rows, cols, i, j, a, b, 0, 1);
    let t_dl = around(src, rows, cols, i, j, a, b, 1, -1);
    let t_dm = around(src, rows, cols, i, j, a, b, 1, 0);
    let t_dr = around(src, rows, cols, i, j, a, b, 1, 1);
    // Rows of the block: for a top cell they are this row and the one below,
    // for a bottom cell the one above and this row. Same for columns.
    let a_l = select(top, t_ml, t_ul);
    let a_m = select(top, t_mm, t_um);
    let a_r = select(top, t_mr, t_ur);
    let c_l = select(top, t_dl, t_ml);
    let c_m = select(top, t_dm, t_mm);
    let c_r = select(top, t_dr, t_mr);
    (select(lft, a_m, a_l), select(lft, a_r, a_m), select(lft, c_m, c_l), select(lft, c_r, c_m))
}

/// The place of a cell in its block.
proof fn lemma_corner(pass: i32, r: int)
    requires
        r >= 1,
    ensures
        0 <= offset(pass) <= 1,
        corner(r, pass) == r - (r + offset(pass)) % 2,
{
    assert(0 <= (pass & 1) <= 1) by (bit_vector);
}

/// What the kernel makes of a cell of the world.
fn inner_cell(lay: &Layout, src: &[i32], rows: usize, cols: usize, pass: i32, salt: i32, i: usize, j: usize, a: usize, b: usize) -> (v: i32)
    requires
        is_tiled_world(*lay, src@),
        rows == lay.height(),
        cols == lay.width(),
        1 <= i,
        1 <= j,
        (i + 1) * TILE < rows,
        (j + 1) * TILE < cols,
        a < TILE,
        b < TILE,
        lay.inside(i * TILE + a, j * TILE + b),
    ensures
        v == cell_after(*lay, src@, pass, salt, i * TILE + a, j * TILE + b),
{
    let (r, c): (usize, usize) = (i * TILE + a, j * TILE + b);
    let ghost (r0, c0) = (corner(r as int, pass), corner(c as int, pass));
    proof {
        lemma_inner(*lay, src@, pass, r as int, c as int);
        lemma_corner(pass, r as int);
        lemma_corner(pass, c as int);
    }
    let parity: usize = (pass & 1) as usize;
    let pr: usize = (r + parity) % 2;
    let pc: usize = (c + parity) % 2;
    let (top, lft): (bool, bool) = (pr == 0, pc == 0);
    let t: (i32, i32, i32, i32) = pick_block(src, rows, cols, i, j, a, b, top, lft);
    proof {
        lemma_at(r0, c0, rows as int, cols as int);
        lemma_at(r0, c0 + 1, rows as int, cols as int);
        lemma_at(r0 + 1, c0, rows as int, cols as int);
        lemma_at(r0 + 1, c0 + 1, rows as int, cols as int);
    }
    let word = block_random(((c - pc) / 2) as i32, ((r - pr) / 2) as i32, salt);
    let (na, nb, nc, nd): (i32, i32, i32, i32) = update(t.0, t.1, t.2, t.3, word);
    proof {
        reveal(block_after);
        reveal(cell_after);
        let new = block_after(src@, cols as int, salt, r0, c0);
        assert(new == seq![na, nb, nc, nd]);
        assert(new[0] == na && new[1] == nb && new[2] == nc && new[3] == nd);
    }
    select(top, select(lft, na, nb), select(lft, nc, nd))
}

/// What the kernel stores at row `a`, column `b` of block `(i, j)`: every cell
/// picks its block out of the nine cells around it, runs the block rule, and
/// keeps the result for its own corner. Ghost tiles copy themselves.
fn step_cell(lay: &Layout, src: &[i32], rows: usize, cols: usize, pass: i32, salt: i32, i: usize, j: usize, a: usize, b: usize) -> (v: i32)
    requires
        is_tiled_world(*lay, src@),
        rows == lay.height(),
        cols == lay.width(),
        i * TILE < rows,
        j * TILE < cols,
        a < TILE,
        b < TILE,
    ensures
        v == cell_after(*lay, src@, pass, salt, i * TILE + a, j * TILE + b),
{
    let (last_i, last_j): (usize, usize) = (rows / TILE - 1, cols / TILE - 1);
    if i == 0 || j == 0 || i == last_i || j == last_j {
        proof {
            reveal(cell_after);
            lemma_at(i * TILE + a, j * TILE + b, rows as int, cols as int);
        }
        load(src, rows, cols, TILE, 0, 0, i, j, a, b, 0)
    } else {
        inner_cell(lay, src, rows, cols, pass, salt, i, j, a, b)
    }
}

/// A pass computed tile by tile, as the kernel does: the same as the plain
/// pass, cell for cell.
pub fn step_tiled(lay: &Layout, src: &[i32], pass: i32, salt: i32) -> (out: Vec<i32>)
    requires
        is_tiled_world(*lay, src@),
    ensures
        out@ == stepped(*lay, src@, pass, salt),
{
    let len: usize = src.len();
    proof {
        lemma_sides(*lay);
    }
    let (rows, cols): (usize, usize) = (lay.buf_rows(), lay.buf_cols());
    let out = par_map(
        len,
        |p: usize| -> (v: i32)
            requires
                len > p,
                len == src@.len(),
                rows == lay.height(),
                cols == lay.width(),
                is_tiled_world(*lay, src@),
            ensures
                v == cell_after(*lay, src@, pass, salt, p as int / lay.width(), p as int % lay.width()),
            {
                let (r, c): (usize, usize) = (p / cols, p % cols);
                proof {
                    lemma_row_bound(p as int, rows as int, cols as int);
                }
                step_cell(lay, src, rows, cols, pass, salt, r / TILE, c / TILE, r % TILE, c % TILE)
            });
    assert(out@ =~= stepped(*lay, src@, pass, salt));
    out
}

/// The sides of a layout are no larger than its size.
proof fn lemma_sides(lay: Layout)
    ensures
        lay.height() <= lay.size(),
        lay.width() <= lay.size(),
        lay.rows * lay.cols <= lay.size(),
{
    let (h, w) = (lay.height(), lay.width());
    assert(h <= h * w && w <= h * w) by (nonlinear_arith)
        requires
            h >= 64,
            w >= 64,
    ;
    let (r, c) = (lay.rows as int, lay.cols as int);
    assert(r * c <= (r + 64) * (c + 64)) by (nonlinear_arith)
        requires
            r >= 0,
            c >= 0,
    ;
}

/// The paint kernel on one cell: a flagged value replaces the cell.
pub fn paint_cell(c: i32, p: i32) -> (v: i32)
    requires
        is_paint(p),
    ensures
        seq![v] == painted(seq![c], seq![p]),
{
    proof {
        let q = p & !PAINT;
        assert(0 <= (p & !1048576i32) < 8192 ==> p & 0x1fff == p & !1048576i32) by (bit_vector);
        assert(0i32 & 1048576 == 0) by (bit_vector);
        assert(painted(seq![c], seq![p])[0] == if p & PAINT != 0 {
            q
        } else {
            c
        });
    }
    select(p & PAINT != 0, p & 0x1fff, c)
}

/// The color of an element, and how much the shade tints it.
pub open spec fn palette(k: i32) -> (int, int, int, int) {
    if k == SAND {
        (194, 168, 98, 5)
    } else if k == WATER {
        (40, 90, 205, 2)
    } else if k == OIL {
        (80, 55, 25, 2)
    } else if k == WOOD {
        (112, 72, 40, 4)
    } else if k == WALL {
        (82, 82, 92, 2)
    } else if k == FIRE {
        (255, 120, 30, 0)
    } else if k == SMOKE {
        (105, 105, 112, 3)
    } else if k == EMBER {
        (235, 80, 20, 0)
    } else {
        (14, 14, 20, 0)
    }
}

/// A channel held between 0 and 255.
pub open spec fn clamped(x: int) -> int {
    if x < 0 {
        0
    } else if x > 255 {
        255
    } else {
        x
    }
}

/// How far fire and embers at `(row, col)` flicker in a frame.
pub open spec fn flicker_of(row: i32, col: i32, frame: i32) -> int {
    (hashed(row.wrapping_mul(977).wrapping_add(col) ^ frame.wrapping_mul(7)) & 63) as int
}

/// The color of cell `v` at `(row, col)` in a frame, as `0x00RRGGBB`: the
/// element's color tinted by the shade, with the green of fire and embers
/// flickering.
pub open spec fn rendered(v: i32, row: i32, col: i32, frame: i32) -> int {
    let k = kind_of(v);
    let (r, g, b, s) = palette(k);
    let tint = (((v >> 8) & 15) - 8) * s;
    let glow = if k == FIRE {
        2 * flicker_of(row, col, frame)
    } else if k == EMBER {
        flicker_of(row, col, frame)
    } else {
        0
    };
    clamped(r + tint) * 65536 + clamped(g + tint + glow) * 256 + clamped(b + tint)
}

fn clamp(x: i32) -> (v: i32)
    ensures
        v == clamped(x as int),
        0 <= v <= 255,
{
    if x < 0 {
        0
    } else if x > 255 {
        255
    } else {
        x
    }
}

fn color(k: i32, rgbs: (i32, i32, i32, i32), kk: i32, with: (i32, i32, i32, i32)) -> (c: (i32, i32, i32, i32))
    ensures
        c == if k == kk { with } else { rgbs },
{
    if k == kk {
        with
    } else {
        rgbs
    }
}

/// The color of a cell, as `0x00RRGGBB`.
pub fn render_cell(v: i32, row: i32, col: i32, frame: i32) -> (p: i32)
    ensures
        p == rendered(v, row, col, frame),
        0 <= p <= 0x00ff_ffff,
{
    let k = kind(v);
    proof {
        assert(0 <= ((v >> 8) & 15) <= 15) by (bit_vector);
    }
    let shade: i32 = ((v >> 8) & 15) - 8;
    let h = hash(row.wrapping_mul(977).wrapping_add(col) ^ frame.wrapping_mul(7));
    proof {
        assert(0 <= (h & 63) <= 63) by (bit_vector);
    }
    let flicker: i32 = h & 63;
    let rgbs: (i32, i32, i32, i32) = (14, 14, 20, 0);
    let rgbs = color(k, rgbs, SAND, (194, 168, 98, 5));
    let rgbs = color(k, rgbs, WATER, (40, 90, 205, 2));
    let rgbs = color(k, rgbs, OIL, (80, 55, 25, 2));
    let rgbs = color(k, rgbs, WOOD, (112, 72, 40, 4));
    let rgbs = color(k, rgbs, WALL, (82, 82, 92, 2));
    let rgbs = color(k, rgbs, FIRE, (255, 120, 30, 0));
    let rgbs = color(k, rgbs, SMOKE, (105, 105, 112, 3));
    let rgbs = color(k, rgbs, EMBER, (235, 80, 20, 0));
    let (r, g, b, s): (i32, i32, i32, i32) = rgbs;
    assert(-40 <= shade * s <= 40) by (nonlinear_arith)
        requires
            -8 <= shade <= 7,
            0 <= s <= 5,
    ;
    let r: i32 = clamp(r + shade * s);
    let g: i32 = g + shade * s;
    let b: i32 = clamp(b + shade * s);
    // Fire flickers between orange and yellow, embers glow.
    let g: i32 = select(k == FIRE, g + flicker * 2, g);
    let g: i32 = clamp(select(k == EMBER, g + flicker, g));
    r * 65536 + g * 256 + b
}

/// What color each element is, as `0x00RRGGBB`. Sand is a warm yellow, water blue,
/// oil and wood brown, walls and smoke gray, and empty space all but black. A shade
/// above or below the middle one of eight makes all three channels brighter or
/// darker by the same amount, which depends on the element. Fire is red with a
/// green that flickers upwards by up to 126, from frame to frame and from place to
/// place, and embers are a darker red whose green flickers half as far.
pub proof fn law_element_colors(v: i32, row: i32, col: i32, frame: i32, p: i32)
    requires
        call_ensures(render_cell, (v, row, col, frame), p),
    ensures
        ({
            let flicker = hashed(row.wrapping_mul(977).wrapping_add(col) ^ frame.wrapping_mul(7))
                & 63;
            let k = v & 255;
            let shade = ((v >> 8) & 15) - 8;
            &&& k == EMPTY ==> p == 0x0e0e14
            &&& k == SAND ==> p == 0xc2a862 + 5 * shade * 0x010101
            &&& k == WATER ==> p == 0x285acd + 2 * shade * 0x010101
            &&& k == OIL ==> p == 0x503719 + 2 * shade * 0x010101
            &&& k == WOOD ==> p == 0x704828 + 4 * shade * 0x010101
            &&& k == WALL ==> p == 0x52525c + 2 * shade * 0x010101
            &&& k == SMOKE ==> p == 0x696970 + 3 * shade * 0x010101
            &&& k == FIRE ==> p == 0xff781e + 2 * flicker * 0x100
            &&& k == EMBER ==> p == 0xeb5014 + flicker * 0x100
            &&& 0 <= flicker <= 63
        }),
{
    let h = hashed(row.wrapping_mul(977).wrapping_add(col) ^ frame.wrapping_mul(7));
    assert(0 <= (h & 63) <= 63) by (bit_vector);
    assert(0 <= ((v >> 8) & 15) <= 15) by (bit_vector);
}

/// The image of a buffer, ghost ring included.
pub open spec fn image_of(cells: Seq<i32>, cols: int, frame: i32) -> Seq<i32> {
    Seq::new(
        cells.len(),
        |i: int| rendered(cells[i], (i / cols) as i32, (i % cols) as i32, frame) as i32,
    )
}

/// The image of a buffer, ghost ring included, as `0x00RRGGBB`.
pub fn render(lay: &Layout, cells: &[i32], frame: i32) -> (out: Vec<i32>)
    requires
        lay.width() <= usize::MAX,
    ensures
        out@ == image_of(cells@, lay.width(), frame),
{
    let len: usize = cells.len();
    let cols: usize = lay.buf_cols();
    let out = par_map(
        len,
        |i: usize| -> (p: i32)
            requires
                len > i,
                len == cells@.len(),
                cols == lay.width(),
            ensures
                p == image_of(cells@, lay.width(), frame)[i as int],
            { render_cell(cells[i], (i / cols) as i32, (i % cols) as i32, frame) });
    assert(out@ =~= image_of(cells@, lay.width(), frame));
    out
}

/// What the hash makes of every position of a buffer.
pub open spec fn hashes(n: int, cols: int) -> Seq<i32> {
    Seq::new(n as nat, |i: int| hashed((i / cols * 4096 + i % cols) as i32))
}

/// The hash of `row * 4096 + col` for every cell of a buffer.
pub fn hash_grid(lay: &Layout) -> (out: Vec<i32>)
    requires
        lay.fits(),
        lay.height() * 4096 + lay.width() <= i32::MAX,
    ensures
        out@ == hashes(lay.size(), lay.width()),
{
    proof {
        lay.lemma_fits();
    }
    let (rows, cols): (usize, usize) = (lay.buf_rows(), lay.buf_cols());
    let len: usize = rows * cols;
    let out = par_map(
        len,
        |i: usize| -> (h: i32)
            requires
                len > i,
                len == rows * cols,
                rows == lay.height(),
                cols == lay.width(),
                lay.height() * 4096 + lay.width() <= i32::MAX,
            ensures
                h == hashes(lay.size(), lay.width())[i as int],
            {
                proof {
                    lemma_row_bound(i as int, rows as int, cols as int);
                }
                hash((i / cols) as i32 * 4096 + (i % cols) as i32)
            });
    assert(out@ =~= hashes(lay.size(), lay.width()));
    out
}

/// What salts the randomness of a pass of a frame.
pub open spec fn salt_of(frame: int, pass: int) -> int {
    frame * 64 + pass
}

/// A world after the first `n` passes of a frame.
pub open spec fn passed(lay: Layout, world: Seq<i32>, frame: int, n: nat) -> Seq<i32>
    decreases n,
{
    if n == 0 {
        world
    } else {
        let pass = n - 1;
        stepped(
            lay,
            passed(lay, world, frame, pass as nat),
            pass as i32,
            salt_of(frame, pass) as i32,
        )
    }
}

/// A world after a frame: paint goes on, and then the passes run.
pub open spec fn framed(
    lay: Layout,
    world: Seq<i32>,
    layer: Seq<i32>,
    frame: int,
    passes: nat,
) -> Seq<i32> {
    passed(lay, painted(world, layer), frame, passes)
}

/// One frame of a world: apply paint, run the passes.
pub fn run_frame(lay: &Layout, world: &[i32], layer: &[i32], frame: i32, passes: usize) -> (out: Vec<i32>)
    requires
        lay.fits(),
        world@.len() == lay.size(),
        layer@.len() == lay.size(),
        i32::MIN <= salt_of(frame as int, 0),
        salt_of(frame as int, passes as int) <= i32::MAX,
        passes <= i32::MAX,
    ensures
        out@ == framed(*lay, world@, layer@, frame as int, passes as nat),
{
    proof {
        lay.lemma_fits();
        lemma_step_fits(*lay);
    }
    let mut cells: Vec<i32> = paint(world, layer);
    let mut pass: usize = 0;
    while pass < passes
        invariant
            lay.fits(),
            lay.height() <= usize::MAX,
            2 * lay.width() <= usize::MAX,
            at(1, 0, lay.width()) <= lay.size(),
            pass <= passes,
            i32::MIN <= salt_of(frame as int, 0),
            salt_of(frame as int, passes as int) <= i32::MAX,
            passes <= i32::MAX,
            cells@.len() == lay.size(),
            cells@ == passed(*lay, painted(world@, layer@), frame as int, pass as nat),
        decreases passes - pass,
    {
        let p: i32 = pass as i32;
        proof {
            assert(0 <= (p & 1) <= 1) by (bit_vector);
            assert(0 * lay.width() == 0) by (nonlinear_arith);
        }
        cells = step(lay, &cells, p, frame * 64 + p);
        pass += 1;
    }
    cells
}

/// A layout that fits can be stepped.
proof fn lemma_step_fits(lay: Layout)
    requires
        lay.fits(),
    ensures
        2 * lay.width() <= usize::MAX,
        at(1, 0, lay.width()) <= lay.size(),
{
    let (h, w) = (lay.height(), lay.width());
    assert(2 * w <= h * w && 1 * w <= h * w) by (nonlinear_arith)
        requires
            h >= 64,
            w >= 64,
    ;
}

/// A kernel launch of a frame. Worlds ping-pong between two buffers.
#[derive(Clone, Copy, Debug)]
pub enum Launch {
    /// Paint the world in buffer `from` into the other one.
    Paint { from: usize },
    /// Step the world in buffer `from` into the other one.
    Step { from: usize, pass: usize },
    /// Draw the world in buffer `from`.
    Render { from: usize },
}

/// The launch of the `i`th pass of a frame of parity `parity`.
pub open spec fn step_launch(parity: int, i: int) -> Launch {
    Launch::Step { from: ((1 - parity + i) % 2) as usize, pass: i as usize }
}

/// The launches of a frame.
pub open spec fn plan_of(parity: int, passes: nat) -> Seq<Launch> {
    seq![Launch::Paint { from: parity as usize }] + Seq::new(
        passes,
        |i: int| step_launch(parity, i),
    ) + seq![Launch::Render { from: ((1 - parity + passes) % 2) as usize }]
}

/// One frame: apply paint, run the passes, render. Frame parity `p` reads
/// buffer `p`; the paint step writes the other one, and the even number of
/// passes brings the result back there, where the next frame reads it.
pub fn run(parity: usize, passes: usize) -> (plan: Vec<Launch>)
    requires
        parity < 2,
        passes < usize::MAX,
    ensures
        plan@ == plan_of(parity as int, passes as nat),
{
    let mut plan: Vec<Launch> = Vec::new();
    let (mut src, mut dst): (usize, usize) = (parity, 1 - parity);
    plan.push(Launch::Paint { from: src });
    let t: usize = src;
    src = dst;
    dst = t;
    let mut pass: usize = 0;
    while pass < passes
        invariant
            parity < 2,
            pass <= passes < usize::MAX,
            src == (1 - parity + pass) % 2,
            src + dst == 1,
            plan@ == seq![Launch::Paint { from: parity }] + Seq::new(
                pass as nat,
                |i: int| step_launch(parity as int, i),
            ),
        decreases passes - pass,
    {
        plan.push(Launch::Step { from: src, pass });
        let t: usize = src;
        src = dst;
        dst = t;
        pass += 1;
    }
    plan.push(Launch::Render { from: src });
    assert(plan@ =~= plan_of(parity as int, passes as nat));
    plan
}

/// Whether a number of passes brings a frame back to where it started: even,
/// and at least two.
pub fn passes_ok(passes: usize) -> (b: bool)
    ensures
        b == (passes >= 2 && passes % 2 == 0),
{
    passes >= 2 && passes % 2 == 0
}

/// The two worlds after a launch.
pub open spec fn launched(
    lay: Layout,
    layer: Seq<i32>,
    frame: int,
    worlds: Seq<Seq<i32>>,
    l: Launch,
) -> Seq<Seq<i32>> {
    match l {
        Launch::Paint { from } => worlds.update(1 - from, painted(worlds[from as int], layer)),
        Launch::Step { from, pass } => worlds.update(
            1 - from,
            stepped(
                lay,
                worlds[from as int],
                pass as i32,
                salt_of(frame, pass as int) as i32,
            ),
        ),
        Launch::Render { .. } => worlds,
    }
}

/// The two worlds after all of `ls`.
pub open spec fn all_launched(
    lay: Layout,
    layer: Seq<i32>,
    frame: int,
    worlds: Seq<Seq<i32>>,
    ls: Seq<Launch>,
) -> Seq<Seq<i32>>
    decreases ls.len(),
{
    if ls.len() == 0 {
        worlds
    } else {
        launched(
            lay,
            layer,
            frame,
            all_launched(lay, layer, frame, worlds, ls.drop_last()),
            ls.last(),
        )
    }
}

proof fn lemma_plan(
    lay: Layout,
    layer: Seq<i32>,
    frame: int,
    worlds: Seq<Seq<i32>>,
    parity: int,
    passes: nat,
    n: nat,
)
    requires
        worlds.len() == 2,
        0 <= parity < 2,
        n <= passes <= i32::MAX,
    ensures
        ({
            let plan = plan_of(parity, passes);
            let after = all_launched(lay, layer, frame, worlds, plan.take((n + 1) as int));
            &&& after.len() == 2
            &&& after[(1 - parity + n) % 2] == framed(lay, worlds[parity], layer, frame, n)
        }),
    decreases n,
{
    let plan = plan_of(parity, passes);
    if n == 0 {
        assert(plan.take(1).drop_last() =~= seq![]);
        assert(plan.take(1).last() == Launch::Paint { from: parity as usize });
        reveal_with_fuel(all_launched, 2);
    } else {
        let m = (n - 1) as nat;
        lemma_plan(lay, layer, frame, worlds, parity, passes, m);
        assert(plan.take((n + 1) as int).drop_last() =~= plan.take((m + 1) as int));
        assert(plan.take((n + 1) as int).last() == step_launch(parity, m as int));
        assert((1 - parity + n) % 2 == 1 - (1 - parity + m) % 2);
    }
}

/// A frame with an even number of passes leaves its world in the other buffer
/// than it came from, whatever was there, and draws it from there.
pub proof fn law_plan_frames(
    lay: Layout,
    layer: Seq<i32>,
    frame: int,
    worlds: Seq<Seq<i32>>,
    parity: int,
    passes: nat,
)
    requires
        worlds.len() == 2,
        0 <= parity < 2,
        passes <= i32::MAX,
        passes % 2 == 0,
    ensures
        ({
            let plan = plan_of(parity, passes);
            &&& all_launched(lay, layer, frame, worlds, plan)[1 - parity] == framed(
                lay,
                worlds[parity],
                layer,
                frame,
                passes,
            )
            &&& plan.last() == Launch::Render { from: (1 - parity) as usize }
        }),
{
    let plan = plan_of(parity, passes);
    lemma_plan(lay, layer, frame, worlds, parity, passes, passes);
    assert(plan.drop_last() =~= plan.take((passes + 1) as int));
    assert((1 - parity + passes) % 2 == 1 - parity);
}

/// The pass numbers, one every four elements.
pub fn pass_table(passes: usize) -> (table: Vec<i32>)
    requires
        4 * passes <= i32::MAX,
    ensures
        table@ == Seq::new(
            (4 * passes) as nat,
            |i: int|
                if i % 4 == 0 {
                    (i / 4) as i32
                } else {
                    0
                },
        ),
{
    let mut table: Vec<i32> = Vec::new();
    let mut p: usize = 0;
    while p < passes
        invariant
            p <= passes,
            4 * passes <= i32::MAX,
            table@.len() == 4 * p,
            forall|i: int|
                0 <= i < table@.len() ==> #[trigger] table@[i] == if i % 4 == 0 {
                    (i / 4) as i32
                } else {
                    0
                },
        decreases passes - p,
    {
        table.push(p as i32);
        table.push(0);
        table.push(0);
        table.push(0);
        p += 1;
    }
    table
}

/// The drawn frame without the ghost ring.
pub fn frame_pixels(lay: &Layout, buf: &[u32]) -> (pixels: Vec<u32>)
    requires
        lay.fits(),
        buf@.len() == lay.size(),
    ensures
        pixels@ == cropped(buf@, lay.width(), TILE as int, lay.rows as int, lay.cols as int),
{
    proof {
        lay.lemma_fits();
        lemma_crop_fits(
            buf@.len() as int,
            lay.height(),
            lay.width(),
            TILE as int,
            lay.rows as int,
            lay.cols as int,
        );
    }
    crop(buf, lay.buf_cols(), TILE, lay.rows, lay.cols)
}

/// No two of the first 64 passes of any frames share their randomness.
pub proof fn law_salts_differ(frame: int, pass: int, other: int, q: int)
    requires
        0 <= pass < 64,
        0 <= q < 64,
    ensures
        salt_of(frame, pass) == salt_of(other, q) <==> frame == other && pass == q,
        salt_of(frame, pass + 1) == salt_of(frame, pass) + 1,
        salt_of(0, pass) == pass,
{
}

/// A frame lays the paint on once and then runs its passes one after the other, each
/// with its number and a salt of its own.
pub proof fn law_one_pass_more(lay: Layout, world: Seq<i32>, layer: Seq<i32>, frame: int, n: nat)
    requires
        n <= i32::MAX,
        0 <= frame * 64 + n <= i32::MAX,
    ensures
        framed(lay, world, layer, frame, 0) == painted(world, layer),
        framed(lay, world, layer, frame, n + 1) == stepped(
            lay,
            framed(lay, world, layer, frame, n),
            n as i32,
            (frame * 64 + n) as i32,
        ),
{
}

/// Every pixel of an image shows the cell in its place.
pub proof fn law_image_shows_cells(cells: Seq<i32>, rows: int, cols: int, r: int, c: int, frame: i32)
    requires
        cells.len() == rows * cols,
        0 <= r < rows,
        0 <= c < cols,
    ensures
        image_of(cells, cols, frame).len() == cells.len(),
        image_of(cells, cols, frame)[r * cols + c] == rendered(
            cells[r * cols + c],
            r as i32,
            c as i32,
            frame,
        ) as i32,
{
    lemma_at(r, c, rows, cols);
    let i = at(r, c, cols);
    assert(image_of(cells, cols, frame)[i] == rendered(cells[i], r as i32, c as i32, frame) as i32);
}

/// The grid of hashes holds the hash of `4096 * r + c` for cell `(r, c)`, and a frame has an
/// even number of passes, two at least.
pub proof fn law_hash_grid(rows: int, cols: int, r: int, c: int, passes: usize, ok: bool)
    requires
        0 <= r < rows,
        0 <= c < cols,
        call_ensures(passes_ok, (passes,), ok),
    ensures
        hashes(rows * cols, cols).len() == rows * cols,
        hashes(rows * cols, cols)[r * cols + c] == hashed((4096 * r + c) as i32),
        ok <==> passes > 0 && passes % 2 == 0,
{
    lemma_at(r, c, rows, cols);
    let i = at(r, c, cols);
    assert(hashes(rows * cols, cols)[i] == hashed((i / cols * 4096 + i % cols) as i32));
}

} // verus!
