//! Jump flooding: every pixel learns the position of an occupied pixel near
//! it by looking at pixels ever shorter jumps away.
//!
//! A seed is the position of an occupied pixel, packed as
//! `(row + 8192) * 32768 + (col + 8192)`. Zero decodes to (-8192, -8192),
//! farther from every pixel than a real seed can be, so zero means "no seed"
//! without a special case.
use crate::grid::{at, lemma_at, lemma_cell_of, lemma_row_bound};
use crate::light2d::layout::{halvings, jumps, law_jumps, top_jump, Layout, TILE};
use crate::parallel::par_map;
use vstd::arithmetic::div_mod::lemma_fundamental_div_mod_converse;
use vstd::prelude::*;

verus! {

/// Added to rows and columns so that zero is a position far off the grid.
pub const BIAS: i32 = 8192;

/// The seed of position `(row, col)`.
pub open spec fn seed_of(row: int, col: int) -> int {
    (row + BIAS) * 32768 + col + BIAS
}

/// The row a seed stands for.
pub open spec fn seed_row(seed: i32) -> int {
    seed as int / 32768 - BIAS
}

/// The column a seed stands for.
pub open spec fn seed_col(seed: i32) -> int {
    seed as int % 32768 - BIAS
}

pub open spec fn square(x: int) -> int {
    x * x
}

/// The squared distance from pixel `(row, col)` to its seed.
pub open spec fn far2(seed: i32, row: int, col: int) -> int {
    square(seed_row(seed) - row) + square(seed_col(seed) - col)
}

/// Whether a squared distance can be computed in 32 bits.
pub open spec fn reaches(seed: i32, row: int, col: int) -> bool {
    far2(seed, row, col) <= i32::MAX
}

pub proof fn lemma_square(x: int)
    ensures
        0 <= square(x),
        square(-x) == square(x),
        x <= square(x),
        -x <= square(x),
{
    assert(0 <= x * x && (-x) * (-x) == x * x && x <= x * x && -x <= x * x) by (nonlinear_arith);
}

/// The smaller of two lengths has the smaller square.
pub proof fn lemma_square_le(x: int, y: int)
    requires
        -y <= x <= y,
    ensures
        square(x) <= square(y),
        -y < x < y ==> square(x) < square(y),
{
    assert(x * x <= y * y && (-y < x < y ==> x * x < y * y)) by (nonlinear_arith)
        requires
            -y <= x <= y,
    ;
}

/// A position can be read back from its seed, and no two positions share one.
pub proof fn law_seed_round_trip(row: int, col: int)
    requires
        -BIAS <= col < 32768 - BIAS,
        i32::MIN <= seed_of(row, col) <= i32::MAX,
    ensures
        seed_row(seed_of(row, col) as i32) == row,
        seed_col(seed_of(row, col) as i32) == col,
{
    lemma_fundamental_div_mod_converse(seed_of(row, col), 32768, row + BIAS, col + BIAS);
}

/// "No seed" stands for a position off the grid.
pub proof fn lemma_no_seed()
    ensures
        seed_row(0) == -BIAS,
        seed_col(0) == -BIAS,
{
}

/// The seed of position `(row, col)`.
pub fn encode(row: i32, col: i32) -> (seed: i32)
    requires
        -BIAS - 65536 <= row <= 65535 - BIAS,
        i32::MIN <= (row + BIAS) * 32768 + col <= i32::MAX,
        i32::MIN <= seed_of(row as int, col as int) <= i32::MAX,
    ensures
        seed == seed_of(row as int, col as int),
{
    (row + BIAS) * 32768 + col + BIAS
}

/// The position a seed stands for.
pub fn decode(seed: i32) -> (pos: (i32, i32))
    ensures
        pos.0 == seed_row(seed),
        pos.1 == seed_col(seed),
{
    proof {
        let (high, low) = (seed >> 15, seed & 32767);
        assert({
            &&& -65536 <= (seed >> 15) <= 65535
            &&& 0 <= (seed & 32767) < 32768
            &&& (seed >> 15) * 32768 + (seed & 32767) == seed
        }) by (bit_vector);
        lemma_fundamental_div_mod_converse(seed as int, 32768, high as int, low as int);
    }
    ((seed >> 15) - BIAS, (seed & 32767) - BIAS)
}

/// The squared distance from pixel `(row, col)` to its seed.
pub fn dist2(seed: i32, row: i32, col: i32) -> (d: i32)
    requires
        reaches(seed, row as int, col as int),
    ensures
        d == far2(seed, row as int, col as int),
{
    let (sr, sc): (i32, i32) = decode(seed);
    proof {
        lemma_square(sr - row);
        lemma_square(sc - col);
    }
    (sr - row) * (sr - row) + (sc - col) * (sc - col)
}

/// What pixel `i` of a scene starts with: itself where it is occupied.
pub open spec fn first_seed(scene: Seq<i32>, cols: int, i: int) -> int {
    if scene[i] != 0 {
        seed_of(i / cols, i % cols)
    } else {
        0
    }
}

/// Every occupied pixel is its own seed.
pub open spec fn seeded(scene: Seq<i32>, cols: int) -> Seq<i32> {
    Seq::new(scene.len(), |i: int| first_seed(scene, cols, i) as i32)
}

/// Whether the position of every occupied pixel can be packed.
pub open spec fn packable(scene: Seq<i32>, cols: int) -> bool {
    &&& cols <= i32::MAX
    &&& forall|i: int|
        0 <= i < scene.len() && scene[i] != 0 ==> #[trigger] first_seed(scene, cols, i) <= i32::MAX
}

/// Every occupied scene pixel becomes its own seed.
pub fn seed_init(lay: &Layout, scene: &[i32]) -> (out: Vec<i32>)
    requires
        lay.width() <= usize::MAX,
        packable(scene@, lay.width()),
    ensures
        out@ == seeded(scene@, lay.width()),
{
    let cols: usize = lay.buf_cols();
    let len: usize = scene.len();
    let out = par_map(
        len,
        |i: usize| -> (seed: i32)
            requires
                len > i,
                len == scene@.len(),
                cols == lay.width(),
                packable(scene@, lay.width()),
            ensures
                seed == first_seed(scene@, lay.width(), i as int),
            {
                if scene[i] != 0 {
                    proof {
                        lemma_cell_of(i as int, cols as int);
                        assert(first_seed(scene@, lay.width(), i as int) <= i32::MAX);
                    }
                    encode((i / cols) as i32, (i % cols) as i32)
                } else {
                    0
                }
            });
    assert(out@ =~= seeded(scene@, lay.width()));
    out
}

/// The seed at buffer pixel `(r, c)`; outside the buffer there is none.
pub open spec fn seed_at(lay: Layout, src: Seq<i32>, r: int, c: int) -> i32 {
    if 0 <= r < lay.height() && 0 <= c < lay.width() {
        src[at(r, c, lay.width())]
    } else {
        0
    }
}

/// `cand` where it is strictly closer to `(r, c)` than `best`.
pub open spec fn closer(best: i32, cand: i32, r: int, c: int) -> i32 {
    if far2(cand, r, c) < far2(best, r, c) {
        cand
    } else {
        best
    }
}

/// The closest of the nine seeds `k` pixels around `(r, c)`. Of seeds equally
/// close the first one wins: the pixel's own, then row by row.
pub open spec fn closest(lay: Layout, src: Seq<i32>, k: int, r: int, c: int) -> i32 {
    let b = seed_at(lay, src, r, c);
    let b = closer(b, seed_at(lay, src, r - k, c - k), r, c);
    let b = closer(b, seed_at(lay, src, r - k, c), r, c);
    let b = closer(b, seed_at(lay, src, r - k, c + k), r, c);
    let b = closer(b, seed_at(lay, src, r, c - k), r, c);
    let b = closer(b, seed_at(lay, src, r, c + k), r, c);
    let b = closer(b, seed_at(lay, src, r + k, c - k), r, c);
    let b = closer(b, seed_at(lay, src, r + k, c), r, c);
    closer(b, seed_at(lay, src, r + k, c + k), r, c)
}

/// What a pass at jump `k` leaves in buffer pixel `(r, c)`: the ghost ring
/// stays without a seed.
#[verifier::opaque]
pub open spec fn pixel_after(lay: Layout, src: Seq<i32>, k: int, r: int, c: int) -> i32 {
    if lay.inside(r, c) {
        closest(lay, src, k, r, c)
    } else {
        0
    }
}

/// The buffer after a pass at jump `k`.
pub open spec fn jumped(lay: Layout, src: Seq<i32>, k: int) -> Seq<i32> {
    Seq::new(
        src.len(),
        |i: int| pixel_after(lay, src, k, i / lay.width(), i % lay.width()),
    )
}

/// Whether the distances a pass compares at `(r, c)` can be computed.
pub open spec fn nine_reach(lay: Layout, src: Seq<i32>, k: int, r: int, c: int) -> bool {
    &&& reaches(seed_at(lay, src, r, c), r, c)
    &&& reaches(seed_at(lay, src, r - k, c - k), r, c)
    &&& reaches(seed_at(lay, src, r - k, c), r, c)
    &&& reaches(seed_at(lay, src, r - k, c + k), r, c)
    &&& reaches(seed_at(lay, src, r, c - k), r, c)
    &&& reaches(seed_at(lay, src, r, c + k), r, c)
    &&& reaches(seed_at(lay, src, r + k, c - k), r, c)
    &&& reaches(seed_at(lay, src, r + k, c), r, c)
    &&& reaches(seed_at(lay, src, r + k, c + k), r, c)
}

/// Whether a pass can be computed in 32 bits.
pub open spec fn can_jump(lay: Layout, src: Seq<i32>, k: int) -> bool {
    &&& src.len() == lay.size()
    &&& lay.size() <= i32::MAX
    &&& lay.height() + k <= i32::MAX
    &&& lay.width() + k <= i32::MAX
    &&& forall|r: int, c: int| lay.inside(r, c) ==> #[trigger] nine_reach(lay, src, k, r, c)
}

/// A pixel's surroundings in a buffer `rows x cols` large.
fn look(src: &[i32], rows: i32, cols: i32, r: i32, c: i32, Ghost(lay): Ghost<Layout>) -> (seed: i32)
    requires
        rows == lay.height(),
        cols == lay.width(),
        src@.len() == lay.size(),
        lay.size() <= i32::MAX,
    ensures
        seed == seed_at(lay, src@, r as int, c as int),
{
    if 0 <= r && r < rows && 0 <= c && c < cols {
        proof {
            lemma_at(r as int, c as int, rows as int, cols as int);
            assert(0 <= r * cols) by (nonlinear_arith)
                requires
                    0 <= r,
                    0 <= cols,
            ;
        }
        src[(r * cols + c) as usize]
    } else {
        0
    }
}

/// The closer of two seeds, the first one if they are equally close.
pub(crate) fn keep_closer(best: i32, cand: i32, r: i32, c: i32) -> (b: i32)
    requires
        reaches(best, r as int, c as int),
        reaches(cand, r as int, c as int),
    ensures
        b == closer(best, cand, r as int, c as int),
        reaches(b, r as int, c as int),
{
    if dist2(cand, r, c) < dist2(best, r, c) {
        cand
    } else {
        best
    }
}

/// The closest of the nine seeds around a pixel.
fn closest_of(src: &[i32], rows: i32, cols: i32, k: i32, r: i32, c: i32, Ghost(lay): Ghost<Layout>) -> (b: i32)
    requires
        rows == lay.height(),
        cols == lay.width(),
        k >= 0,
        can_jump(lay, src@, k as int),
        lay.inside(r as int, c as int),
    ensures
        b == closest(lay, src@, k as int, r as int, c as int),
{
    assert(nine_reach(lay, src@, k as int, r as int, c as int));
    let b = look(src, rows, cols, r, c, Ghost(lay));
    let b = keep_closer(b, look(src, rows, cols, r - k, c - k, Ghost(lay)), r, c);
    let b = keep_closer(b, look(src, rows, cols, r - k, c, Ghost(lay)), r, c);
    let b = keep_closer(b, look(src, rows, cols, r - k, c + k, Ghost(lay)), r, c);
    let b = keep_closer(b, look(src, rows, cols, r, c - k, Ghost(lay)), r, c);
    let b = keep_closer(b, look(src, rows, cols, r, c + k, Ghost(lay)), r, c);
    let b = keep_closer(b, look(src, rows, cols, r + k, c - k, Ghost(lay)), r, c);
    let b = keep_closer(b, look(src, rows, cols, r + k, c, Ghost(lay)), r, c);
    keep_closer(b, look(src, rows, cols, r + k, c + k, Ghost(lay)), r, c)
}

/// One pass: every world pixel keeps the closest of the nine seeds `k` pixels
/// around it. Pixels outside the buffer have no seed, and the ghost ring
/// stays without one.
pub fn jfa_step(lay: &Layout, src: &[i32], k: usize) -> (out: Vec<i32>)
    requires
        can_jump(*lay, src@, k as int),
    ensures
        out@ == jumped(*lay, src@, k as int),
{
    proof {
        lay.lemma_sides();
    }
    let len: usize = src.len();
    let (rows, cols): (usize, usize) = (lay.buf_rows(), lay.buf_cols());
    let out = par_map(
        len,
        |i: usize| -> (seed: i32)
            requires
                len > i,
                len == src@.len(),
                rows == lay.height(),
                cols == lay.width(),
                can_jump(*lay, src@, k as int),
            ensures
                seed == pixel_after(*lay, src@, k as int, i as int / lay.width(), i as int % lay.width()),
            {
                let (r, c): (usize, usize) = (i / cols, i % cols);
                proof {
                    reveal(pixel_after);
                    lemma_row_bound(i as int, rows as int, cols as int);
                    lay.lemma_sides();
                }
                if r >= TILE && c >= TILE {
                    closest_of(src, rows as i32, cols as i32, k as i32, r as i32, c as i32, Ghost(*lay))
                } else {
                    0
                }
            });
    assert(out@ =~= jumped(*lay, src@, k as int));
    out
}

/// A buffer after passes at each of `ks` in turn.
pub open spec fn flooded(lay: Layout, seeds: Seq<i32>, ks: Seq<int>) -> Seq<i32>
    decreases ks.len(),
{
    if ks.len() == 0 {
        seeds
    } else {
        jumped(lay, flooded(lay, seeds, ks.drop_last()), ks.last())
    }
}

/// Whether every distance from "no seed" can be computed, and so every
/// distance of a flood: both sides are at most 24576, say.
pub open spec fn can_flood(lay: Layout) -> bool {
    &&& square(lay.height() + 8191) + square(lay.width() + 8191) <= i32::MAX
}

/// Whether a seed is no farther off the grid than "no seed" is.
pub open spec fn near_grid(lay: Layout, seed: i32) -> bool {
    &&& -8192 <= seed_row(seed) <= lay.height() + 8191
    &&& -8192 <= seed_col(seed) <= lay.width() + 8191
}

/// Whether that holds of every seed of a buffer.
pub open spec fn all_near_grid(lay: Layout, src: Seq<i32>) -> bool {
    forall|i: int| 0 <= i < src.len() ==> near_grid(lay, #[trigger] src[i])
}

proof fn lemma_can_flood(lay: Layout)
    requires
        can_flood(lay),
    ensures
        lay.height() + 8191 <= 46340,
        lay.width() + 8191 <= 46340,
        lay.size() <= i32::MAX,
        lay.side() <= 38149,
{
    let (h, w) = (lay.height() + 8191, lay.width() + 8191);
    assert(h <= 46340 && w <= 46340) by (nonlinear_arith)
        requires
            h * h + w * w <= 0x7fff_ffff,
            h >= 0,
            w >= 0,
    ;
    let (a, b) = (lay.height(), lay.width());
    assert(a * b <= 38149 * 38149) by (nonlinear_arith)
        requires
            0 <= a <= 38149,
            0 <= b <= 38149,
    ;
}

/// Seeds near the grid are within reach of every pixel of it.
proof fn lemma_reaches(lay: Layout, seed: i32, r: int, c: int)
    requires
        can_flood(lay),
        near_grid(lay, seed),
        0 <= r < lay.height(),
        0 <= c < lay.width(),
    ensures
        reaches(seed, r, c),
{
    lemma_no_seed();
    lemma_square_le(seed_row(seed) - r, lay.height() + 8191);
    lemma_square_le(seed_col(seed) - c, lay.width() + 8191);
}

/// Flooding can go on: the seeds stay near the grid.
pub proof fn lemma_jump(lay: Layout, src: Seq<i32>, k: int)
    requires
        can_flood(lay),
        src.len() == lay.size(),
        all_near_grid(lay, src),
    ensures
        0 <= k <= lay.side() ==> can_jump(lay, src, k),
        all_near_grid(lay, jumped(lay, src, k)),
{
    lemma_can_flood(lay);
    assert forall|r: int, c: int| near_grid(lay, #[trigger] seed_at(lay, src, r, c)) by {
        if 0 <= r < lay.height() && 0 <= c < lay.width() {
            lemma_at(r, c, lay.height(), lay.width());
        }
    }
    assert forall|r: int, c: int| lay.inside(r, c) implies #[trigger] nine_reach(
        lay,
        src,
        k,
        r,
        c,
    ) by {
        lemma_reaches(lay, seed_at(lay, src, r, c), r, c);
        lemma_reaches(lay, seed_at(lay, src, r - k, c - k), r, c);
        lemma_reaches(lay, seed_at(lay, src, r - k, c), r, c);
        lemma_reaches(lay, seed_at(lay, src, r - k, c + k), r, c);
        lemma_reaches(lay, seed_at(lay, src, r, c - k), r, c);
        lemma_reaches(lay, seed_at(lay, src, r, c + k), r, c);
        lemma_reaches(lay, seed_at(lay, src, r + k, c - k), r, c);
        lemma_reaches(lay, seed_at(lay, src, r + k, c), r, c);
        lemma_reaches(lay, seed_at(lay, src, r + k, c + k), r, c);
    }
    assert forall|i: int| 0 <= i < src.len() implies near_grid(
        lay,
        #[trigger] jumped(lay, src, k)[i],
    ) by {
        reveal(pixel_after);
    }
}

/// The seeds a scene starts with are near the grid.
pub proof fn lemma_seeded(lay: Layout, scene: Seq<i32>)
    requires
        can_flood(lay),
        scene.len() == lay.size(),
    ensures
        packable(scene, lay.width()),
        all_near_grid(lay, seeded(scene, lay.width())),
{
    lemma_can_flood(lay);
    let w = lay.width();
    assert forall|i: int| 0 <= i < scene.len() implies #[trigger] first_seed(scene, w, i)
        <= i32::MAX && near_grid(lay, first_seed(scene, w, i) as i32) by {
        lemma_cell_of(i, w);
        lemma_row_bound(i, lay.height(), w);
        lemma_no_seed();
        let (r, c) = (i / w, i % w);
        let seed = seed_of(r, c);
        if c < 24576 {
            lemma_fundamental_div_mod_converse(seed, 32768, r + BIAS, c + BIAS);
        } else {
            lemma_fundamental_div_mod_converse(seed, 32768, r + BIAS + 1, c + BIAS - 32768);
        }
    }
    assert forall|i: int| 0 <= i < scene.len() implies near_grid(
        lay,
        #[trigger] seeded(scene, w)[i],
    ) by {
        assert(first_seed(scene, w, i) <= i32::MAX);
    }
}

/// Every prefix of a flood can be computed.
pub proof fn lemma_flooded(lay: Layout, seeds: Seq<i32>, ks: Seq<int>)
    requires
        can_flood(lay),
        seeds.len() == lay.size(),
        all_near_grid(lay, seeds),
    ensures
        flooded(lay, seeds, ks).len() == seeds.len(),
        all_near_grid(lay, flooded(lay, seeds, ks)),
    decreases ks.len(),
{
    if ks.len() > 0 {
        lemma_flooded(lay, seeds, ks.drop_last());
        lemma_jump(lay, flooded(lay, seeds, ks.drop_last()), ks.last());
    }
}

/// Where a flood of a scene ends.
pub open spec fn flood_of(lay: Layout, scene: Seq<i32>) -> Seq<i32> {
    flooded(lay, seeded(scene, lay.width()), jumps(lay.side()))
}

/// Where a flood of a scene is before its last pass, the extra one.
pub open spec fn plain_flood_of(lay: Layout, scene: Seq<i32>) -> Seq<i32> {
    flooded(lay, seeded(scene, lay.width()), jumps(lay.side()).drop_last())
}

/// Flood a scene: every world pixel ends with a seed near it.
pub fn jump_flood(lay: &Layout, scene: &[i32]) -> (seeds: Vec<i32>)
    requires
        scene@.len() == lay.size(),
        can_flood(*lay),
    ensures
        seeds@ == flood_of(*lay, scene@),
{
    proof {
        lemma_can_flood(*lay);
    }
    let ks: Vec<usize> = lay.jfa_offsets();
    let n: usize = ks.len();
    let seeds = flood_first(lay, scene, &ks, n);
    assert(jumps(lay.side()).take(n as int) =~= jumps(lay.side()));
    seeds
}

/// Flood a scene without the extra pass at the end.
pub fn plain_flood(lay: &Layout, scene: &[i32]) -> (seeds: Vec<i32>)
    requires
        scene@.len() == lay.size(),
        can_flood(*lay),
    ensures
        seeds@ == plain_flood_of(*lay, scene@),
{
    proof {
        lemma_can_flood(*lay);
        law_jumps(lay.side());
    }
    let ks: Vec<usize> = lay.jfa_offsets();
    assert(ks@.len() == jumps(lay.side()).len());
    let n: usize = ks.len() - 1;
    let seeds = flood_first(lay, scene, &ks, n);
    assert(jumps(lay.side()).take(n as int) =~= jumps(lay.side()).drop_last());
    seeds
}

/// The first `n` passes of a flood, at each of `ks` in turn.
fn flood_first(lay: &Layout, scene: &[i32], ks: &Vec<usize>, n: usize) -> (seeds: Vec<i32>)
    requires
        scene@.len() == lay.size(),
        can_flood(*lay),
        ks@.map_values(|k: usize| k as int) == jumps(lay.side()),
        n <= ks@.len(),
    ensures
        seeds@ == flooded(*lay, seeded(scene@, lay.width()), jumps(lay.side()).take(n as int)),
{
    proof {
        lemma_can_flood(*lay);
        lemma_seeded(*lay, scene@);
    }
    let ghost first = seeded(scene@, lay.width());
    let ghost all = jumps(lay.side());
    let mut seeds: Vec<i32> = seed_init(lay, scene);
    let mut i: usize = 0;
    proof {
        lemma_jumps_bound(lay.side());
        assert(all.take(0) =~= seq![]);
    }
    while i < n
        invariant
            can_flood(*lay),
            n <= ks@.len(),
            first.len() == lay.size(),
            all_near_grid(*lay, first),
            all == jumps(lay.side()),
            ks@.map_values(|k: usize| k as int) == all,
            forall|j: int| 0 <= j < all.len() ==> 0 <= #[trigger] all[j] <= lay.side(),
            i <= n,
            seeds@ == flooded(*lay, first, all.take(i as int)),
        decreases n - i,
    {
        proof {
            assert(all.len() == ks@.len());
            assert(all[i as int] == ks@[i as int]);
            lemma_flooded(*lay, first, all.take(i as int));
            lemma_jump(*lay, seeds@, ks@[i as int] as int);
            assert(all.take(i + 1).drop_last() =~= all.take(i as int));
        }
        seeds = jfa_step(lay, &seeds, ks[i]);
        i += 1;
    }
    seeds
}

/// No jump is as long as the buffer.
proof fn lemma_jumps_bound(n: int)
    requires
        n >= 2,
    ensures
        forall|j: int| 0 <= j < jumps(n).len() ==> 0 <= #[trigger] jumps(n)[j] <= n,
{
    law_jumps(n);
    lemma_halvings_bound(top_jump(n));
}

proof fn lemma_halvings_bound(k: int)
    ensures
        forall|j: int| 0 <= j < halvings(k).len() ==> 1 <= #[trigger] halvings(k)[j] <= k,
    decreases k,
{
    if k >= 1 {
        lemma_halvings_bound(k / 2);
        let rest = halvings(k / 2);
        assert forall|j: int| 0 <= j < halvings(k).len() implies 1 <= #[trigger] halvings(k)[j]
            <= k by {
            if j > 0 {
                assert(halvings(k)[j] == rest[j - 1]);
            }
        }
    }
}

/// The squared distance of every pixel to its seed, of which the distance is
/// the root.
pub open spec fn squared_distances(seeds: Seq<i32>, cols: int) -> Seq<int> {
    Seq::new(seeds.len(), |i: int| far2(seeds[i], i / cols, i % cols))
}

/// The squared distance of every pixel to its seed.
pub fn distance2(lay: &Layout, seeds: &[i32]) -> (out: Vec<i32>)
    requires
        lay.width() <= i32::MAX,
        lay.width() <= usize::MAX,
        seeds@.len() <= i32::MAX * lay.width(),
        forall|i: int|
            0 <= i < seeds@.len() ==> reaches(
                #[trigger] seeds@[i],
                i / lay.width(),
                i % lay.width(),
            ),
    ensures
        out@.map_values(|d: i32| d as int) == squared_distances(seeds@, lay.width()),
{
    let cols: usize = lay.buf_cols();
    let len: usize = seeds.len();
    let out = par_map(
        len,
        |i: usize| -> (d: i32)
            requires
                len > i,
                len == seeds@.len(),
                cols == lay.width(),
                lay.width() <= i32::MAX,
                seeds@.len() <= i32::MAX * lay.width(),
                reaches(seeds@[i as int], i as int / lay.width(), i as int % lay.width()),
            ensures
                d == squared_distances(seeds@, lay.width())[i as int],
            {
                proof {
                    lemma_row_bound(i as int, i32::MAX as int, cols as int);
                    lemma_cell_of(i as int, cols as int);
                }
                dist2(seeds[i], (i / cols) as i32, (i % cols) as i32)
            });
    assert(out@.map_values(|d: i32| d as int) =~= squared_distances(seeds@, lay.width()));
    out
}

/// The scene value under a seed, nothing where there is no seed.
pub open spec fn surface(scene: Seq<i32>, cols: int, seed: i32) -> i32 {
    if seed == 0 {
        0
    } else {
        scene[at(seed_row(seed), seed_col(seed), cols)]
    }
}

/// Whether a seed stands for a pixel of the scene.
pub open spec fn points_into(scene: Seq<i32>, cols: int, seed: i32) -> bool {
    seed != 0 ==> {
        &&& 0 <= seed_row(seed)
        &&& 0 <= seed_col(seed)
        &&& at(seed_row(seed), seed_col(seed), cols) < scene.len()
    }
}

/// The scene value (kind and color) of every pixel's seed.
pub fn nearest(seeds: &[i32], scene: &[i32], cols: usize) -> (out: Vec<i32>)
    requires
        forall|i: int|
            0 <= i < seeds@.len() ==> points_into(scene@, cols as int, #[trigger] seeds@[i]),
    ensures
        out@ == seeds@.map_values(|s: i32| surface(scene@, cols as int, s)),
{
    let len: usize = seeds.len();
    let area: usize = scene.len();
    let out = par_map(
        len,
        |i: usize| -> (v: i32)
            requires
                len > i,
                len == seeds@.len(),
                area == scene@.len(),
                points_into(scene@, cols as int, seeds@[i as int]),
            ensures
                v == surface(scene@, cols as int, seeds@[i as int]),
            {
                let s: i32 = seeds[i];
                if s == 0 {
                    0
                } else {
                    let (r, c): (i32, i32) = decode(s);
                    proof {
                        assert(0 <= r * cols) by (nonlinear_arith)
                            requires
                                0 <= r,
                        ;
                    }
                    scene[r as usize * cols + c as usize]
                }
            });
    assert(out@ =~= seeds@.map_values(|s: i32| surface(scene@, cols as int, s)));
    out
}

} // verus!
