//! How a flood runs on tiles: which views of a buffer a pass reads, and in
//! what order the passes are launched.
//!
//! A tile kernel can only load whole tiles, so a read `k` pixels away splits
//! into a view of the buffer shifted by less than a tile and a block index
//! some tiles away. Partial tiles are padded with zeros.
use crate::grid::{crop, cropped, lemma_crop_fits, lemma_row_bound};
use crate::light2d::cpu::{
    can_jump, flood_of, flooded, jumped, keep_closer, nine_reach, pixel_after, seed_at, seeded,
};
use crate::light2d::layout::{
    halvings, jumps, law_jumps, lemma_halvings, power, top_jump, Layout, TILE,
};
use crate::parallel::par_map;
use crate::tiles::load;
use vstd::prelude::*;

verus! {

/// The views and block offsets of a pass: pixels before the current one are
/// read from the view shifted by `behind`, `back` blocks on (a negative
/// number), those after it from the view shifted by `front`, `ahead` blocks on.
#[derive(Clone, Copy, Debug)]
pub struct Jump {
    pub behind: usize,
    pub back: i32,
    pub front: usize,
    pub ahead: i32,
}

/// How a jump of `k` pixels splits.
pub open spec fn split_of(k: int) -> Jump {
    if k < TILE {
        Jump { behind: (TILE - k) as usize, back: (-1) as i32, front: k as usize, ahead: 0 }
    } else {
        Jump { behind: 0, back: (-(k / 32)) as i32, front: 0, ahead: (k / 32) as i32 }
    }
}

/// The views and block offsets of a pass at jump `k`.
pub fn split(k: usize) -> (j: Jump)
    requires
        k <= i32::MAX,
    ensures
        j == split_of(k as int),
{
    if k < TILE {
        Jump { behind: TILE - k, back: -1, front: k, ahead: 0 }
    } else {
        let q: usize = k / TILE;
        let q: i32 = q as i32;
        Jump { behind: 0, back: -q, front: 0, ahead: q }
    }
}

/// Whether a jump can be read with whole tiles: it is shorter than a tile or a
/// whole number of tiles long.
pub open spec fn tileable(k: int) -> bool {
    0 < k < TILE || (k >= TILE && k % 32 == 0)
}

/// A shifted view at a block offset is `k` pixels away, exactly.
pub proof fn law_split(k: int)
    requires
        tileable(k),
        k <= i32::MAX,
    ensures
        split_of(k).behind + split_of(k).back * TILE == -k,
        split_of(k).front + split_of(k).ahead * TILE == k,
        split_of(k).behind < TILE,
        split_of(k).front < TILE,
{
}

/// Where a pass reads along one axis: the shift of the view, the block, and
/// whether that block is there at all. Blocks are clamped into the buffer, so
/// that every load is in range.
struct Reach {
    shift: usize,
    block: usize,
    ok: bool,
}

/// Where a read `d` pixels away along an axis of `n` pixels lands.
spec fn lands(r: Reach, i: int, a: int, d: int, n: int) -> bool {
    &&& r.shift <= TILE
    &&& r.block * TILE < n
    &&& if r.ok {
        r.block * TILE + a + r.shift == i * TILE + a + d
    } else {
        i * TILE + a + d < 0 || i * TILE + a + d >= n
    }
}

fn before(j: Jump, i: usize, n: usize, Ghost(k): Ghost<int>, Ghost(a): Ghost<int>) -> (r: Reach)
    requires
        tileable(k),
        k <= i32::MAX,
        j == split_of(k),
        n <= i32::MAX,
        i * TILE < n,
        i > 0,
        0 <= a < TILE,
    ensures
        lands(r, i as int, a, -k, n as int),
{
    proof {
        law_split(k);
    }
    let up: i32 = i as i32 + j.back;
    Reach { shift: j.behind, block: if up >= 0 { up as usize } else { 0 }, ok: up >= 0 }
}

fn after(j: Jump, i: usize, n: usize, Ghost(k): Ghost<int>, Ghost(a): Ghost<int>) -> (r: Reach)
    requires
        tileable(k),
        k + n <= i32::MAX,
        j == split_of(k),
        n % 32 == 0,
        i * TILE < n,
        0 <= a < TILE,
    ensures
        lands(r, i as int, a, k, n as int),
{
    proof {
        law_split(k);
    }
    let blocks: usize = n / TILE;
    let down: usize = i + j.ahead as usize;
    Reach {
        shift: j.front,
        block: if down < blocks { down } else { blocks - 1 },
        ok: down < blocks,
    }
}

fn here(i: usize, n: usize, Ghost(a): Ghost<int>) -> (r: Reach)
    requires
        i * TILE < n,
    ensures
        lands(r, i as int, a, 0, n as int),
{
    Reach { shift: 0, block: i, ok: true }
}

/// The seed a pass reads through one of its nine views.
fn read(src: &[i32], rows: usize, cols: usize, r: &Reach, c: &Reach, a: usize, b: usize, Ghost(lay): Ghost<Layout>, Ghost(at_r): Ghost<int>, Ghost(at_c): Ghost<int>) -> (v: i32)
    requires
        rows == lay.height(),
        cols == lay.width(),
        src@.len() == lay.size(),
        lay.size() <= i32::MAX,
        a < TILE,
        b < TILE,
        r.shift <= TILE,
        c.shift <= TILE,
        r.block * TILE < rows,
        c.block * TILE < cols,
        r.ok ==> r.block * TILE + a + r.shift == at_r,
        !r.ok ==> at_r < 0 || at_r >= rows,
        c.ok ==> c.block * TILE + b + c.shift == at_c,
        !c.ok ==> at_c < 0 || at_c >= cols,
    ensures
        v == seed_at(lay, src@, at_r, at_c),
{
    proof {
        lay.lemma_sides();
    }
    let v: i32 = load(src, rows, cols, TILE, r.shift, c.shift, r.block, c.block, a, b, 0);
    if r.ok && c.ok {
        v
    } else {
        0
    }
}

/// What the tile kernel stores at row `a`, column `b` of block `(i, j)`.
fn kernel_pixel(lay: &Layout, src: &[i32], rows: usize, cols: usize, k: usize, i: usize, j: usize, a: usize, b: usize) -> (seed: i32)
    requires
        can_jump(*lay, src@, k as int),
        tileable(k as int),
        rows == lay.height(),
        cols == lay.width(),
        rows % 32 == 0,
        cols % 32 == 0,
        i * TILE < rows,
        j * TILE < cols,
        a < TILE,
        b < TILE,
    ensures
        seed == pixel_after(*lay, src@, k as int, i * TILE + a, j * TILE + b),
{
    let ghost (gr, gc) = (i * TILE + a, j * TILE + b);
    proof {
        reveal(pixel_after);
        lay.lemma_sides();
    }
    if i == 0 || j == 0 {
        0
    } else {
        assert(nine_reach(*lay, src@, k as int, gr, gc));
        let s: Jump = split(k);
        let up = before(s, i, rows, Ghost(k as int), Ghost(a as int));
        let mid = here(i, rows, Ghost(a as int));
        let down = after(s, i, rows, Ghost(k as int), Ghost(a as int));
        let left = before(s, j, cols, Ghost(k as int), Ghost(b as int));
        let own = here(j, cols, Ghost(b as int));
        let right = after(s, j, cols, Ghost(k as int), Ghost(b as int));
        let (r, c): (i32, i32) = ((i * TILE + a) as i32, (j * TILE + b) as i32);
        let ghost n = k as int;
        let best = read(src, rows, cols, &mid, &own, a, b, Ghost(*lay), Ghost(gr), Ghost(gc));
        let t = read(src, rows, cols, &up, &left, a, b, Ghost(*lay), Ghost(gr - n), Ghost(gc - n));
        let best = keep_closer(best, t, r, c);
        let t = read(src, rows, cols, &up, &own, a, b, Ghost(*lay), Ghost(gr - n), Ghost(gc));
        let best = keep_closer(best, t, r, c);
        let t = read(src, rows, cols, &up, &right, a, b, Ghost(*lay), Ghost(gr - n), Ghost(gc + n));
        let best = keep_closer(best, t, r, c);
        let t = read(src, rows, cols, &mid, &left, a, b, Ghost(*lay), Ghost(gr), Ghost(gc - n));
        let best = keep_closer(best, t, r, c);
        let t = read(src, rows, cols, &mid, &right, a, b, Ghost(*lay), Ghost(gr), Ghost(gc + n));
        let best = keep_closer(best, t, r, c);
        let t = read(src, rows, cols, &down, &left, a, b, Ghost(*lay), Ghost(gr + n), Ghost(gc - n));
        let best = keep_closer(best, t, r, c);
        let t = read(src, rows, cols, &down, &own, a, b, Ghost(*lay), Ghost(gr + n), Ghost(gc));
        let best = keep_closer(best, t, r, c);
        let t = read(src, rows, cols, &down, &right, a, b, Ghost(*lay), Ghost(gr + n), Ghost(gc + n));
        keep_closer(best, t, r, c)
    }
}

/// A pass computed tile by tile, as the kernel does: the same as the plain
/// pass, pixel for pixel.
pub fn jfa_step_tiled(lay: &Layout, src: &[i32], k: usize) -> (out: Vec<i32>)
    requires
        can_jump(*lay, src@, k as int),
        tileable(k as int),
        lay.rows % TILE == 0,
        lay.cols % TILE == 0,
    ensures
        out@ == jumped(*lay, src@, k as int),
{
    proof {
        lay.lemma_sides();
    }
    let len: usize = src.len();
    let (rows, cols): (usize, usize) = (lay.buf_rows(), lay.buf_cols());
    let out = par_map(
        len,
        |p: usize| -> (seed: i32)
            requires
                len > p,
                len == src@.len(),
                rows == lay.height(),
                cols == lay.width(),
                can_jump(*lay, src@, k as int),
                tileable(k as int),
                lay.rows % TILE == 0,
                lay.cols % TILE == 0,
            ensures
                seed == pixel_after(*lay, src@, k as int, p as int / lay.width(), p as int % lay.width()),
            {
                let (r, c): (usize, usize) = (p / cols, p % cols);
                proof {
                    lemma_row_bound(p as int, rows as int, cols as int);
                }
                kernel_pixel(lay, src, rows, cols, k, r / TILE, c / TILE, r % TILE, c % TILE)
            });
    assert(out@ =~= jumped(*lay, src@, k as int));
    out
}

/// Every jump of a flood can be read with whole tiles.
pub proof fn law_jumps_tileable(n: int, i: int)
    requires
        n >= 2,
        0 <= i < jumps(n).len(),
    ensures
        tileable(jumps(n)[i]),
{
    law_jumps(n);
    let e = choose|e: nat| top_jump(n) == power(e);
    lemma_halvings(e);
    if i < halvings(power(e)).len() {
        lemma_power_tileable((e - i) as nat);
    }
}

proof fn lemma_power_tileable(e: nat)
    ensures
        tileable(power(e)),
    decreases e,
{
    if e > 5 {
        lemma_power_tileable((e - 1) as nat);
        if e == 6 {
            reveal_with_fuel(power, 8);
        } else {
            lemma_power_large((e - 1) as nat);
        }
    } else {
        reveal_with_fuel(power, 7);
    }
}

proof fn lemma_power_large(e: nat)
    requires
        e >= 5,
    ensures
        power(e) >= 32,
    decreases e,
{
    if e > 5 {
        lemma_power_large((e - 1) as nat);
    } else {
        reveal_with_fuel(power, 7);
    }
}

/// A kernel launch of a flood. Seeds ping-pong between two buffers.
#[derive(Clone, Copy, Debug)]
pub enum Launch {
    /// Seed buffer 0 from the scene.
    SeedInit,
    /// Read seeds from buffer `from`, write the other one.
    Step { from: usize, k: usize },
    /// Take the distance field from buffer `from`.
    Distance { from: usize },
    /// Look up the nearest surfaces through buffer `from`.
    Nearest { from: usize },
}

/// The launch of the `i`th pass.
pub open spec fn step_launch(ks: Seq<int>, i: int) -> Launch {
    Launch::Step { from: (i % 2) as usize, k: ks[i] as usize }
}

/// The launches of a flood with jumps `ks`.
pub open spec fn plan_of(ks: Seq<int>) -> Seq<Launch> {
    let last = (ks.len() % 2) as usize;
    seq![Launch::SeedInit] + Seq::new(ks.len(), |i: int| step_launch(ks, i)) + seq![
        Launch::Distance { from: last },
        Launch::Nearest { from: last },
    ]
}

/// The two seed buffers after a launch.
pub open spec fn launched(lay: Layout, scene: Seq<i32>, bufs: Seq<Seq<i32>>, l: Launch) -> Seq<
    Seq<i32>,
> {
    match l {
        Launch::SeedInit => bufs.update(0, seeded(scene, lay.width())),
        Launch::Step { from, k } => bufs.update(1 - from, jumped(lay, bufs[from as int], k as int)),
        Launch::Distance { .. } => bufs,
        Launch::Nearest { .. } => bufs,
    }
}

/// The two seed buffers after all of `ls`.
pub open spec fn all_launched(
    lay: Layout,
    scene: Seq<i32>,
    bufs: Seq<Seq<i32>>,
    ls: Seq<Launch>,
) -> Seq<Seq<i32>>
    decreases ls.len(),
{
    if ls.len() == 0 {
        bufs
    } else {
        launched(lay, scene, all_launched(lay, scene, bufs, ls.drop_last()), ls.last())
    }
}

/// Which of the two seed buffers holds the result: fixed by the pass count.
pub fn final_seeds(lay: &Layout) -> (i: usize)
    requires
        lay.height() <= usize::MAX,
        lay.width() <= usize::MAX,
    ensures
        i == jumps(lay.side()).len() % 2,
{
    let ks = lay.jfa_offsets();
    assert(ks@.map_values(|k: usize| k as int).len() == ks@.len());
    ks.len() % 2
}

/// Seed, flood, then derive the distance and nearest-surface fields.
pub fn flood(lay: &Layout) -> (plan: Vec<Launch>)
    requires
        lay.height() <= usize::MAX,
        lay.width() <= usize::MAX,
    ensures
        plan@ == plan_of(jumps(lay.side())),
{
    let ks = lay.jfa_offsets();
    let ghost all = jumps(lay.side());
    assert(ks@.map_values(|k: usize| k as int) == all);
    let mut plan: Vec<Launch> = Vec::new();
    plan.push(Launch::SeedInit);
    let mut i: usize = 0;
    while i < ks.len()
        invariant
            i <= ks@.len(),
            ks@.map_values(|k: usize| k as int) == all,
            plan@ == seq![Launch::SeedInit] + Seq::new(i as nat, |i: int| step_launch(all, i)),
        decreases ks.len() - i,
    {
        assert(all[i as int] == ks@[i as int]);
        plan.push(Launch::Step { from: i % 2, k: ks[i] });
        i += 1;
    }
    let last: usize = i % 2;
    assert(all.len() == ks@.len());
    plan.push(Launch::Distance { from: last });
    plan.push(Launch::Nearest { from: last });
    assert(plan@ =~= plan_of(all));
    plan
}

proof fn lemma_plan(lay: Layout, scene: Seq<i32>, bufs: Seq<Seq<i32>>, ks: Seq<int>, n: nat)
    requires
        bufs.len() == 2,
        n <= ks.len(),
        forall|i: int| 0 <= i < ks.len() ==> 0 <= #[trigger] ks[i] <= usize::MAX,
    ensures
        ({
            let after = all_launched(lay, scene, bufs, plan_of(ks).take((n + 1) as int));
            &&& after.len() == 2
            &&& after[n as int % 2] == flooded(lay, seeded(scene, lay.width()), ks.take(n as int))
        }),
    decreases n,
{
    let plan = plan_of(ks);
    if n == 0 {
        assert(plan.take(1).drop_last() =~= seq![]);
        assert(plan.take(1).last() == Launch::SeedInit);
        assert(ks.take(0) =~= seq![]);
        reveal_with_fuel(all_launched, 2);
    } else {
        let m = (n - 1) as nat;
        lemma_plan(lay, scene, bufs, ks, m);
        assert(plan.take((n + 1) as int).drop_last() =~= plan.take((m + 1) as int));
        assert(plan.take((n + 1) as int).last() == step_launch(ks, m as int));
        assert(ks.take(n as int).drop_last() =~= ks.take(m as int));
        assert(ks.take(n as int).last() == ks[m as int]);
        assert(n as int % 2 == 1 - m as int % 2);
    }
}

/// The launches of a flood leave its result in the final seed buffer, whatever
/// the two buffers held before, and both fields are taken from there.
pub proof fn law_plan_floods(lay: Layout, scene: Seq<i32>, bufs: Seq<Seq<i32>>)
    requires
        bufs.len() == 2,
        lay.height() <= usize::MAX,
        lay.width() <= usize::MAX,
    ensures
        ({
            let ks = jumps(lay.side());
            let last = ks.len() as int % 2;
            let plan = plan_of(ks);
            &&& all_launched(lay, scene, bufs, plan)[last] == flood_of(lay, scene)
            &&& plan[plan.len() - 2] == Launch::Distance { from: last as usize }
            &&& plan[plan.len() - 1] == Launch::Nearest { from: last as usize }
        }),
{
    let ks = jumps(lay.side());
    let plan = plan_of(ks);
    let n = ks.len();
    law_jumps(lay.side());
    let e = choose|e: nat| top_jump(lay.side()) == power(e);
    lemma_halvings(e);
    assert forall|i: int| 0 <= i < ks.len() implies 0 <= #[trigger] ks[i] <= usize::MAX by {
        if i < halvings(power(e)).len() {
            lemma_power_le((e - i) as nat, e);
        }
    }
    lemma_plan(lay, scene, bufs, ks, n);
    assert(ks.take(n as int) =~= ks);
    let before = plan.take((n + 1) as int);
    assert(plan.drop_last().drop_last() =~= before);
    assert(plan.drop_last().last() == Launch::Distance { from: (n as int % 2) as usize });
    assert(plan.last() == Launch::Nearest { from: (n as int % 2) as usize });
    let done = all_launched(lay, scene, bufs, before);
    assert(all_launched(lay, scene, bufs, plan.drop_last()) == launched(
        lay,
        scene,
        done,
        plan.drop_last().last(),
    ));
}

proof fn lemma_power_le(a: nat, b: nat)
    requires
        a <= b,
    ensures
        0 < power(a) <= power(b),
    decreases b,
{
    if a < b {
        lemma_power_le(a, (b - 1) as nat);
    } else if a > 0 {
        lemma_power_le((a - 1) as nat, (a - 1) as nat);
    }
}

/// The light buffers of a frame: which one is read and which is written.
/// Even frames read the first, odd frames the second.
pub fn light_buffers(parity: usize) -> (b: (usize, usize))
    requires
        parity < 2,
    ensures
        b == (parity, (1 - parity) as usize),
{
    if parity == 0 {
        (0, 1)
    } else {
        (1, 0)
    }
}

/// The composed frame without the ghost ring.
pub fn frame_pixels(lay: &Layout, buf: &[u32]) -> (pixels: Vec<u32>)
    requires
        lay.fits(),
        buf@.len() == lay.size(),
    ensures
        pixels@ == cropped(buf@, lay.width(), TILE as int, lay.rows as int, lay.cols as int),
{
    proof {
        lay.lemma_fits();
        lemma_crop_fits(
            buf@.len() as int,
            lay.height(),
            lay.width(),
            TILE as int,
            lay.rows as int,
            lay.cols as int,
        );
    }
    crop(buf, lay.buf_cols(), TILE, lay.rows, lay.cols)
}

} // verus!
