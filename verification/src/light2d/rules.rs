//! What distances, scenes and rays are in plain numbers.
use crate::brush::Stamp;
use crate::grid::{at, lemma_at};
use crate::light2d::check::missed;
use crate::light2d::cpu::{
    closest, distance2, far2, flood_of, flooded, jump_flood, jumped, nearest, pixel_after, seed_at, seed_of, seeded, squared_distances,
    surface,
};
use crate::light2d::exact::{between2, exact_dist2, height_at, is_exact, is_lowest, occupied};
use crate::light2d::laws::packs;
use crate::light2d::layout::{jumps, Layout};
use crate::light2d::ray::{is_cast, is_lit, is_sight, read_at, seen, Sight};
use crate::light2d::scene::{
    box_of, demo_pillars, demo_room, demo_scene, disc_of, drawn, filled, law_pack, packed,
    random_discs, random_dots, random_scene, spot, swept, under, Canvas,
};
use crate::light2d::session::color_of;
use crate::light2d::view;
use crate::light2d::view::budget;
use crate::random::{high31, state_after};
use vstd::prelude::*;

verus! {

/// A buffer is a world with one tile of ghosts above it and one to the left.
pub proof fn law_buffer_size(lay: Layout, r: int, c: int)
    ensures
        lay.height() == lay.rows + 32,
        lay.width() == lay.cols + 32,
        lay.size() == (lay.rows + 32) * (lay.cols + 32),
        lay.inside(r, c) <==> 32 <= r < lay.rows + 32 && 32 <= c < lay.cols + 32,
        lay.side() >= lay.rows + 32,
        lay.side() >= lay.cols + 32,
        lay.side() == lay.rows + 32 || lay.side() == lay.cols + 32,
{
}

/// A seed is its row and its column, and its distance is the straight one.
pub proof fn law_distance_is_straight(row: int, col: int, r: int, c: int, seed: i32)
    requires
        -8192 <= row < 0x8000,
        -8192 <= col < 0x6000,
        seed == (row + 8192) * 32768 + (col + 8192),
    ensures
        seed_of(row, col) == seed,
        far2(seed, r, c) == (row - r) * (row - r) + (col - c) * (col - c),
{
    assert(seed as int / 32768 == row + 8192 && seed as int % 32768 == col + 8192);
}

/// Every painted pixel starts with its own seed, and no other one with any.
pub proof fn law_paint_is_seeded(lay: Layout, scene: Seq<i32>, r: int, c: int)
    requires
        packs(lay),
        scene.len() == (lay.rows + 32) * (lay.cols + 32),
        0 <= r < lay.rows + 32,
        0 <= c < lay.cols + 32,
    ensures
        ({
            let w = lay.cols + 32;
            let seed = seeded(scene, w)[r * w + c];
            &&& scene[r * w + c] == 0 ==> seed == 0
            &&& scene[r * w + c] != 0 ==> seed as int == (r + 8192) * 32768 + (c + 8192)
        }),
{
    let w = lay.width();
    lemma_at(r, c, lay.height(), w);
    let i = at(r, c, w);
    assert(seeded(scene, w)[i] == crate::light2d::cpu::first_seed(scene, w, i) as i32);
    let (h, v) = (lay.height(), lay.width());
    assert(h <= 38150) by (nonlinear_arith)
        requires
            (h + 8191) * (h + 8191) + (v + 8191) * (v + 8191) <= 0x7fff_ffff,
            h >= 0,
            v >= 0,
    ;
}

/// Which of nine seeds a pixel takes where several are equally close: its own one first,
/// then those around it row by row. A seed that is no farther than any other, and closer
/// than those before it, is the one.
pub proof fn law_first_of_the_closest(lay: Layout, src: Seq<i32>, k: int, r: int, c: int, m: int)
    requires
        src.len() == lay.size(),
        32 <= r < lay.rows + 32,
        32 <= c < lay.cols + 32,
        0 <= m < 9,
    ensures
        ({
            let look = |dr: int, dc: int| seed_at(lay, src, r + dr, c + dc);
            let nine = seq![
                look(0, 0),
                look(-k, -k),
                look(-k, 0),
                look(-k, k),
                look(0, -k),
                look(0, k),
                look(k, -k),
                look(k, 0),
                look(k, k),
            ];
            let far = |n: int| far2(nine[n], r, c);
            (forall|n: int| 0 <= n < 9 ==> far(m) <= #[trigger] far(n)) && (forall|n: int|
                0 <= n < m ==> far(m) < #[trigger] far(n)) ==> jumped(lay, src, k)[r * (lay.cols
                + 32) + c] == nine[m]
        }),
{
    lemma_at(r, c, lay.height(), lay.width());
    let i = at(r, c, lay.width());
    reveal(pixel_after);
    assert(jumped(lay, src, k)[i] == pixel_after(lay, src, k, i / lay.width(), i % lay.width()));
    assert(jumped(lay, src, k)[i] == closest(lay, src, k, r, c));
    let look = |dr: int, dc: int| seed_at(lay, src, r + dr, c + dc);
    let nine = seq![
        look(0, 0),
        look(-k, -k),
        look(-k, 0),
        look(-k, k),
        look(0, -k),
        look(0, k),
        look(k, -k),
        look(k, 0),
        look(k, k),
    ];
    let far = |n: int| far2(nine[n], r, c);
    if (forall|n: int| 0 <= n < 9 ==> far(m) <= #[trigger] far(n)) && (forall|n: int|
        0 <= n < m ==> far(m) < #[trigger] far(n)) {
        let b0 = nine[0];
        assert(far(0) == far2(nine[0], r, c) && far(1) == far2(nine[1], r, c) && far(2) == far2(
            nine[2],
            r,
            c,
        ) && far(3) == far2(nine[3], r, c) && far(4) == far2(nine[4], r, c) && far(5) == far2(
            nine[5],
            r,
            c,
        ) && far(6) == far2(nine[6], r, c) && far(7) == far2(nine[7], r, c) && far(8) == far2(
            nine[8],
            r,
            c,
        ));
    }
}

/// What lies outside the buffer has no seed.
pub proof fn law_no_seed_outside(lay: Layout, src: Seq<i32>, r: int, c: int)
    ensures
        ({
            let s = seed_at(lay, src, r, c);
            if 0 <= r < lay.rows + 32 && 0 <= c < lay.cols + 32 {
                s == src[r * (lay.cols + 32) + c]
            } else {
                s == 0
            }
        }),
{
}

/// A flood is its passes, one after the other, and it takes all the jumps that the longer
/// side of the buffer asks for.
pub proof fn law_one_jump_more(lay: Layout, scene: Seq<i32>, seeds: Seq<i32>, ks: Seq<int>, k: int)
    ensures
        flooded(lay, seeds, seq![]) == seeds,
        flooded(lay, seeds, ks.push(k)) == jumped(lay, flooded(lay, seeds, ks), k),
        lay.rows <= lay.cols ==> flood_of(lay, scene) == flooded(
            lay,
            seeded(scene, lay.cols + 32),
            jumps(lay.cols + 32),
        ),
        lay.cols <= lay.rows ==> flood_of(lay, scene) == flooded(
            lay,
            seeded(scene, lay.cols + 32),
            jumps(lay.rows + 32),
        ),
{
    assert(ks.push(k).drop_last() =~= ks);
}

/// The field of distances and the field of surfaces, pixel by pixel: how far it is to the
/// seed, squared, and what is painted under the seed.
pub proof fn law_fields_of_seeds(
    scene: Seq<i32>,
    seeds: Seq<i32>,
    rows: int,
    cols: int,
    r: int,
    c: int,
    row: int,
    col: int,
)
    requires
        seeds.len() == rows * cols,
        0 <= r < rows,
        0 <= c < cols,
        0 <= row < 0x8000,
        0 <= col < 0x6000,
        seeds[r * cols + c] == (row + 8192) * 32768 + (col + 8192),
    ensures
        squared_distances(seeds, cols)[r * cols + c] == (row - r) * (row - r) + (col - c) * (col
            - c),
        surface(scene, cols, seeds[r * cols + c]) == scene[row * cols + col],
        surface(scene, cols, 0) == 0,
{
    lemma_at(r, c, rows, cols);
    law_distance_is_straight(row, col, r, c, seeds[r * cols + c]);
    let i = at(r, c, cols);
    assert(squared_distances(seeds, cols)[i] == far2(seeds[i], r, c));
}

/// An exact distance belongs to a painted pixel, and no painted pixel is closer. Where
/// there is none, nothing is painted.
pub proof fn law_exact_is_nearest(
    lay: Layout,
    scene: Seq<i32>,
    r: int,
    c: int,
    d: Option<u64>,
    row: int,
    col: int,
)
    requires
        is_exact(lay, scene, r, c, d),
        0 <= row < lay.rows + 32,
        0 <= col < lay.cols + 32,
        scene[row * (lay.cols + 32) + col] != 0,
    ensures
        d is Some,
        d->0 <= (r - row) * (r - row) + (c - col) * (c - col),
        exists|y: int, x: int|
            0 <= y < lay.rows + 32 && 0 <= x < lay.cols + 32 && #[trigger] scene[y * (lay.cols
                + 32) + x] != 0 && d->0 == (r - y) * (r - y) + (c - x) * (c - x),
{
    assert(occupied(lay, scene, row, col));
    let v = d->0;
    let (y, x) = choose|y: int, x: int| #[trigger]
        occupied(lay, scene, y, x) && v == between2(r, c, y, x);
    assert(scene[y * (lay.cols + 32) + x] != 0);
}

/// The lowest of several parabolas at `x`: it belongs to one of them, and none is lower.
pub proof fn law_lowest_parabola(f: Seq<Option<u64>>, x: int, d: Option<u64>, p: int)
    requires
        is_lowest(f, x, d),
        0 <= p < f.len(),
        f[p] is Some,
    ensures
        d is Some,
        d->0 <= (x - p) * (x - p) + f[p]->0,
        exists|q: int|
            0 <= q < f.len() && (#[trigger] f[q]) is Some && d->0 == (x - q) * (x - q) + f[q]->0,
{
    let v = d->0;
    let q = choose|q: int| 0 <= q < f.len() && (#[trigger] f[q]) is Some && v == height_at(f, q, x);
    assert(f[q] is Some);
}

/// What one world pixel more adds to the misses: both distances where the exact one is
/// another than the squared distance to its seed, or is missing, and nothing otherwise.
pub proof fn law_one_miss_more(
    lay: Layout,
    seeds: Seq<i32>,
    exact: Seq<Option<u64>>,
    r: int,
    c: int,
    n: nat,
)
    requires
        0 <= r < lay.rows,
        0 <= c < lay.cols,
        n == r * lay.cols + c,
    ensures
        ({
            let i = (r + 32) * (lay.cols + 32) + (c + 32);
            let far = far2(seeds[i], r + 32, c + 32);
            let (old, new) = (missed(lay, seeds, exact, n), missed(lay, seeds, exact, n + 1));
            &&& exact[i] is Some && exact[i]->0 == far ==> new == old
            &&& exact[i] is None || exact[i]->0 != far ==> new == old.push(
                (far as i32, exact[i]),
            )
        }),
        missed(lay, seeds, exact, 0).len() == 0,
{
    lemma_at(r, c, lay.rows as int, lay.cols as int);
    assert(at(r, c, lay.cols as int) == n);
}

/// Outside the buffer a ray reads the pixel that is nearest: no row and no column of the
/// buffer is closer to where it is.
pub proof fn law_reads_nearest(lay: Layout, row: int, col: int, r: int, c: int)
    requires
        0 <= r < lay.rows + 32,
        0 <= c < lay.cols + 32,
    ensures
        exists|y: int, x: int|
            #![trigger at(y, x, lay.width())]
            {
                let off = |a: int, b: int|
                    if a < b {
                        b - a
                    } else {
                        a - b
                    };
                &&& read_at(lay, row, col) == y * (lay.cols + 32) + x
                &&& 0 <= y < lay.rows + 32 && 0 <= x < lay.cols + 32
                &&& off(row, y) <= off(row, r) && off(col, x) <= off(col, c)
            },
{
    let (h, w) = (lay.height(), lay.width());
    let y = if row < 0 {
        0
    } else if row > h - 1 {
        h - 1
    } else {
        row
    };
    let x = if col < 0 {
        0
    } else if col > w - 1 {
        w - 1
    } else {
        col
    };
    assert(read_at(lay, row, col) == at(y, x, w));
}

/// What a ray sees: the color of the light that it lands on, nothing of a wall, and the
/// sky where it lands nowhere.
pub proof fn law_sight_is_where_it_lands<
    P,
    M: Fn(usize, i32) -> P,
    L: Fn(P) -> (bool, i32, i32),
    A: Fn(P, i32) -> P,
>(
    lay: Layout,
    dist2: Seq<i32>,
    scene: Seq<i32>,
    steps: nat,
    aim: M,
    look: L,
    advance: A,
    i: usize,
    ray: i32,
    s: Sight,
    landed: Option<usize>,
    r: u8,
    g: u8,
    b: u8,
)
    requires
        is_sight(lay, dist2, scene, steps, aim, look, advance, i, ray, s),
        forall|way: Seq<P>, hit: Option<usize>| #[trigger]
            is_cast(lay, dist2, steps, look, advance, way, hit) && call_ensures(
                aim,
                (i, ray),
                way[0],
            ) ==> hit == landed,
    ensures
        landed is None ==> s is Sky,
        landed is Some && scene[landed->0 as int] == 0x200_0000 + r * 0x1_0000 + g * 0x100 + b
            ==> s == Sight::Light(r, g, b),
        landed is Some && scene[landed->0 as int] == 0x100_0000 + r * 0x1_0000 + g * 0x100 + b
            ==> s is Dark,
{
    let (way, hit) = choose|way: Seq<P>, hit: Option<usize>| #[trigger]
        is_cast(lay, dist2, steps, look, advance, way, hit) && call_ensures(aim, (i, ray), way[0])
            && s == match hit {
            Some(j) => seen(scene[j as int]),
            None => Sight::Sky,
        };
    assert(hit == landed);
    law_paint_packs(1, r, g, b);
    law_paint_packs(2, r, g, b);
    law_pack(1, r, g, b);
    law_pack(2, r, g, b);
}

/// What is gathered for a pixel is what each of its rays sees, in order, as many as were
/// asked for.
pub proof fn law_every_ray_counts<
    P,
    T,
    M: Fn(usize, i32) -> P,
    L: Fn(P) -> (bool, i32, i32),
    A: Fn(P, i32) -> P,
    G: Fn(Vec<Sight>) -> T,
>(
    lay: Layout,
    dist2: Seq<i32>,
    scene: Seq<i32>,
    rays: i32,
    steps: nat,
    aim: M,
    look: L,
    advance: A,
    gather: G,
    i: usize,
    t: T,
    sights: Seq<Sight>,
)
    requires
        is_lit(lay, dist2, scene, rays, steps, aim, look, advance, gather, i, t),
        0 <= rays,
        sights.len() == rays,
        forall|k: int, s: Sight|
            0 <= k < rays && #[trigger] is_sight(
                lay,
                dist2,
                scene,
                steps,
                aim,
                look,
                advance,
                i,
                k as i32,
                s,
            ) ==> s == sights[k],
    ensures
        exists|v: Vec<Sight>| #[trigger] call_ensures(gather, (v,), t) && v@ == sights,
{
    let v = choose|v: Vec<Sight>| #[trigger]
        call_ensures(gather, (v,), t) && v@.len() == rays && forall|k: int|
            0 <= k < v@.len() ==> is_sight(
                lay,
                dist2,
                scene,
                steps,
                aim,
                look,
                advance,
                i,
                k as i32,
                #[trigger] v@[k],
            );
    assert(v@ =~= sights);
}

/// A painted pixel holds its kind in the highest byte, above red, green and blue.
pub proof fn law_paint_packs(kind: i32, r: u8, g: u8, b: u8)
    requires
        0 <= kind < 128,
    ensures
        packed(kind, r, g, b) == kind * 0x100_0000 + r * 0x1_0000 + g * 0x100 + b,
{
    let (x, y, z) = (r as i32, g as i32, b as i32);
    assert((kind << 24) | (x << 16) | (y << 8) | z == kind * 0x100_0000 + x * 0x1_0000 + y * 0x100
        + z) by (bit_vector)
        requires
            0 <= kind < 128,
            0 <= x < 256,
            0 <= y < 256,
            0 <= z < 256,
    ;
}

/// Filling a region paints its world pixels and no others.
pub proof fn law_fill_paints(
    lay: Layout,
    cells: Seq<i32>,
    region: spec_fn(int, int) -> bool,
    value: i32,
    x: int,
    y: int,
)
    requires
        cells.len() == (lay.rows + 32) * (lay.cols + 32),
        0 <= x < lay.cols,
        0 <= y < lay.rows,
    ensures
        ({
            let i = (y + 32) * (lay.cols + 32) + (x + 32);
            let out = filled(lay, cells, region, value);
            &&& out.len() == cells.len()
            &&& 0 <= i < cells.len()
            &&& out[i] == (if region(x, y) {
                value
            } else {
                cells[i]
            })
        }),
{
    lemma_at(y + 32, x + 32, lay.height(), lay.width());
    let i = at(y + 32, x + 32, lay.width());
    assert(i % lay.width() == x + 32 && i / lay.width() == y + 32);
}

/// What is painted: a rectangle goes up to but not including its far corner, a disc reaches
/// as far as its radius, and a stroke covers what any of its brushes covers.
pub proof fn law_regions(
    x0: int,
    y0: int,
    x1: int,
    y1: int,
    r: int,
    stamps: Seq<Stamp>,
    i: int,
    x: int,
    y: int,
)
    ensures
        box_of(x0, y0, x1, y1)(x, y) <==> x0 <= x < x1 && y0 <= y < y1,
        disc_of(x0, y0, r)(x, y) <==> (x - x0) * (x - x0) + (y - y0) * (y - y0) <= r * r,
        0 <= i < stamps.len() ==> (under(stamps[i])(x, y) <==> stamps[i].covers(x, y)),
        0 <= i < stamps.len() && stamps[i].covers(x, y) ==> swept(stamps)(x, y),
        stamps.len() == 0 ==> !swept(stamps)(x, y),
        stamps.len() == 1 ==> (swept(stamps)(x, y) <==> stamps[0].covers(x, y)),
{
}

/// What the demo scene shows at `(x, y)`: a strip of pink light between the doorposts, the
/// two lamps, four pillars across the middle, and the walls of a room that is open at three
/// places.
pub proof fn law_demo_scene(lay: Layout, amber: Stamp, blue: Stamp, x: int, y: int)
    requires
        0 <= x < lay.cols,
        0 <= y < lay.rows,
    ensures
        ({
            let (w, h) = (lay.cols as int, lay.rows as int);
            let v = demo_scene(lay, amber, blue)[(y + 32) * (lay.cols + 32) + (x + 32)];
            let within = |x0: int, y0: int, x1: int, y1: int| x0 <= x < x1 && y0 <= y < y1;
            let pillar = |cx: int| (x - cx) * (x - cx) + (y - h / 2) * (y - h / 2) <= 7 * 7;
            let strip = within(w * 2 / 5 + 20, h * 4 / 5 - 4, w * 3 / 5 - 20, h * 4 / 5);
            let pillars = pillar(w * 3 / 12) || pillar(w * 5 / 12) || pillar(w * 7 / 12) || pillar(
                w * 9 / 12,
            );
            let top = within(w / 5, h / 5, w * 4 / 5, h / 5 + 6);
            let bottom = within(w / 5, h * 4 / 5 - 6, w * 2 / 5, h * 4 / 5) || within(
                w * 3 / 5,
                h * 4 / 5 - 6,
                w * 4 / 5,
                h * 4 / 5,
            );
            let left = within(w / 5, h / 5, w / 5 + 6, h * 3 / 5);
            let right = within(w * 4 / 5 - 6, h * 2 / 5, w * 4 / 5, h * 4 / 5);
            v == (if strip {
                packed(2, 255, 80, 180)
            } else if blue.covers(x, y) {
                packed(2, 90, 200, 255)
            } else if amber.covers(x, y) {
                packed(2, 255, 190, 110)
            } else if pillars || top || bottom || left || right {
                packed(1, 70, 70, 80)
            } else {
                0
            })
        }),
{
    let (w, h) = (lay.cols as int, lay.rows as int);
    let wall = packed(1, 70, 70, 80);
    lemma_at(y + 32, x + 32, lay.height(), lay.width());
    let s0 = Seq::new(lay.size() as nat, |i: int| 0i32);
    law_fill_paints(lay, s0, box_of(w / 5, h / 5, w * 4 / 5, h / 5 + 6), wall, x, y);
    let s1 = filled(lay, s0, box_of(w / 5, h / 5, w * 4 / 5, h / 5 + 6), wall);
    law_fill_paints(lay, s1, box_of(w / 5, h * 4 / 5 - 6, w * 2 / 5, h * 4 / 5), wall, x, y);
    let s2 = filled(lay, s1, box_of(w / 5, h * 4 / 5 - 6, w * 2 / 5, h * 4 / 5), wall);
    law_fill_paints(lay, s2, box_of(w * 3 / 5, h * 4 / 5 - 6, w * 4 / 5, h * 4 / 5), wall, x, y);
    let s3 = filled(lay, s2, box_of(w * 3 / 5, h * 4 / 5 - 6, w * 4 / 5, h * 4 / 5), wall);
    law_fill_paints(lay, s3, box_of(w / 5, h / 5, w / 5 + 6, h * 3 / 5), wall, x, y);
    let s4 = filled(lay, s3, box_of(w / 5, h / 5, w / 5 + 6, h * 3 / 5), wall);
    law_fill_paints(lay, s4, box_of(w * 4 / 5 - 6, h * 2 / 5, w * 4 / 5, h * 4 / 5), wall, x, y);
    let room = demo_room(lay);
    lemma_pillar(lay, 1, x, y);
    lemma_pillar(lay, 2, x, y);
    lemma_pillar(lay, 3, x, y);
    lemma_pillar(lay, 4, x, y);
    let p = demo_pillars(lay, 4);
    law_fill_paints(lay, p, under(amber), packed(2, 255, 190, 110), x, y);
    let p1 = filled(lay, p, under(amber), packed(2, 255, 190, 110));
    law_fill_paints(lay, p1, under(blue), packed(2, 90, 200, 255), x, y);
    let p2 = filled(lay, p1, under(blue), packed(2, 90, 200, 255));
    law_fill_paints(
        lay,
        p2,
        box_of(w * 2 / 5 + 20, h * 4 / 5 - 4, w * 3 / 5 - 20, h * 4 / 5),
        packed(2, 255, 80, 180),
        x,
        y,
    );
}

proof fn lemma_pillar(lay: Layout, n: nat, x: int, y: int)
    requires
        1 <= n,
        0 <= x < lay.cols,
        0 <= y < lay.rows,
    ensures
        ({
            let i = (y + 32) * (lay.cols + 32) + (x + 32);
            let cx = lay.cols * (3 + 2 * (n - 1)) / 12;
            let cy = lay.rows as int / 2;
            &&& demo_pillars(lay, n).len() == (lay.rows + 32) * (lay.cols + 32)
            &&& demo_pillars(lay, n)[i] == (if (x - cx) * (x - cx) + (y - cy) * (y - cy) <= 7 * 7 {
                packed(1, 70, 70, 80)
            } else {
                demo_pillars(lay, (n - 1) as nat)[i]
            })
            &&& demo_pillars(lay, 0) == demo_room(lay)
        }),
    decreases n,
{
    let (h, w) = (lay.height(), lay.width());
    assert(0 <= h * w) by (nonlinear_arith)
        requires
            0 <= h,
            0 <= w,
    ;
    if n > 1 {
        lemma_pillar(lay, (n - 1) as nat, x, y);
    } else {
        assert(demo_room(lay).len() == h * w);
    }
    let cx = lay.cols * (3 + 2 * (n - 1)) / 12;
    law_fill_paints(
        lay,
        demo_pillars(lay, (n - 1) as nat),
        disc_of(cx, lay.rows as int / 2, 7),
        packed(1, 70, 70, 80),
        x,
        y,
    );
}

/// A random scene is forty discs and then three thousand dots, one after the other. A disc
/// draws red, green and blue, its column, its row and its radius, from 2 to 13, and every
/// third one is a light. A dot draws its column and its row.
pub proof fn law_random_scene(lay: Layout, seed: u64, n: nat, x: int, y: int)
    requires
        0 <= x < lay.cols,
        0 <= y < lay.rows,
    ensures
        ({
            let i = (y + 32) * (lay.cols + 32) + (x + 32);
            let draw = |k: nat| high31(state_after(seed | 1, k));
            let (old, new) = (random_discs(lay, seed, n), random_discs(lay, seed, n + 1));
            let dx = x - draw(6 * n + 4) as int % lay.cols as int;
            let dy = y - draw(6 * n + 5) as int % lay.rows as int;
            let r = 2 + draw(6 * n + 6) as int % 12;
            let kind = if n % 3 == 0 {
                2i32
            } else {
                1i32
            };
            &&& new[i] == (if dx * dx + dy * dy <= r * r {
                packed(
                    kind,
                    draw(6 * n + 1) as u8,
                    draw(6 * n + 2) as u8,
                    draw(6 * n + 3) as u8,
                )
            } else {
                old[i]
            })
        }),
        ({
            let i = (y + 32) * (lay.cols + 32) + (x + 32);
            let draw = |k: nat| high31(state_after(seed | 1, k));
            let (old, new) = (random_dots(lay, seed, n), random_dots(lay, seed, n + 1));
            &&& new[i] == (if x == draw(241 + 2 * n) as int % lay.cols as int && y == draw(
                242 + 2 * n,
            ) as int % lay.rows as int {
                packed(1, 200, 200, 200)
            } else {
                old[i]
            })
        }),
        random_discs(lay, seed, 0)[(y + 32) * (lay.cols + 32) + (x + 32)] == 0,
        random_dots(lay, seed, 0) == random_discs(lay, seed, 40),
        random_scene(lay, seed) == random_dots(lay, seed, 3000),
{
    let (h, w) = (lay.height(), lay.width());
    let i = at(y + 32, x + 32, w);
    lemma_at(y + 32, x + 32, h, w);
    lemma_disc_size(lay, seed, n);
    lemma_random_size(lay, seed, n);
    let cx = drawn(seed, (6 * n + 4) as int) as int % lay.cols as int;
    let cy = drawn(seed, (6 * n + 5) as int) as int % lay.rows as int;
    let r = 2 + drawn(seed, (6 * n + 6) as int) as int % 12;
    let kind = if n % 3 == 0 {
        2i32
    } else {
        1i32
    };
    let value = packed(
        kind,
        drawn(seed, (6 * n + 1) as int) as u8,
        drawn(seed, (6 * n + 2) as int) as u8,
        drawn(seed, (6 * n + 3) as int) as u8,
    );
    law_fill_paints(lay, random_discs(lay, seed, n), disc_of(cx, cy, r), value, x, y);
    let px = drawn(seed, (241 + 2 * n) as int) as int % lay.cols as int;
    let py = drawn(seed, (242 + 2 * n) as int) as int % lay.rows as int;
    assert(241 + 2 * n == 240 + 2 * n + 1 && 242 + 2 * n == 240 + 2 * n + 2);
    lemma_at(py + 32, px + 32, h, w);
    assert(spot(lay, px, py) == at(py + 32, px + 32, w));
}

proof fn lemma_random_size(lay: Layout, seed: u64, n: nat)
    requires
        0 < lay.rows,
        0 < lay.cols,
    ensures
        random_dots(lay, seed, n).len() == (lay.rows + 32) * (lay.cols + 32),
    decreases n,
{
    if n == 0 {
        lemma_disc_size(lay, seed, 40);
        assert(random_dots(lay, seed, 0) == random_discs(lay, seed, 40));
    } else {
        let m = n - 1;
        lemma_random_size(lay, seed, m as nat);
        let x = drawn(seed, 240 + 2 * m + 1) as int % lay.cols as int;
        let y = drawn(seed, 240 + 2 * m + 2) as int % lay.rows as int;
        lemma_at(y + 32, x + 32, lay.height(), lay.width());
        assert(spot(lay, x, y) == at(y + 32, x + 32, lay.width()));
    }
}

proof fn lemma_disc_size(lay: Layout, seed: u64, n: nat)
    ensures
        random_discs(lay, seed, n).len() == (lay.rows + 32) * (lay.cols + 32),
    decreases n,
{
    let (h, w) = (lay.height(), lay.width());
    assert(0 <= h * w) by (nonlinear_arith)
        requires
            0 <= h,
            0 <= w,
    ;
    if n > 0 {
        lemma_disc_size(lay, seed, (n - 1) as nat);
    }
}

/// The budgets of the levels: every level casts twice as many rays as the one below it,
/// from 8 on, and lets them take 16 steps more, from 32 on. Beyond the last level on
/// either side there is nothing new.
pub proof fn law_levels(level: int)
    ensures
        level <= 1 ==> budget(level).rays == 8 && budget(level).steps == 32,
        1 <= level < 3 ==> budget(level + 1).rays == 2 * budget(level).rays,
        1 <= level < 3 ==> budget(level + 1).steps == budget(level).steps + 16,
        level >= 3 ==> budget(level) == budget(3),
        budget(level).check_every == (if level <= 2 {
            8i32
        } else {
            16i32
        }),
{
}

/// The views in the order in which they follow each other are numbered from 0, and the
/// colors of lights are amber, pink, blue, green, white and violet.
pub proof fn law_choices(v: view::View, i: int)
    ensures
        v is Lit <==> v.number() == 0,
        v is Radiance <==> v.number() == 1,
        v is Distance <==> v.number() == 2,
        v is Voronoi <==> v.number() == 3,
        i == 0 ==> color_of(i) == (255u8, 190u8, 110u8),
        i == 1 ==> color_of(i) == (255u8, 80u8, 180u8),
        i == 2 ==> color_of(i) == (90u8, 200u8, 255u8),
        i == 3 ==> color_of(i) == (120u8, 255u8, 140u8),
        i == 4 ==> color_of(i) == (255u8, 250u8, 240u8),
        i == 5 ==> color_of(i) == (140u8, 110u8, 255u8),
{
}

/// What a canvas shows after painting on it: within the rectangle, under the brush, or
/// under any brush of the stroke the value that was painted, and elsewhere what it showed.
pub proof fn law_canvas_paints(
    a: &mut Canvas,
    b: &mut Canvas,
    c: &mut Canvas,
    x0: i32,
    y0: i32,
    x1: i32,
    y1: i32,
    stamp: &Stamp,
    stamps: &Vec<Stamp>,
    value: i32,
    x: int,
    y: int,
)
    requires
        old(a).wf(),
        old(b).wf(),
        old(c).wf(),
        old(a).layout == old(b).layout,
        old(a).layout == old(c).layout,
        call_ensures(Canvas::rect, (a, x0, y0, x1, y1, value), ()),
        call_ensures(Canvas::disc, (b, stamp, value), ()),
        call_ensures(Canvas::stroke, (c, stamps, value), ()),
        0 <= x < old(a).layout.cols,
        0 <= y < old(a).layout.rows,
    ensures
        ({
            let i = (y + 32) * (old(a).layout.cols + 32) + (x + 32);
            let swept = exists|k: int| 0 <= k < stamps@.len() && (#[trigger] stamps@[k]).covers(x, y);
            &&& final(a).cells@[i] == (if x0 <= x < x1 && y0 <= y < y1 {
                value
            } else {
                old(a).cells@[i]
            })
            &&& final(b).cells@[i] == (if stamp.covers(x, y) {
                value
            } else {
                old(b).cells@[i]
            })
            &&& final(c).cells@[i] == (if swept {
                value
            } else {
                old(c).cells@[i]
            })
        }),
{
    let lay = old(a).layout;
    law_fill_paints(
        lay,
        old(a).cells@,
        box_of(x0 as int, y0 as int, x1 as int, y1 as int),
        value,
        x,
        y,
    );
    law_fill_paints(lay, old(b).cells@, under(*stamp), value, x, y);
    law_fill_paints(lay, old(c).cells@, swept(stamps@), value, x, y);
}

/// The floods, the fields and the exact distances are computed as is said of them here.
pub proof fn law_fields_are_computed(
    lay: Layout,
    scene: &[i32],
    seeds: &[i32],
    cols: usize,
    flood: Vec<i32>,
    far: Vec<i32>,
    near: Vec<i32>,
    exact: Vec<Option<u64>>,
    i: int,
)
    requires
        call_ensures(jump_flood, (&lay, scene), flood),
        call_ensures(distance2, (&lay, seeds), far),
        call_ensures(nearest, (seeds, scene, cols), near),
        call_ensures(exact_dist2, (&lay, scene), exact),
        0 <= i < seeds@.len(),
        i < (lay.rows + 32) * (lay.cols + 32),
    ensures
        flood@ == flood_of(lay, scene@),
        far@[i] == squared_distances(seeds@, lay.cols + 32)[i],
        near@[i] == surface(scene@, cols as int, seeds@[i]),
        is_exact(lay, scene@, i / (lay.cols + 32), i % (lay.cols + 32), exact@[i]),
{
    let all = far@.map_values(|d: i32| d as int);
    assert(all.len() == seeds@.len());
    assert(all[i] == far@[i]);
}

} // verus!
