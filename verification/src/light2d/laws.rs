//! What a jump flood promises.
use crate::grid::{at, lemma_at, lemma_cell_of, lemma_row_bound};
use crate::light2d::cpu::{
    closest, can_flood, far2, first_seed, flood_of, flooded, jumped, law_seed_round_trip,
    lemma_flooded, lemma_no_seed, lemma_seeded, lemma_square, lemma_square_le, pixel_after,
    plain_flood_of, points_into, seed_at, seed_col, seed_of, seed_row, seeded, square, surface, BIAS,
};
use crate::light2d::exact::{is_exact, occupied};
use crate::light2d::layout::{halvings, jumps, law_jumps, lemma_halvings, power, top_jump, Layout};
use vstd::arithmetic::div_mod::{lemma_fundamental_div_mod, lemma_fundamental_div_mod_converse};
use vstd::prelude::*;

verus! {

/// Whether every column can be packed into a seed and read back.
pub open spec fn packs(lay: Layout) -> bool {
    &&& can_flood(lay)
    &&& lay.width() <= 32768 - BIAS
}

/// Whether "no seed" is farther from every pixel than any pixel is.
pub open spec fn zero_is_far(lay: Layout) -> bool {
    square(lay.height() - 1) + square(lay.width() - 1) < 2 * square(BIAS as int)
}

/// A seed that stands for an occupied pixel of the scene, or none.
pub open spec fn on_surface(lay: Layout, scene: Seq<i32>, seed: i32) -> bool {
    seed != 0 ==> {
        &&& 0 <= seed_row(seed) < lay.height()
        &&& 0 <= seed_col(seed) < lay.width()
        &&& scene[at(seed_row(seed), seed_col(seed), lay.width())] != 0
    }
}

/// "No seed" is farther from every pixel of a buffer than any real seed is,
/// so it never wins a comparison.
pub proof fn law_no_seed_is_farthest(lay: Layout, seed: i32, r: int, c: int)
    requires
        zero_is_far(lay),
        0 <= seed_row(seed) < lay.height(),
        0 <= seed_col(seed) < lay.width(),
        0 <= r < lay.height(),
        0 <= c < lay.width(),
    ensures
        far2(seed, r, c) < far2(0, r, c),
{
    lemma_no_seed();
    let (sr, sc) = (seed_row(seed), seed_col(seed));
    let (h, w) = (lay.height(), lay.width());
    assert(square(sr - r) - square(-8192 - r) <= square(sr) - square(8192)) by (nonlinear_arith)
        requires
            0 <= sr,
            0 <= r,
            square(sr - r) == (sr - r) * (sr - r),
            square(-8192 - r) == (-8192 - r) * (-8192 - r),
            square(sr) == sr * sr,
            square(8192) == 8192 * 8192,
    ;
    assert(square(sc - c) - square(-8192 - c) <= square(sc) - square(8192)) by (nonlinear_arith)
        requires
            0 <= sc,
            0 <= c,
            square(sc - c) == (sc - c) * (sc - c),
            square(-8192 - c) == (-8192 - c) * (-8192 - c),
            square(sc) == sc * sc,
            square(8192) == 8192 * 8192,
    ;
    lemma_square_le(sr, h - 1);
    lemma_square_le(sc, w - 1);
}

/// A pass keeps, for every world pixel, one of the nine seeds it looks at,
/// and none of the nine is closer.
pub proof fn law_pass_takes_the_closest(lay: Layout, src: Seq<i32>, k: int, r: int, c: int)
    requires
        src.len() == lay.size(),
        lay.inside(r, c),
    ensures
        ({
            let b = jumped(lay, src, k)[at(r, c, lay.width())];
            &&& exists|dr: int, dc: int|
                (dr == -k || dr == 0 || dr == k) && (dc == -k || dc == 0 || dc == k) && b
                    == #[trigger] seed_at(lay, src, r + dr, c + dc)
            &&& forall|dr: int, dc: int|
                (dr == -k || dr == 0 || dr == k) && (dc == -k || dc == 0 || dc == k) ==> far2(
                    b,
                    r,
                    c,
                ) <= far2(#[trigger] seed_at(lay, src, r + dr, c + dc), r, c)
        }),
{
    lemma_at(r, c, lay.height(), lay.width());
    reveal(pixel_after);
    assert(jumped(lay, src, k)[at(r, c, lay.width())] == closest(lay, src, k, r, c));
    assert(seed_at(lay, src, r, c) == seed_at(lay, src, r + 0, c + 0));
    assert(seed_at(lay, src, r - k, c - k) == seed_at(lay, src, r + (-k), c + (-k)));
    assert(seed_at(lay, src, r - k, c) == seed_at(lay, src, r + (-k), c + 0));
    assert(seed_at(lay, src, r - k, c + k) == seed_at(lay, src, r + (-k), c + k));
    assert(seed_at(lay, src, r, c - k) == seed_at(lay, src, r + 0, c + (-k)));
    assert(seed_at(lay, src, r, c + k) == seed_at(lay, src, r + 0, c + k));
    assert(seed_at(lay, src, r + k, c - k) == seed_at(lay, src, r + k, c + (-k)));
    assert(seed_at(lay, src, r + k, c) == seed_at(lay, src, r + k, c + 0));
}

/// A pass never takes a world pixel farther from its seed.
pub proof fn law_pass_never_worsens(lay: Layout, src: Seq<i32>, k: int, r: int, c: int)
    requires
        src.len() == lay.size(),
        lay.inside(r, c),
    ensures
        far2(jumped(lay, src, k)[at(r, c, lay.width())], r, c) <= far2(
            src[at(r, c, lay.width())],
            r,
            c,
        ),
{
    law_pass_takes_the_closest(lay, src, k, r, c);
    assert(seed_at(lay, src, r + 0, c + 0) == src[at(r, c, lay.width())]);
}

/// The extra pass is one more at a jump of one, and takes no world pixel farther
/// from its seed than the plain flood left it.
pub proof fn law_extra_pass(lay: Layout, scene: Seq<i32>, r: int, c: int)
    requires
        scene.len() == lay.size(),
        can_flood(lay),
        lay.inside(r, c),
    ensures
        flood_of(lay, scene) == jumped(lay, plain_flood_of(lay, scene), 1),
        far2(flood_of(lay, scene)[at(r, c, lay.width())], r, c) <= far2(
            plain_flood_of(lay, scene)[at(r, c, lay.width())],
            r,
            c,
        ),
{
    law_jumps(lay.side());
    lemma_seeded(lay, scene);
    lemma_flooded(lay, seeded(scene, lay.width()), jumps(lay.side()).drop_last());
    law_pass_never_worsens(lay, plain_flood_of(lay, scene), 1, r, c);
}

/// The ghost ring has no seeds after a pass.
pub proof fn law_ghosts_empty(lay: Layout, src: Seq<i32>, k: int, i: int)
    requires
        0 <= i < src.len(),
        !lay.inside(i / lay.width(), i % lay.width()),
    ensures
        jumped(lay, src, k)[i] == 0,
{
    reveal(pixel_after);
}

proof fn lemma_jump_on_surface(lay: Layout, scene: Seq<i32>, src: Seq<i32>, k: int)
    requires
        src.len() == lay.size(),
        forall|i: int| 0 <= i < src.len() ==> on_surface(lay, scene, #[trigger] src[i]),
    ensures
        forall|i: int|
            0 <= i < src.len() ==> on_surface(lay, scene, #[trigger] jumped(lay, src, k)[i]),
{
    let w = lay.width();
    assert forall|r: int, c: int| on_surface(lay, scene, #[trigger] seed_at(lay, src, r, c)) by {
        if 0 <= r < lay.height() && 0 <= c < w {
            lemma_at(r, c, lay.height(), w);
        }
    }
    assert forall|i: int| 0 <= i < src.len() implies on_surface(
        lay,
        scene,
        #[trigger] jumped(lay, src, k)[i],
    ) by {
        let (r, c) = (i / w, i % w);
        lemma_cell_of(i, w);
        if lay.inside(r, c) {
            law_pass_takes_the_closest(lay, src, k, r, c);
        } else {
            law_ghosts_empty(lay, src, k, i);
        }
    }
}

proof fn lemma_seeded_on_surface(lay: Layout, scene: Seq<i32>)
    requires
        packs(lay),
        scene.len() == lay.size(),
    ensures
        forall|i: int|
            0 <= i < scene.len() ==> {
                let s = #[trigger] seeded(scene, lay.width())[i];
                &&& on_surface(lay, scene, s)
                &&& scene[i] != 0 ==> s != 0 && seed_row(s) == i / lay.width() && seed_col(s) == i
                    % lay.width()
                &&& scene[i] == 0 ==> s == 0
            },
{
    let w = lay.width();
    lemma_seeded(lay, scene);
    assert forall|i: int| 0 <= i < scene.len() implies {
        let s = #[trigger] seeded(scene, w)[i];
        &&& on_surface(lay, scene, s)
        &&& scene[i] != 0 ==> s != 0 && seed_row(s) == i / w && seed_col(s) == i % w
        &&& scene[i] == 0 ==> s == 0
    } by {
        lemma_cell_of(i, w);
        lemma_row_bound(i, lay.height(), w);
        if scene[i] != 0 {
            assert(first_seed(scene, w, i) <= i32::MAX);
            law_seed_round_trip(i / w, i % w);
            lemma_no_seed();
        }
    }
}

proof fn lemma_flood_on_surface(lay: Layout, scene: Seq<i32>, ks: Seq<int>)
    requires
        packs(lay),
        scene.len() == lay.size(),
    ensures
        ({
            let s = flooded(lay, seeded(scene, lay.width()), ks);
            &&& s.len() == lay.size()
            &&& forall|i: int| 0 <= i < s.len() ==> on_surface(lay, scene, #[trigger] s[i])
        }),
    decreases ks.len(),
{
    let first = seeded(scene, lay.width());
    lemma_seeded_on_surface(lay, scene);
    if ks.len() > 0 {
        lemma_flood_on_surface(lay, scene, ks.drop_last());
        lemma_jump_on_surface(lay, scene, flooded(lay, first, ks.drop_last()), ks.last());
    }
}

/// Every seed a flood leaves stands for an occupied pixel, so its surface can
/// be looked up and is something.
pub proof fn law_seeds_are_occupied(lay: Layout, scene: Seq<i32>, i: int)
    requires
        packs(lay),
        scene.len() == lay.size(),
        0 <= i < scene.len(),
    ensures
        ({
            let s = flood_of(lay, scene)[i];
            &&& flood_of(lay, scene).len() == scene.len()
            &&& on_surface(lay, scene, s)
            &&& points_into(scene, lay.width(), s)
            &&& s != 0 <==> surface(scene, lay.width(), s) != 0
        }),
{
    lemma_flood_on_surface(lay, scene, jumps(lay.side()));
    let s = flood_of(lay, scene)[i];
    if s != 0 {
        lemma_at(seed_row(s), seed_col(s), lay.height(), lay.width());
    }
}

/// A pixel no distance from its seed is its seed.
proof fn lemma_at_home(seed: i32, r: int, c: int)
    requires
        far2(seed, r, c) <= 0,
    ensures
        seed_row(seed) == r,
        seed_col(seed) == c,
{
    let (a, b) = (seed_row(seed) - r, seed_col(seed) - c);
    assert(a == 0 && b == 0) by (nonlinear_arith)
        requires
            a * a + b * b <= 0,
    ;
}

proof fn lemma_occupied_stays(lay: Layout, scene: Seq<i32>, ks: Seq<int>, r: int, c: int)
    requires
        packs(lay),
        scene.len() == lay.size(),
        lay.inside(r, c),
        scene[at(r, c, lay.width())] != 0,
    ensures
        far2(flooded(lay, seeded(scene, lay.width()), ks)[at(r, c, lay.width())], r, c) <= 0,
    decreases ks.len(),
{
    let w = lay.width();
    lemma_at(r, c, lay.height(), w);
    if ks.len() == 0 {
        lemma_seeded_on_surface(lay, scene);
        assert(seeded(scene, w)[at(r, c, w)] != 0);
        assert(square(0) == 0) by (nonlinear_arith)
            requires
                square(0) == 0 * 0,
        ;
    } else {
        lemma_occupied_stays(lay, scene, ks.drop_last(), r, c);
        lemma_flood_on_surface(lay, scene, ks.drop_last());
        law_pass_never_worsens(
            lay,
            flooded(lay, seeded(scene, w), ks.drop_last()),
            ks.last(),
            r,
            c,
        );
    }
}

/// An occupied world pixel is its own seed: its distance is zero.
pub proof fn law_occupied_is_its_own_seed(lay: Layout, scene: Seq<i32>, r: int, c: int)
    requires
        packs(lay),
        scene.len() == lay.size(),
        lay.inside(r, c),
        scene[at(r, c, lay.width())] != 0,
    ensures
        flood_of(lay, scene)[at(r, c, lay.width())] == seed_of(r, c),
        far2(flood_of(lay, scene)[at(r, c, lay.width())], r, c) == 0,
{
    let w = lay.width();
    lemma_occupied_stays(lay, scene, jumps(lay.side()), r, c);
    let s = flood_of(lay, scene)[at(r, c, w)];
    lemma_at_home(s, r, c);
    lemma_square(0);
    lemma_fundamental_div_mod(s as int, 32768);
    assert(square(0) == 0) by (nonlinear_arith)
        requires
            square(0) == 0 * 0,
    ;
}

/// Whether the seed at `(sr, sc)` has spread to every world pixel a multiple
/// of `d` away, up to `far` pixels in each direction.
spec fn spread(lay: Layout, s: Seq<i32>, sr: int, sc: int, d: int, far: int) -> bool {
    forall|r: int, c: int|
        #![trigger at(r, c, lay.width())]
        lay.inside(r, c) && -far <= r - sr <= far && -far <= c - sc <= far && (r - sr) % d == 0 && (
        c - sc) % d == 0 ==> s[at(r, c, lay.width())] != 0
}

/// From a multiple of `k` one jump of `k` towards zero, or none, leads to a
/// multiple of `2 * k`.
proof fn lemma_half_jump(d: int, k: int, q: int) -> (e: int)
    requires
        k >= 1,
        q >= 1,
        d % k == 0,
        -(2 * q * k - k) <= d <= 2 * q * k - k,
    ensures
        e == -k || e == 0 || e == k,
        (d + e) % (2 * k) == 0,
        -(2 * q * k - 2 * k) <= d + e <= 2 * q * k - 2 * k,
        d >= 0 ==> 0 <= d + e <= d,
        d <= 0 ==> d <= d + e <= 0,
{
    let m = d / k;
    lemma_fundamental_div_mod(d, k);
    assert(d == m * k) by (nonlinear_arith)
        requires
            d == k * m,
    ;
    assert(-(2 * q - 1) <= m <= 2 * q - 1) by (nonlinear_arith)
        requires
            d == m * k,
            -(2 * q * k - k) <= d <= 2 * q * k - k,
            k >= 1,
    ;
    assert(d >= 0 ==> m >= 0) by (nonlinear_arith)
        requires
            d == m * k,
            k >= 1,
    ;
    assert(d <= 0 ==> m <= 0) by (nonlinear_arith)
        requires
            d == m * k,
            k >= 1,
    ;
    let step = if m % 2 == 0 {
        0int
    } else if m > 0 {
        -1
    } else {
        1
    };
    let n = (m + step) / 2;
    assert(m + step == 2 * n);
    assert(-(q - 1) <= n <= q - 1);
    let e = step * k;
    assert(d + e == n * (2 * k)) by (nonlinear_arith)
        requires
            d == m * k,
            e == step * k,
            m + step == 2 * n,
    ;
    lemma_fundamental_div_mod_converse(d + e, 2 * k, n, 0);
    assert(-(2 * q * k - 2 * k) <= d + e <= 2 * q * k - 2 * k) by (nonlinear_arith)
        requires
            d + e == n * (2 * k),
            -(q - 1) <= n <= q - 1,
            k >= 1,
    ;
    assert(e == -k || e == 0 || e == k) by (nonlinear_arith)
        requires
            e == step * k,
            step == -1 || step == 0 || step == 1,
    ;
    assert(d >= 0 ==> d + e >= 0) by (nonlinear_arith)
        requires
            d + e == n * (2 * k),
            d >= 0 ==> n >= 0,
            k >= 1,
    ;
    assert(d <= 0 ==> d + e <= 0) by (nonlinear_arith)
        requires
            d + e == n * (2 * k),
            d <= 0 ==> n <= 0,
            k >= 1,
    ;
    e
}

/// A pass at `k` fills in the pixels halfway between those already reached.
proof fn lemma_spread(lay: Layout, scene: Seq<i32>, src: Seq<i32>, sr: int, sc: int, k: int, q: int)
    requires
        zero_is_far(lay),
        src.len() == lay.size(),
        forall|i: int| 0 <= i < src.len() ==> on_surface(lay, scene, #[trigger] src[i]),
        lay.inside(sr, sc),
        k >= 1,
        q >= 1,
        spread(lay, src, sr, sc, 2 * k, 2 * q * k - 2 * k),
    ensures
        spread(lay, jumped(lay, src, k), sr, sc, k, 2 * q * k - k),
{
    let w = lay.width();
    lemma_jump_on_surface(lay, scene, src, k);
    assert forall|r: int, c: int|
        #![trigger at(r, c, lay.width())]
        lay.inside(r, c) && -(2 * q * k - k) <= r - sr <= 2 * q * k - k && -(2 * q * k - k) <= c
            - sc <= 2 * q * k - k && (r - sr) % k == 0 && (c - sc) % k == 0 implies jumped(
        lay,
        src,
        k,
    )[at(r, c, w)] != 0 by {
        let er = lemma_half_jump(r - sr, k, q);
        let ec = lemma_half_jump(c - sc, k, q);
        lemma_at(r, c, lay.height(), w);
        lemma_at(r + er, c + ec, lay.height(), w);
        let cand = src[at(r + er, c + ec, w)];
        assert(lay.inside(r + er, c + ec));
        assert(cand != 0);
        assert(seed_at(lay, src, r + er, c + ec) == cand);
        law_pass_takes_the_closest(lay, src, k, r, c);
        law_no_seed_is_farthest(lay, cand, r, c);
    }
}

/// After the first `n` of the halving jumps a seed has spread that far.
proof fn lemma_spread_after(lay: Layout, scene: Seq<i32>, sr: int, sc: int, e: nat, n: nat)
    requires
        packs(lay),
        zero_is_far(lay),
        scene.len() == lay.size(),
        lay.inside(sr, sc),
        scene[at(sr, sc, lay.width())] != 0,
        n <= e + 1,
    ensures
        spread(
            lay,
            flooded(lay, seeded(scene, lay.width()), halvings(power(e)).take(n as int)),
            sr,
            sc,
            power((e + 1 - n) as nat),
            2 * power(e) - power((e + 1 - n) as nat),
        ),
    decreases n,
{
    let w = lay.width();
    let first = seeded(scene, w);
    let ks = halvings(power(e));
    lemma_halvings(e);
    if n == 0 {
        assert(ks.take(0) =~= seq![]);
        lemma_seeded_on_surface(lay, scene);
        lemma_at(sr, sc, lay.height(), w);
        assert(first[at(sr, sc, w)] != 0);
        assert(2 * power(e) == power(e + 1));
        assert(spread(lay, first, sr, sc, power(e + 1), 0)) by {
            assert forall|r: int, c: int|
                #![trigger at(r, c, w)]
                lay.inside(r, c) && 0 <= r - sr <= 0 && 0 <= c - sc <= 0 implies first[at(r, c, w)]
                != 0 by {
                assert(r == sr && c == sc);
            }
        }
    } else {
        let k = power((e + 1 - n) as nat);
        let prev = ks.take(n - 1);
        lemma_spread_after(lay, scene, sr, sc, e, (n - 1) as nat);
        lemma_flood_on_surface(lay, scene, prev);
        assert(ks[n - 1] == k);
        assert(ks.take(n as int).drop_last() =~= prev);
        assert(ks.take(n as int).last() == k);
        assert(power((e + 1 - (n - 1)) as nat) == 2 * k);
        lemma_halvings((e + 1 - n) as nat);
        let q = power((n - 1) as nat);
        lemma_halvings((n - 1) as nat);
        lemma_power_split((n - 1) as nat, (e + 1 - n) as nat);
        assert(power(e) == q * k);
        assert(2 * power(e) == 2 * q * k) by (nonlinear_arith)
            requires
                power(e) == q * k,
        ;
        lemma_spread(lay, scene, flooded(lay, first, prev), sr, sc, k, q);
    }
}

proof fn lemma_power_split(a: nat, b: nat)
    ensures
        power(a) * power(b) == power(a + b),
    decreases a,
{
    if a > 0 {
        lemma_power_split((a - 1) as nat, b);
        assert((a - 1) as nat + b == (a + b - 1) as nat);
        let (x, y) = (power((a - 1) as nat), power(b));
        assert((2 * x) * y == 2 * (x * y)) by (nonlinear_arith);
    } else {
        assert(1 * power(b) == power(b));
    }
}

/// A flood reaches everything: if any world pixel is occupied, every world
/// pixel ends with a seed.
pub proof fn law_flood_reaches_everything(
    lay: Layout,
    scene: Seq<i32>,
    sr: int,
    sc: int,
    r: int,
    c: int,
)
    requires
        packs(lay),
        zero_is_far(lay),
        scene.len() == lay.size(),
        lay.inside(sr, sc),
        scene[at(sr, sc, lay.width())] != 0,
        lay.inside(r, c),
    ensures
        flood_of(lay, scene)[at(r, c, lay.width())] != 0,
{
    let w = lay.width();
    let n = lay.side();
    let first = seeded(scene, w);
    law_jumps(n);
    let e = choose|e: nat| top_jump(n) == power(e);
    let ks = halvings(power(e));
    lemma_halvings(e);
    lemma_spread_after(lay, scene, sr, sc, e, e + 1);
    assert(ks.take((e + 1) as int) =~= ks);
    assert(power(0) == 1);
    let almost = flooded(lay, first, ks);
    lemma_at(r, c, lay.height(), w);
    assert(almost[at(r, c, w)] != 0);
    assert(jumps(n).drop_last() =~= ks);
    lemma_flood_on_surface(lay, scene, ks);
    lemma_jump_on_surface(lay, scene, almost, 1);
    law_pass_never_worsens(lay, almost, 1, r, c);
    law_no_seed_is_farthest(lay, almost[at(r, c, w)], r, c);
}

/// A flood never claims a surface is closer than the nearest one is, and
/// finds none where there is none.
pub proof fn law_flood_never_too_close(lay: Layout, scene: Seq<i32>, i: int, d: Option<u64>)
    requires
        packs(lay),
        scene.len() == lay.size(),
        0 <= i < scene.len(),
        is_exact(lay, scene, i / lay.width(), i % lay.width(), d),
    ensures
        flood_of(lay, scene)[i] != 0 ==> d is Some && d->0 <= far2(
            flood_of(lay, scene)[i],
            i / lay.width(),
            i % lay.width(),
        ),
{
    law_seeds_are_occupied(lay, scene, i);
    let s = flood_of(lay, scene)[i];
    if s != 0 {
        let (r, c) = (i / lay.width(), i % lay.width());
        let (sr, sc) = (seed_row(s), seed_col(s));
        assert(occupied(lay, scene, sr, sc));
        lemma_square(sr - r);
        lemma_square(sc - c);
        assert(-(sr - r) == r - sr && -(sc - c) == c - sc);
    }
}

} // verus!
