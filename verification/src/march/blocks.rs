//! Pictures made in square blocks, the pixels of each block run as one tile.
use crate::grid::{
    at, div_ceil, law_tiles_up, lemma_at, lemma_cell_of, lemma_row_bound, tile_count,
};
use crate::march::lanes;
use crate::march::lanes::{counts, ended, is_run, is_steady, law_tile_follows_lanes, tile_steps};
use vstd::arithmetic::div_mod::lemma_fundamental_div_mod_converse;
use vstd::prelude::*;

verus! {

/// The lane of pixel `(r, c)`: it starts where `start` puts that pixel and ends
/// where `rule` takes it.
pub open spec fn is_lane_of<P, S: Fn(usize, usize) -> P, F: Fn(P) -> Option<P>>(
    start: S,
    rule: F,
    r: usize,
    c: usize,
    max: nat,
    lane: (P, u32),
) -> bool {
    exists|p: P| #[trigger]
        call_ensures(start, (r, c), p) && ended(rule, p, max, lane.0, lane.1 as nat)
}

/// The lanes of the `tile x tile` block number `(pr, pc)`, row by row.
pub open spec fn is_block<P, S: Fn(usize, usize) -> P, F: Fn(P) -> Option<P>>(
    start: S,
    rule: F,
    tile: int,
    pr: int,
    pc: int,
    max: nat,
    lanes: Seq<(P, u32)>,
) -> bool {
    &&& lanes.len() == tile * tile
    &&& forall|i: int, j: int|
        #![trigger at(i, j, tile)]
        0 <= i < tile && 0 <= j < tile ==> is_lane_of(
            start,
            rule,
            at(pr, i, tile) as usize,
            at(pc, j, tile) as usize,
            max,
            lanes[at(i, j, tile)],
        )
}

/// What a picture made in blocks shows at `(r, c)`: where the pixel's lane
/// ended, after how many steps, and how many steps its block took.
pub open spec fn is_pixel_of<P, S: Fn(usize, usize) -> P, F: Fn(P) -> Option<P>>(
    start: S,
    rule: F,
    tile: int,
    r: int,
    c: int,
    max: nat,
    every: nat,
    px: (P, u32, u32),
) -> bool {
    exists|lanes: Seq<(P, u32)>| #[trigger]
        is_block(start, rule, tile, r / tile, c / tile, max, lanes) && px == (
            lanes[at(r % tile, c % tile, tile)].0,
            lanes[at(r % tile, c % tile, tile)].1,
            tile_steps(counts(lanes), 0, max, every) as u32,
        ) && tile_steps(counts(lanes), 0, max, every) <= max
}

/// One block: the pixels that it covers start where `start` puts them and run
/// together.
pub fn block<P: Copy, S: Fn(usize, usize) -> P, F: Fn(P) -> Option<P>>(
    tile: usize,
    pr: usize,
    pc: usize,
    max: u32,
    check_every: u32,
    start: &S,
    rule: &F,
) -> (out: (Vec<(P, u32)>, u32))
    requires
        tile >= 1,
        check_every >= 1,
        tile * tile <= usize::MAX,
        at(pr as int, tile as int, tile as int) <= usize::MAX,
        at(pc as int, tile as int, tile as int) <= usize::MAX,
        forall|r: usize, c: usize| #[trigger] call_requires(*start, (r, c)),
        forall|p: P| call_requires(*rule, (p,)),
    ensures
        is_block(*start, *rule, tile as int, pr as int, pc as int, max as nat, out.0@),
        out.1 == tile_steps(counts(out.0@), 0, max as nat, check_every as nat),
{
    let n: usize = tile * tile;
    let mut starts: Vec<P> = Vec::new();
    let mut k: usize = 0;
    assert(0 <= pr * tile && 0 <= pc * tile) by (nonlinear_arith)
        requires
            tile >= 1,
            pr >= 0,
            pc >= 0,
    ;
    while k < n
        invariant
            k <= n,
            n == tile * tile,
            tile >= 1,
            0 <= pr * tile,
            0 <= pc * tile,
            at(pr as int, tile as int, tile as int) <= usize::MAX,
            at(pc as int, tile as int, tile as int) <= usize::MAX,
            starts@.len() == k,
            forall|r: usize, c: usize| #[trigger] call_requires(*start, (r, c)),
            forall|i: int|
                0 <= i < k ==> call_ensures(
                    *start,
                    (
                        at(pr as int, i / tile as int, tile as int) as usize,
                        at(pc as int, i % tile as int, tile as int) as usize,
                    ),
                    #[trigger] starts@[i],
                ),
        decreases n - k,
    {
        proof {
            lemma_cell_of(k as int, tile as int);
            lemma_row_bound(k as int, tile as int, tile as int);
        }
        starts.push(start(pr * tile + k / tile, pc * tile + k % tile));
        k = k + 1;
    }
    let out = lanes::tile(&starts, max, check_every, rule);
    proof {
        let lanes = out.0@;
        assert forall|i: int, j: int|
            #![trigger at(i, j, tile as int)]
            0 <= i < tile && 0 <= j < tile implies is_lane_of(
            *start,
            *rule,
            at(pr as int, i, tile as int) as usize,
            at(pc as int, j, tile as int) as usize,
            max as nat,
            lanes[at(i, j, tile as int)],
        ) by {
            lemma_at(i, j, tile as int, tile as int);
            let q = at(i, j, tile as int);
            let p = starts@[q];
            assert(call_ensures(
                *start,
                (
                    at(pr as int, q / tile as int, tile as int) as usize,
                    at(pc as int, q % tile as int, tile as int) as usize,
                ),
                p,
            ));
            assert(ended(*rule, p, max as nat, lanes[q].0, lanes[q].1 as nat));
        }
    }
    out
}

/// A picture of `rows x cols` pixels made in blocks of `tile x tile`. Blocks at
/// the far edges may reach past the picture; what they make there is dropped.
pub fn picture<P: Copy, S: Fn(usize, usize) -> P, F: Fn(P) -> Option<P>>(
    rows: usize,
    cols: usize,
    tile: usize,
    max: u32,
    check_every: u32,
    start: S,
    rule: F,
) -> (out: Vec<(P, u32, u32)>)
    requires
        tile >= 1,
        check_every >= 1,
        rows * cols <= usize::MAX,
        rows + tile <= usize::MAX,
        cols + tile <= usize::MAX,
        tile * tile <= usize::MAX,
        forall|r: usize, c: usize| #[trigger] call_requires(start, (r, c)),
        forall|p: P| call_requires(rule, (p,)),
    ensures
        out@.len() == rows * cols,
        forall|r: int, c: int|
            #![trigger at(r, c, cols as int)]
            0 <= r < rows && 0 <= c < cols ==> is_pixel_of(
                start,
                rule,
                tile as int,
                r,
                c,
                max as nat,
                check_every as nat,
                out@[at(r, c, cols as int)],
            ),
{
    let mut out: Vec<(P, u32, u32)> = Vec::new();
    if cols == 0 {
        assert(rows * cols == 0) by (nonlinear_arith)
            requires
                cols == 0,
        ;
        return out;
    }
    let across: usize = div_ceil(cols, tile);
    let mut r: usize = 0;
    let mut band: Vec<(Vec<(P, u32)>, u32)> = Vec::new();
    while r < rows
        invariant
            r <= rows,
            tile >= 1,
            check_every >= 1,
            rows * cols <= usize::MAX,
            rows + tile <= usize::MAX,
            cols + tile <= usize::MAX,
            tile * tile <= usize::MAX,
            across == tile_count(cols as int, tile as int),
            forall|r: usize, c: usize| #[trigger] call_requires(start, (r, c)),
            forall|p: P| call_requires(rule, (p,)),
            out@.len() == r * cols,
            r as int % tile as int != 0 ==> band@.len() == across && forall|b: int|
                0 <= b < across ==> is_done(
                    start,
                    rule,
                    tile as int,
                    r as int / tile as int,
                    b,
                    max as nat,
                    check_every as nat,
                    #[trigger] band@[b],
                ),
            forall|y: int, x: int|
                #![trigger at(y, x, cols as int)]
                0 <= y < r && 0 <= x < cols ==> is_pixel_of(
                    start,
                    rule,
                    tile as int,
                    y,
                    x,
                    max as nat,
                    check_every as nat,
                    out@[at(y, x, cols as int)],
                ),
        decreases rows - r,
    {
        proof {
            lemma_cell_of(r as int, tile as int);
        }
        if r % tile == 0 {
            band = run_band(r / tile, across, cols, tile, max, check_every, &start, &rule);
        }
        let mut c: usize = 0;
        assert((r + 1) * cols <= rows * cols) by (nonlinear_arith)
            requires
                r < rows,
        ;
        assert((r + 1) * cols == r * cols + cols) by (nonlinear_arith);
        while c < cols
            invariant
                c <= cols,
                r < rows,
                tile >= 1,
                tile * tile <= usize::MAX,
                across == tile_count(cols as int, tile as int),
                band@.len() == across,
                forall|b: int|
                    0 <= b < across ==> is_done(
                        start,
                        rule,
                        tile as int,
                        r as int / tile as int,
                        b,
                        max as nat,
                        check_every as nat,
                        #[trigger] band@[b],
                    ),
                out@.len() == r * cols + c,
                forall|y: int, x: int|
                    #![trigger at(y, x, cols as int)]
                    0 <= y <= r && 0 <= x < cols && (y < r || x < c) ==> is_pixel_of(
                        start,
                        rule,
                        tile as int,
                        y,
                        x,
                        max as nat,
                        check_every as nat,
                        out@[at(y, x, cols as int)],
                    ),
            decreases cols - c,
        {
            proof {
                lemma_cell_of(r as int, tile as int);
                lemma_cell_of(c as int, tile as int);
                lemma_at(r as int % tile as int, c as int % tile as int, tile as int, tile as int);
                lemma_block_of(c as int, cols as int, tile as int);
                assert(is_done(
                    start,
                    rule,
                    tile as int,
                    r as int / tile as int,
                    c as int / tile as int,
                    max as nat,
                    check_every as nat,
                    band@[c as int / tile as int],
                ));
            }
            let steps: u32 = band[c / tile].1;
            let (p, n) = band[c / tile].0[(r % tile) * tile + c % tile];
            let ghost before = out@;
            out.push((p, n, steps));
            proof {
                assert(is_pixel_of(
                    start,
                    rule,
                    tile as int,
                    r as int,
                    c as int,
                    max as nat,
                    check_every as nat,
                    (p, n, steps),
                )) by {
                    let lanes = band@[c as int / tile as int].0@;
                    assert(is_block(
                        start,
                        rule,
                        tile as int,
                        r as int / tile as int,
                        c as int / tile as int,
                        max as nat,
                        lanes,
                    ));
                }
                assert forall|y: int, x: int|
                    #![trigger at(y, x, cols as int)]
                    0 <= y <= r && 0 <= x < cols && (y < r || x < c + 1) implies is_pixel_of(
                    start,
                    rule,
                    tile as int,
                    y,
                    x,
                    max as nat,
                    check_every as nat,
                    out@[at(y, x, cols as int)],
                ) by {
                    if y < r || x < c {
                        assert(at(y, x, cols as int) < before.len()) by {
                            if y < r {
                                lemma_at(y, x, r as int, cols as int);
                            }
                        }
                        assert(0 <= at(y, x, cols as int)) by {
                            lemma_at(y, x, r + 1, cols as int);
                        }
                        assert(out@[at(y, x, cols as int)] == before[at(y, x, cols as int)]);
                    } else {
                        assert(out@[at(y, x, cols as int)] == (p, n, steps));
                    }
                }
            }
            c = c + 1;
        }
        proof {
            lemma_next_row(r as int, tile as int);
        }
        r = r + 1;
    }
    out
}

/// A block that has run, with the steps that it took.
spec fn is_done<P, S: Fn(usize, usize) -> P, F: Fn(P) -> Option<P>>(
    start: S,
    rule: F,
    tile: int,
    pr: int,
    pc: int,
    max: nat,
    every: nat,
    done: (Vec<(P, u32)>, u32),
) -> bool {
    &&& is_block(start, rule, tile, pr, pc, max, done.0@)
    &&& done.1 == tile_steps(counts(done.0@), 0, max, every)
    &&& tile_steps(counts(done.0@), 0, max, every) <= max
}

/// The column of pixels `c` belongs to one of the blocks that cover `cols`.
proof fn lemma_block_of(c: int, cols: int, tile: int)
    requires
        0 <= c < cols,
        tile >= 1,
    ensures
        0 <= c / tile < tile_count(cols, tile),
{
    lemma_cell_of(c, tile);
    law_tiles_up(cols, tile);
    let n = tile_count(cols, tile);
    assert(c / tile < n) by (nonlinear_arith)
        requires
            c == (c / tile) * tile + c % tile,
            0 <= c % tile,
            c < n * tile,
            tile >= 1,
    ;
}

/// The next row is in the same band of blocks unless it begins one.
proof fn lemma_next_row(r: int, tile: int)
    requires
        0 <= r,
        tile >= 1,
    ensures
        (r + 1) % tile != 0 ==> (r + 1) / tile == r / tile,
{
    lemma_cell_of(r, tile);
    if r % tile + 1 < tile {
        lemma_fundamental_div_mod_converse(
            r + 1,
            tile,
            r / tile,
            r % tile + 1,
        );
    } else {
        assert(r + 1 == (r / tile + 1) * tile) by (nonlinear_arith)
            requires
                r == (r / tile) * tile + r % tile,
                r % tile + 1 == tile,
        ;
        lemma_fundamental_div_mod_converse(r + 1, tile, r / tile + 1, 0);
    }
}

/// All blocks of band `pr`, from the left.
fn run_band<P: Copy, S: Fn(usize, usize) -> P, F: Fn(P) -> Option<P>>(
    pr: usize,
    across: usize,
    cols: usize,
    tile: usize,
    max: u32,
    check_every: u32,
    start: &S,
    rule: &F,
) -> (band: Vec<(Vec<(P, u32)>, u32)>)
    requires
        tile >= 1,
        check_every >= 1,
        cols + tile <= usize::MAX,
        tile * tile <= usize::MAX,
        across == tile_count(cols as int, tile as int),
        at(pr as int, tile as int, tile as int) <= usize::MAX,
        forall|r: usize, c: usize| #[trigger] call_requires(*start, (r, c)),
        forall|p: P| call_requires(*rule, (p,)),
    ensures
        band@.len() == across,
        forall|b: int|
            0 <= b < across ==> is_done(
                *start,
                *rule,
                tile as int,
                pr as int,
                b,
                max as nat,
                check_every as nat,
                #[trigger] band@[b],
            ),
{
    let mut band: Vec<(Vec<(P, u32)>, u32)> = Vec::new();
    let mut b: usize = 0;
    while b < across
        invariant
            b <= across,
            tile >= 1,
            check_every >= 1,
            cols + tile <= usize::MAX,
            tile * tile <= usize::MAX,
            across == tile_count(cols as int, tile as int),
            at(pr as int, tile as int, tile as int) <= usize::MAX,
            forall|r: usize, c: usize| #[trigger] call_requires(*start, (r, c)),
            forall|p: P| call_requires(*rule, (p,)),
            band@.len() == b,
            forall|q: int|
                0 <= q < b ==> is_done(
                    *start,
                    *rule,
                    tile as int,
                    pr as int,
                    q,
                    max as nat,
                    check_every as nat,
                    #[trigger] band@[q],
                ),
        decreases across - b,
    {
        proof {
            law_tiles_up(cols as int, tile as int);
            assert(b * tile + tile <= across * tile) by (nonlinear_arith)
                requires
                    b < across,
                    tile >= 1,
            ;
        }
        let done = block(tile, pr, b, max, check_every, start, rule);
        proof {
            let c = counts(done.0@);
            assert forall|i: int| 0 <= i < c.len() implies #[trigger] c[i] <= max by {
                assert(c[i] == done.0@[i].1);
                lemma_cell_of(i, tile as int);
                lemma_row_bound(i, tile as int, tile as int);
                assert(at(i / tile as int, i % tile as int, tile as int) == i);
                lemma_lane_count(
                    *start,
                    *rule,
                    at(pr as int, i / tile as int, tile as int) as usize,
                    at(b as int, i % tile as int, tile as int) as usize,
                    max as nat,
                    done.0@[i],
                );
            }
            law_tile_follows_lanes(c, max as nat, check_every as nat, max as nat);
        }
        band.push(done);
        b = b + 1;
    }
    band
}

proof fn lemma_lane_count<P, S: Fn(usize, usize) -> P, F: Fn(P) -> Option<P>>(
    start: S,
    rule: F,
    r: usize,
    c: usize,
    max: nat,
    lane: (P, u32),
)
    requires
        is_lane_of(start, rule, r, c, max, lane),
    ensures
        lane.1 <= max,
{
    let p = choose|p: P| #[trigger]
        call_ensures(start, (r, c), p) && ended(rule, p, max, lane.0, lane.1 as nat);
    let trace = choose|trace: Seq<P>| #[trigger]
        is_run(rule, trace, max) && trace[0] == p && trace.last() == lane.0 && trace.len() == lane.1
            as nat + 1;
}

/// A pixel made in a block is the pixel made alone: where its lane ended and
/// after how many steps does not depend on the size of the blocks, nor on how
/// often they look whether to stop.
pub proof fn law_pixel_is_its_lane<P, S: Fn(usize, usize) -> P, F: Fn(P) -> Option<P>>(
    start: S,
    rule: F,
    tile: int,
    r: int,
    c: int,
    max: nat,
    every: nat,
    px: (P, u32, u32),
)
    requires
        tile >= 1,
        0 <= r,
        0 <= c,
        is_pixel_of(start, rule, tile, r, c, max, every, px),
    ensures
        is_lane_of(start, rule, r as usize, c as usize, max, (px.0, px.1)),
{
    let lanes = choose|lanes: Seq<(P, u32)>| #[trigger]
        is_block(start, rule, tile, r / tile, c / tile, max, lanes) && px == (
            lanes[at(r % tile, c % tile, tile)].0,
            lanes[at(r % tile, c % tile, tile)].1,
            tile_steps(counts(lanes), 0, max, every) as u32,
        );
    lemma_cell_of(r, tile);
    lemma_cell_of(c, tile);
    let q = at(r % tile, c % tile, tile);
    assert(lanes[q] == (px.0, px.1));
}

/// What a pixel of a picture made in blocks shows, step by step: let each of `pts` be
/// what the rule makes of the one before it, from where the pixel starts. If the rule
/// stops at the last of them and the budget reaches that far, that is shown, with so
/// many steps. If there are more of them, it is what the last step of the budget
/// leads to. Its block takes as many steps at least.
pub proof fn law_pixel_follows_its_points<P, S: Fn(usize, usize) -> P, F: Fn(P) -> Option<P>>(
    start: S,
    rule: F,
    tile: int,
    r: usize,
    c: usize,
    max: nat,
    every: nat,
    px: (P, u32, u32),
    pts: Seq<P>,
)
    requires
        tile >= 1,
        every >= 1,
        max <= u32::MAX,
        is_pixel_of(start, rule, tile, r as int, c as int, max, every, px),
        is_steady(rule),
        pts.len() >= 1,
        forall|p: P| #[trigger] call_ensures(start, (r, c), p) ==> p == pts[0],
        forall|i: int|
            #![trigger pts[i]]
            0 < i < pts.len() ==> call_ensures(rule, (pts[i - 1],), Some(pts[i])),
    ensures
        pts.len() <= max + 1 && call_ensures(rule, (pts.last(),), None) ==> px.0 == pts.last()
            && px.1 == pts.len() - 1,
        pts.len() >= max + 1 ==> px.0 == pts[max as int] && px.1 == max,
        px.1 <= px.2 <= max,
{
    law_pixel_is_its_lane(start, rule, tile, r as int, c as int, max, every, px);
    let p = choose|p: P| #[trigger]
        call_ensures(start, (r, c), p) && ended(rule, p, max, px.0, px.1 as nat);
    lanes::law_lane_follows_its_points(rule, pts, max, px.0, px.1 as nat);
    let all = choose|all: Seq<(P, u32)>| #[trigger]
        is_block(start, rule, tile, r as int / tile, c as int / tile, max, all) && px == (
            all[at(r as int % tile, c as int % tile, tile)].0,
            all[at(r as int % tile, c as int % tile, tile)].1,
            tile_steps(counts(all), 0, max, every) as u32,
        ) && tile_steps(counts(all), 0, max, every) <= max;
    lemma_cell_of(r as int, tile);
    lemma_cell_of(c as int, tile);
    let q = at(r as int % tile, c as int % tile, tile);
    lemma_at(r as int % tile, c as int % tile, tile, tile);
    assert forall|i: int| 0 <= i < counts(all).len() implies #[trigger] counts(all)[i] <= max by {
        lemma_cell_of(i, tile);
        lemma_row_bound(i, tile, tile);
        assert(at(i / tile, i % tile, tile) == i);
        lemma_lane_count(
            start,
            rule,
            at(r as int / tile, i / tile, tile) as usize,
            at(c as int / tile, i % tile, tile) as usize,
            max,
            all[i],
        );
    }
    law_tile_follows_lanes(counts(all), max, every, max);
    assert(counts(all)[q] == px.1);
}

} // verus!
