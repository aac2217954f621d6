//! Drawing triangles with a depth buffer, band by band.
//!
//! Whether a triangle covers a pixel, how deep it is there and what color it
//! has is a matter of real numbers, and is handed in. Depths are compared as
//! integers: the smaller one is nearer.
use crate::cloth::raster::{buckets, clip, is_between, touches, touching};
use crate::grid::{at, lemma_at, lemma_cell_of, lemma_row_bound};
use crate::parallel::par_map;
use vstd::arithmetic::div_mod::lemma_fundamental_div_mod_converse;
use vstd::prelude::*;

verus! {

/// A pixel of the screen, or what a shape puts there.
#[derive(Clone, Copy, Debug, PartialEq, Eq, Structural)]
pub struct Dot {
    pub depth: u32,
    pub color: u32,
}

/// The pixels that a shape may cover, the last row and column included. A shape
/// whose last row is 0 lies above the screen.
#[derive(Clone, Copy, Debug, PartialEq, Eq, Structural)]
pub struct Bounds {
    pub x0: usize,
    pub x1: usize,
    pub y0: usize,
    pub y1: usize,
}

impl Bounds {
    pub open spec fn has(self, x: int, y: int) -> bool {
        &&& self.x0 <= x <= self.x1
        &&& self.y0 <= y <= self.y1
        &&& self.y1 != 0
    }

    /// The rows go from the first to the last, where there are any.
    pub open spec fn wf(self, height: int) -> bool {
        self.y0 >= height || self.y1 == 0 || self.y0 <= self.y1
    }
}

/// Position of pixel `(x, y)` in rows of `w` pixels from row `y_start` on.
pub open spec fn spot(x: usize, y: usize, w: usize, y_start: usize) -> int {
    at(y - y_start, x as int, w as int)
}

/// The nearer of a pixel and what is put over it.
pub open spec fn tested(p: Dot, f: Option<Dot>) -> Dot {
    match f {
        Some(d) => if d.depth < p.depth {
            d
        } else {
            p
        },
        None => p,
    }
}

/// What shape number `i` puts at `(x, y)`: nothing outside its bounds.
pub open spec fn puts<F: Fn(usize, usize, usize) -> Option<Dot>>(
    frag: F,
    bounds: Bounds,
    i: usize,
    x: usize,
    y: usize,
    f: Option<Dot>,
) -> bool {
    if bounds.has(x as int, y as int) {
        call_ensures(frag, (i, x, y), f)
    } else {
        f is None
    }
}

/// Pixel `(x, y)` goes from `before` to `after` as shape number `i` is drawn.
pub open spec fn is_put<F: Fn(usize, usize, usize) -> Option<Dot>>(
    frag: F,
    bounds: Bounds,
    i: usize,
    x: usize,
    y: usize,
    before: Dot,
    after: Dot,
) -> bool {
    exists|f: Option<Dot>| #[trigger]
        puts(frag, bounds, i, x, y, f) && after == tested(before, f)
}

/// A pixel after a number of shapes.
pub open spec fn drawn(p: Dot, puts: Seq<Option<Dot>>) -> Dot
    decreases puts.len(),
{
    if puts.len() == 0 {
        p
    } else {
        tested(drawn(p, puts.drop_last()), puts.last())
    }
}

/// What the first shapes put at `(x, y)`, in turn.
pub open spec fn is_history<F: Fn(usize, usize, usize) -> Option<Dot>>(
    frag: F,
    shapes: Seq<Bounds>,
    x: usize,
    y: usize,
    past: Seq<Option<Dot>>,
) -> bool {
    &&& past.len() <= shapes.len()
    &&& forall|i: int|
        #![trigger past[i]]
        0 <= i < past.len() ==> puts(frag, shapes[i], i as usize, x, y, past[i])
}

/// Pixel `(x, y)` goes from `before` to `after` as the first `n` shapes are
/// drawn one after the other.
pub open spec fn is_drawn<F: Fn(usize, usize, usize) -> Option<Dot>>(
    frag: F,
    shapes: Seq<Bounds>,
    n: nat,
    x: usize,
    y: usize,
    before: Dot,
    after: Dot,
) -> bool {
    exists|past: Seq<Option<Dot>>| #[trigger]
        is_history(frag, shapes, x, y, past) && past.len() == n && after == drawn(before, past)
}

proof fn lemma_nothing_drawn<F: Fn(usize, usize, usize) -> Option<Dot>>(
    frag: F,
    shapes: Seq<Bounds>,
    x: usize,
    y: usize,
    p: Dot,
)
    ensures
        is_drawn(frag, shapes, 0, x, y, p, p),
{
    let past: Seq<Option<Dot>> = seq![];
    assert(is_history(frag, shapes, x, y, past));
}

proof fn lemma_one_more<F: Fn(usize, usize, usize) -> Option<Dot>>(
    frag: F,
    shapes: Seq<Bounds>,
    n: nat,
    x: usize,
    y: usize,
    before: Dot,
    mid: Dot,
    f: Option<Dot>,
)
    requires
        n < shapes.len() <= usize::MAX,
        is_drawn(frag, shapes, n, x, y, before, mid),
        puts(frag, shapes[n as int], n as usize, x, y, f),
    ensures
        is_drawn(frag, shapes, n + 1, x, y, before, tested(mid, f)),
{
    let past = choose|past: Seq<Option<Dot>>| #[trigger]
        is_history(frag, shapes, x, y, past) && past.len() == n && mid == drawn(before, past);
    let more = past.push(f);
    assert(more.drop_last() =~= past);
    assert forall|i: int| #![trigger more[i]] 0 <= i < more.len() implies puts(
        frag,
        shapes[i],
        i as usize,
        x,
        y,
        more[i],
    ) by {
        if i < past.len() {
            assert(more[i] == past[i]);
        }
    }
    assert(is_history(frag, shapes, x, y, more));
}

/// Shapes that do not reach `(x, y)` leave it as it is.
proof fn lemma_skip<F: Fn(usize, usize, usize) -> Option<Dot>>(
    frag: F,
    shapes: Seq<Bounds>,
    n: nat,
    m: nat,
    x: usize,
    y: usize,
    before: Dot,
    after: Dot,
)
    requires
        n <= m <= shapes.len() <= usize::MAX,
        is_drawn(frag, shapes, n, x, y, before, after),
        forall|i: int|
            #![trigger shapes[i]]
            n <= i < m ==> !shapes[i].has(x as int, y as int),
    ensures
        is_drawn(frag, shapes, m, x, y, before, after),
    decreases m - n,
{
    if n < m {
        assert(!shapes[n as int].has(x as int, y as int));
        lemma_one_more(frag, shapes, n, x, y, before, after, None);
        lemma_skip(frag, shapes, n + 1, m, x, y, before, after);
    }
}

/// Draw shape number `i` into `rows` rows of the screen, from row `y_start` on.
pub fn fill<F: Fn(usize, usize, usize) -> Option<Dot>>(
    frag: &F,
    i: usize,
    bounds: Bounds,
    dots: &mut Vec<Dot>,
    w: usize,
    y_start: usize,
    rows: usize,
)
    requires
        old(dots)@.len() == rows * w,
        y_start + rows <= usize::MAX,
        forall|x: usize, y: usize| #[trigger] call_requires(*frag, (i, x, y)),
    ensures
        final(dots)@.len() == rows * w,
        forall|x: usize, y: usize|
            #![trigger spot(x, y, w, y_start)]
            x < w && y_start <= y < y_start + rows ==> is_put(
                *frag,
                bounds,
                i,
                x,
                y,
                old(dots)@[spot(x, y, w, y_start)],
                final(dots)@[spot(x, y, w, y_start)],
            ),
{
    let ghost start = dots@;
    let n: usize = dots.len();
    if w == 0 || rows == 0 || bounds.y1 == 0 {
        proof {
            assert forall|x: usize, y: usize|
                #![trigger spot(x, y, w, y_start)]
                x < w && y_start <= y < y_start + rows implies is_put(
                *frag,
                bounds,
                i,
                x,
                y,
                start[spot(x, y, w, y_start)],
                dots@[spot(x, y, w, y_start)],
                ) by {
                assert(puts(*frag, bounds, i, x, y, None));
            }
        }
        return;
    }
    let across = clip(bounds.x0, bounds.x1, 0, w);
    let down = clip(bounds.y0, bounds.y1, y_start, rows);
    match (across, down) {
        (Some((xa, xb)), Some((ya, yb))) => {
            proof {
                lemma_clipped(bounds, w, y_start, rows, xa, xb, ya, yb);
                assert forall|x: usize, y: usize|
                    #![trigger spot(x, y, w, y_start)]
                    x < w && y_start <= y < y_start + rows implies is_step(
                    *frag,
                    bounds,
                    i,
                    start,
                    dots@,
                    w,
                    y_start,
                    x,
                    y,
                    ya as int,
                    0,
                ) by {}
            }
            let mut y: usize = ya;
            while y <= yb
                invariant
                    ya <= y <= yb + 1,
                    xa <= xb,
                    xb < w,
                    y_start <= ya,
                    yb < y_start + rows,
                    y_start + rows <= usize::MAX,
                    n == rows * w,
                    dots@.len() == n,
                    start.len() == n,
                    forall|x: usize, y: usize| #[trigger] call_requires(*frag, (i, x, y)),
                    forall|x: usize, z: usize|
                        x < w && y_start <= z < y_start + rows ==> (#[trigger] bounds.has(
                            x as int,
                            z as int,
                        ) <==> xa <= x <= xb && ya <= z <= yb),
                    forall|x: usize, z: usize|
                        #![trigger spot(x, z, w, y_start)]
                        x < w && y_start <= z < y_start + rows ==> is_step(
                            *frag,
                            bounds,
                            i,
                            start,
                            dots@,
                            w,
                            y_start,
                            x,
                            z,
                            y as int,
                            0,
                        ),
                decreases yb + 1 - y,
            {
                let mut x: usize = xa;
                while x <= xb
                    invariant
                        ya <= y <= yb,
                        xa <= x <= xb + 1,
                        xb < w,
                        y_start <= ya,
                        yb < y_start + rows,
                        y_start + rows <= usize::MAX,
                        n == rows * w,
                        dots@.len() == n,
                        start.len() == n,
                        forall|x: usize, y: usize| #[trigger] call_requires(*frag, (i, x, y)),
                        forall|x: usize, z: usize|
                            x < w && y_start <= z < y_start + rows ==> (#[trigger] bounds.has(
                                x as int,
                                z as int,
                            ) <==> xa <= x <= xb && ya <= z <= yb),
                        forall|c: usize, z: usize|
                            #![trigger spot(c, z, w, y_start)]
                            c < w && y_start <= z < y_start + rows ==> is_step(
                                *frag,
                                bounds,
                                i,
                                start,
                                dots@,
                                w,
                                y_start,
                                c,
                                z,
                                y as int,
                                x as int,
                            ),
                    decreases xb + 1 - x,
                {
                    proof {
                        lemma_at(y - y_start, x as int, rows as int, w as int);
                        assert(0 <= (y - y_start) * w) by (nonlinear_arith)
                            requires
                                y >= y_start,
                        ;
                    }
                    let k: usize = (y - y_start) * w + x;
                    let f = frag(i, x, y);
                    let ghost before = dots@;
                    assert(k == spot(x, y, w, y_start));
                    match f {
                        Some(d) => {
                            if d.depth < dots[k].depth {
                                dots.set(k, d);
                            }
                        },
                        None => {},
                    }
                    proof {
                        assert(dots@ =~= before.update(k as int, tested(before[k as int], f)));
                        assert(bounds.has(x as int, y as int));
                        assert(puts(*frag, bounds, i, x, y, f));
                        assert forall|c: usize, z: usize|
                            #![trigger spot(c, z, w, y_start)]
                            c < w && y_start <= z < y_start + rows implies is_step(
                            *frag,
                            bounds,
                            i,
                            start,
                            dots@,
                            w,
                            y_start,
                            c,
                            z,
                            y as int,
                            x + 1,
                        ) by {
                            lemma_at(z - y_start, c as int, rows as int, w as int);
                            let q = spot(c, z, w, y_start);
                            assert(is_step(
                                *frag,
                                bounds,
                                i,
                                start,
                                before,
                                w,
                                y_start,
                                c,
                                z,
                                y as int,
                                x as int,
                            ));
                            if z == y && c == x {
                                assert(q == k);
                            } else {
                                assert(q != k);
                                assert(dots@[q] == before[q]);
                            }
                        }
                    }
                    x = x + 1;
                }
                proof {
                    assert forall|c: usize, z: usize|
                        #![trigger spot(c, z, w, y_start)]
                        c < w && y_start <= z < y_start + rows implies is_step(
                        *frag,
                        bounds,
                        i,
                        start,
                        dots@,
                        w,
                        y_start,
                        c,
                        z,
                        y + 1,
                        0,
                    ) by {
                        assert(is_step(
                            *frag,
                            bounds,
                            i,
                            start,
                            dots@,
                            w,
                            y_start,
                            c,
                            z,
                            y as int,
                            x as int,
                        ));
                    }
                }
                y = y + 1;
            }
            proof {
                assert forall|x: usize, y: usize|
                    #![trigger spot(x, y, w, y_start)]
                    x < w && y_start <= y < y_start + rows implies is_put(
                    *frag,
                    bounds,
                    i,
                    x,
                    y,
                    start[spot(x, y, w, y_start)],
                    dots@[spot(x, y, w, y_start)],
                    ) by {
                    assert(is_step(
                        *frag,
                        bounds,
                        i,
                        start,
                        dots@,
                        w,
                        y_start,
                        x,
                        y,
                        yb + 1,
                        0,
                    ));
                    if !bounds.has(x as int, y as int) {
                        assert(puts(*frag, bounds, i, x, y, None));
                    }
                }
            }
        },
        _ => {
            proof {
                assert forall|x: usize, y: usize|
                    #![trigger spot(x, y, w, y_start)]
                    x < w && y_start <= y < y_start + rows implies is_put(
                    *frag,
                    bounds,
                    i,
                    x,
                    y,
                    start[spot(x, y, w, y_start)],
                    dots@[spot(x, y, w, y_start)],
                    ) by {
                    assert(is_between(x as int, bounds.x0 as int, bounds.x1 as int) || !bounds.has(
                        x as int,
                        y as int,
                    ));
                    assert(is_between(y as int, bounds.y0 as int, bounds.y1 as int) || !bounds.has(
                        x as int,
                        y as int,
                    ));
                    assert(puts(*frag, bounds, i, x, y, None));
                }
            }
        },
    }
}

/// Pixel `(x, y)` while shape `i` is being drawn, from the top left, and has come
/// to column `xd` of row `yd`: drawn already where it comes before that and the
/// shape reaches it, untouched elsewhere.
spec fn is_step<F: Fn(usize, usize, usize) -> Option<Dot>>(
    frag: F,
    bounds: Bounds,
    i: usize,
    start: Seq<Dot>,
    now: Seq<Dot>,
    w: usize,
    y_start: usize,
    x: usize,
    y: usize,
    yd: int,
    xd: int,
) -> bool {
    let k = spot(x, y, w, y_start);
    if (y < yd || (y == yd && x < xd)) && bounds.has(x as int, y as int) {
        is_put(frag, bounds, i, x, y, start[k], now[k])
    } else {
        now[k] == start[k]
    }
}

proof fn lemma_clipped(
    bounds: Bounds,
    w: usize,
    y_start: usize,
    rows: usize,
    xa: usize,
    xb: usize,
    ya: usize,
    yb: usize,
)
    requires
        bounds.y1 != 0,
        w > 0,
        rows > 0,
        xa <= xb,
        ya <= yb,
        forall|x: int|
            xa <= x <= xb <==> #[trigger] is_between(x, bounds.x0 as int, bounds.x1 as int) && 0 <= x
                < w,
        forall|y: int|
            ya <= y <= yb <==> #[trigger] is_between(y, bounds.y0 as int, bounds.y1 as int)
                && y_start <= y < y_start + rows,
    ensures
        xb < w,
        y_start <= ya,
        yb < y_start + rows,
        forall|x: usize, z: usize|
            x < w && y_start <= z < y_start + rows ==> (#[trigger] bounds.has(x as int, z as int)
                <==> xa <= x <= xb && ya <= z <= yb),
{
    assert(is_between(xb as int, bounds.x0 as int, bounds.x1 as int));
    assert(is_between(ya as int, bounds.y0 as int, bounds.y1 as int));
    assert(is_between(yb as int, bounds.y0 as int, bounds.y1 as int));
    assert forall|x: usize, z: usize|
        x < w && y_start <= z < y_start + rows implies (#[trigger] bounds.has(x as int, z as int)
        <==> xa <= x <= xb && ya <= z <= yb) by {
        assert(is_between(x as int, bounds.x0 as int, bounds.x1 as int) <==> bounds.x0 <= x
            <= bounds.x1);
        assert(is_between(z as int, bounds.y0 as int, bounds.y1 as int) <==> bounds.y0 <= z
            <= bounds.y1);
    }
}

/// The first and last row of every shape.
pub open spec fn spans_of(shapes: Seq<Bounds>) -> Seq<(usize, usize)> {
    Seq::new(shapes.len(), |i: int| (shapes[i].y0, shapes[i].y1))
}

fn spans(shapes: &Vec<Bounds>) -> (out: Vec<(usize, usize)>)
    ensures
        out@ == spans_of(shapes@),
{
    let mut out: Vec<(usize, usize)> = Vec::new();
    let mut i: usize = 0;
    while i < shapes.len()
        invariant
            i <= shapes@.len(),
            out@ == spans_of(shapes@).take(i as int),
        decreases shapes@.len() - i,
    {
        let b = shapes[i];
        out.push((b.y0, b.y1));
        assert(spans_of(shapes@).take(i + 1) =~= spans_of(shapes@).take(i as int).push(
            (b.y0, b.y1),
        ));
        i = i + 1;
    }
    assert(spans_of(shapes@).take(shapes@.len() as int) =~= spans_of(shapes@));
    out
}

/// The `j`th span that touches a band comes right behind those before it.
proof fn lemma_touching_at(
    spans: Seq<(usize, usize)>,
    height: int,
    band: int,
    b: int,
    n: nat,
    j: int,
)
    requires
        n <= spans.len() <= usize::MAX,
        0 <= j < touching(spans, height, band, b, n).len(),
    ensures
        ({
            let all = touching(spans, height, band, b, n);
            let t = all[j];
            &&& t < n
            &&& touching(spans, height, band, b, t as nat) == all.take(j)
            &&& touching(spans, height, band, b, t as nat + 1) == all.take(j + 1)
        }),
    decreases n,
{
    let all = touching(spans, height, band, b, n);
    let before = touching(spans, height, band, b, (n - 1) as nat);
    if j < before.len() {
        lemma_touching_at(spans, height, band, b, (n - 1) as nat, j);
        assert(all.take(j) =~= before.take(j));
        assert(all.take(j + 1) =~= before.take(j + 1));
    } else {
        assert(all.take(j) =~= before);
        assert(all.take(j + 1) =~= all);
    }
}

/// Where no more spans touch a band, none of those in between does.
proof fn lemma_none_between(
    spans: Seq<(usize, usize)>,
    height: int,
    band: int,
    b: int,
    n: nat,
    m: nat,
)
    requires
        n <= m <= spans.len(),
    ensures
        touching(spans, height, band, b, n).len() <= touching(spans, height, band, b, m).len(),
        touching(spans, height, band, b, n).len() == touching(spans, height, band, b, m).len()
            ==> forall|i: int|
            #![trigger spans[i]]
            n <= i < m ==> !touches(spans[i], height, band, b),
    decreases m - n,
{
    if n < m {
        lemma_none_between(spans, height, band, b, n, (m - 1) as nat);
    }
}

/// A shape that does not touch the band of a row does not reach into that row.
proof fn lemma_out_of_reach(shape: Bounds, height: int, band: int, b: int, x: int, y: int)
    requires
        band > 0,
        0 <= y < height,
        y / band == b,
        !touches((shape.y0, shape.y1), height, band, b),
    ensures
        !shape.has(x, y),
{
    if shape.has(x, y) {
        let last = if shape.y1 < height {
            shape.y1 as int
        } else {
            height - 1
        };
        assert(shape.y0 as int / band <= y / band) by (nonlinear_arith)
            requires
                0 <= shape.y0 <= y,
                band > 0,
        ;
        assert(y / band <= last / band) by (nonlinear_arith)
            requires
                0 <= y <= last,
                band > 0,
        ;
    }
}

/// Rows `b * band` and on of the screen, up to `band` of them, after all shapes
/// have been drawn: only those that touch these rows are looked at.
fn draw_band<F: Fn(usize, usize, usize) -> Option<Dot>>(
    dots: &Vec<Dot>,
    width: usize,
    height: usize,
    band: usize,
    b: usize,
    shapes: &Vec<Bounds>,
    bucket: &Vec<usize>,
    frag: &F,
) -> (out: Vec<Dot>)
    requires
        dots@.len() == height * width,
        band > 0,
        b * band < height,
        bucket@ == touching(
            spans_of(shapes@),
            height as int,
            band as int,
            b as int,
            shapes@.len(),
        ),
        forall|i: usize, x: usize, y: usize| #[trigger] call_requires(*frag, (i, x, y)),
    ensures
        is_band_drawn(
            *frag,
            shapes@,
            shapes@.len(),
            dots@,
            out@,
            width,
            height,
            band,
            b,
        ),
{
    let y_start: usize = b * band;
    let rows: usize = if height - y_start < band {
        height - y_start
    } else {
        band
    };
    proof {
        assert(rows * width <= height * width) by (nonlinear_arith)
            requires
                rows <= height,
        ;
        assert(y_start * width + rows * width == (y_start + rows) * width) by (nonlinear_arith);
        assert((y_start + rows) * width <= height * width) by (nonlinear_arith)
            requires
                y_start + rows <= height,
        ;
        assert(0 <= y_start * width) by (nonlinear_arith);
    }
    let n: usize = dots.len();
    let first: usize = y_start * width;
    let len: usize = rows * width;
    let mut out: Vec<Dot> = Vec::new();
    let mut k: usize = 0;
    while k < len
        invariant
            k <= len,
            first + len <= n,
            n == dots@.len(),
            out@.len() == k,
            forall|j: int| 0 <= j < k ==> #[trigger] out@[j] == dots@[first + j],
        decreases len - k,
    {
        out.push(dots[first + k]);
        k = k + 1;
    }
    proof {
        assert forall|x: usize, y: usize|
            #![trigger spot(x, y, width, y_start)]
            x < width && y_start <= y < y_start + rows implies is_drawn(
            *frag,
            shapes@,
            0,
            x,
            y,
            dots@[at(y as int, x as int, width as int)],
            out@[spot(x, y, width, y_start)],
        ) by {
            lemma_at(y - y_start, x as int, rows as int, width as int);
            assert(first + at(y - y_start, x as int, width as int) == at(
                y as int,
                x as int,
                width as int,
            )) by (nonlinear_arith)
                requires
                    first == y_start * width,
                    at(y - y_start, x as int, width as int) == (y - y_start) * width + x,
                    at(y as int, x as int, width as int) == y * width + x,
            ;
            lemma_nothing_drawn(
                *frag,
                shapes@,
                x,
                y,
                dots@[at(y as int, x as int, width as int)],
            );
        }
    }
    let ghost spans = spans_of(shapes@);
    let ghost mut upto: nat = 0;
    let total: usize = shapes.len();
    let mut j: usize = 0;
    while j < bucket.len()
        invariant
            j <= bucket@.len(),
            band > 0,
            y_start == b * band,
            y_start + rows <= height,
            rows <= band,
            total == shapes@.len(),
            spans == spans_of(shapes@),
            bucket@ == touching(spans, height as int, band as int, b as int, shapes@.len()),
            forall|i: usize, x: usize, y: usize| #[trigger] call_requires(*frag, (i, x, y)),
            upto <= shapes@.len(),
            touching(spans, height as int, band as int, b as int, upto) == bucket@.take(j as int),
            out@.len() == rows * width,
            forall|x: usize, y: usize|
                #![trigger spot(x, y, width, y_start)]
                x < width && y_start <= y < y_start + rows ==> is_drawn(
                    *frag,
                    shapes@,
                    upto,
                    x,
                    y,
                    dots@[at(y as int, x as int, width as int)],
                    out@[spot(x, y, width, y_start)],
                ),
        decreases bucket@.len() - j,
    {
        let t: usize = bucket[j];
        proof {
            lemma_touching_at(
                spans,
                height as int,
                band as int,
                b as int,
                shapes@.len(),
                j as int,
            );
            lemma_upto(spans, height as int, band as int, b as int, upto, t as nat);
            lemma_none_between(spans, height as int, band as int, b as int, upto, t as nat);
        }
        let ghost before = out@;
        fill(frag, t, shapes[t], &mut out, width, y_start, rows);
        proof {
            assert forall|x: usize, y: usize|
                #![trigger spot(x, y, width, y_start)]
                x < width && y_start <= y < y_start + rows implies is_drawn(
                *frag,
                shapes@,
                t as nat + 1,
                x,
                y,
                dots@[at(y as int, x as int, width as int)],
                out@[spot(x, y, width, y_start)],
            ) by {
                let p = dots@[at(y as int, x as int, width as int)];
                let q = before[spot(x, y, width, y_start)];
                lemma_row_of_band(y as int, band as int, b as int);
                assert forall|i: int|
                    #![trigger shapes@[i]]
                    upto <= i < t implies !shapes@[i].has(x as int, y as int) by {
                    assert(spans[i] == (shapes@[i].y0, shapes@[i].y1));
                    lemma_out_of_reach(
                        shapes@[i],
                        height as int,
                        band as int,
                        b as int,
                        x as int,
                        y as int,
                    );
                }
                lemma_skip(*frag, shapes@, upto, t as nat, x, y, p, q);
                assert(is_put(
                    *frag,
                    shapes@[t as int],
                    t,
                    x,
                    y,
                    q,
                    out@[spot(x, y, width, y_start)],
                ));
                let f = choose|f: Option<Dot>| #[trigger]
                    puts(*frag, shapes@[t as int], t, x, y, f) && out@[spot(x, y, width, y_start)]
                        == tested(q, f);
                lemma_one_more(*frag, shapes@, t as nat, x, y, p, q, f);
            }
            upto = t as nat + 1;
        }
        j = j + 1;
    }
    proof {
        assert(bucket@.take(bucket@.len() as int) =~= bucket@);
        lemma_none_between(
            spans,
            height as int,
            band as int,
            b as int,
            upto,
            shapes@.len(),
        );
        assert forall|x: usize, y: usize|
            #![trigger spot(x, y, width, y_start)]
            x < width && y_start <= y < y_start + rows implies is_drawn(
            *frag,
            shapes@,
            shapes@.len(),
            x,
            y,
            dots@[at(y as int, x as int, width as int)],
            out@[spot(x, y, width, y_start)],
        ) by {
            lemma_row_of_band(y as int, band as int, b as int);
            assert forall|i: int|
                #![trigger shapes@[i]]
                upto <= i < shapes@.len() implies !shapes@[i].has(x as int, y as int) by {
                assert(spans[i] == (shapes@[i].y0, shapes@[i].y1));
                lemma_out_of_reach(
                    shapes@[i],
                    height as int,
                    band as int,
                    b as int,
                    x as int,
                    y as int,
                );
            }
            lemma_skip(
                *frag,
                shapes@,
                upto,
                shapes@.len(),
                x,
                y,
                dots@[at(y as int, x as int, width as int)],
                out@[spot(x, y, width, y_start)],
            );
        }
    }
    out
}

/// A band of the screen after the first `n` shapes.
spec fn is_band_drawn<F: Fn(usize, usize, usize) -> Option<Dot>>(
    frag: F,
    shapes: Seq<Bounds>,
    n: nat,
    dots: Seq<Dot>,
    out: Seq<Dot>,
    width: usize,
    height: usize,
    band: usize,
    b: usize,
) -> bool {
    let y_start = (b * band) as usize;
    let rows: int = if height - b * band < band {
        height - b * band
    } else {
        band as int
    };
    &&& out.len() == rows * width
    &&& forall|x: usize, y: usize|
        #![trigger spot(x, y, width, y_start)]
        x < width && y_start <= y < y_start + rows ==> is_drawn(
            frag,
            shapes,
            n,
            x,
            y,
            dots[at(y as int, x as int, width as int)],
            out[spot(x, y, width, y_start)],
        )
}

/// Rows `b * band` to `b * band + band` are those of band `b`.
proof fn lemma_row_of_band(y: int, band: int, b: int)
    requires
        band > 0,
        0 <= b,
        b * band <= y < b * band + band,
    ensures
        y / band == b,
{
    lemma_fundamental_div_mod_converse(y, band, b, y - b * band);
}

/// Spans are taken in order: what has been taken lies before the next one.
proof fn lemma_upto(
    spans: Seq<(usize, usize)>,
    height: int,
    band: int,
    b: int,
    upto: nat,
    t: nat,
)
    requires
        upto <= spans.len(),
        t < spans.len(),
        touching(spans, height, band, b, upto).len() < touching(spans, height, band, b, t + 1).len(),
    ensures
        upto <= t,
{
    if upto > t {
        lemma_none_between(spans, height, band, b, t + 1, upto);
    }
}

/// Draw shapes onto a screen of `height` rows of `width` pixels. The screen is
/// cut into bands of `band` rows, which are drawn in parallel, but every pixel
/// comes out as if the shapes had been drawn over the whole screen one after
/// the other.
pub fn draw<F: Fn(usize, usize, usize) -> Option<Dot> + Sync + Send>(
    dots: &Vec<Dot>,
    width: usize,
    height: usize,
    band: usize,
    shapes: &Vec<Bounds>,
    frag: F,
) -> (out: Vec<Dot>)
    requires
        dots@.len() == height * width,
        band > 0,
        forall|i: int| 0 <= i < shapes@.len() ==> (#[trigger] shapes@[i]).wf(height as int),
        forall|i: usize, x: usize, y: usize| #[trigger] call_requires(frag, (i, x, y)),
    ensures
        out@.len() == dots@.len(),
        forall|x: usize, y: usize|
            #![trigger at(y as int, x as int, width as int)]
            x < width && y < height ==> is_drawn(
                frag,
                shapes@,
                shapes@.len(),
                x,
                y,
                dots@[at(y as int, x as int, width as int)],
                out@[at(y as int, x as int, width as int)],
            ),
{
    let rows_of = spans(shapes);
    let bins = buckets(&rows_of, height, band);
    let n_bands: usize = bins.len();
    let len: usize = dots.len();
    let parts: Vec<Vec<Dot>> = par_map(
        n_bands,
        |b: usize| -> (part: Vec<Dot>)
            requires
                n_bands > b,
                height > 0,
                n_bands == (height - 1) / (band as int) + 1,
                bins@.len() == n_bands,
                dots@.len() == height * width,
                band > 0,
                bins@[b as int]@ == touching(
                    spans_of(shapes@),
                    height as int,
                    band as int,
                    b as int,
                    shapes@.len(),
                ),
                forall|i: usize, x: usize, y: usize| #[trigger] call_requires(frag, (i, x, y)),
            ensures
                is_band_drawn(
                    frag,
                    shapes@,
                    shapes@.len(),
                    dots@,
                    part@,
                    width,
                    height,
                    band,
                    b,
                ),
            {
                proof {
                    lemma_band_starts(b as int, height as int, band as int);
                }
                draw_band(dots, width, height, band, b, shapes, &bins[b], &frag)
            });
    let mut out: Vec<Dot> = Vec::new();
    let mut k: usize = 0;
    while k < len
        invariant
            k <= len,
            len == dots@.len(),
            len == height * width,
            band > 0,
            n_bands == (if height == 0 {
                0int
            } else {
                (height - 1) / (band as int) + 1
            }),
            parts@.len() == n_bands,
            forall|b: usize|
                b < n_bands ==> is_band_drawn(
                    frag,
                    shapes@,
                    shapes@.len(),
                    dots@,
                    (#[trigger] parts@[b as int])@,
                    width,
                    height,
                    band,
                    b,
                ),
            out@.len() == k,
            forall|i: int|
                0 <= i < k ==> is_drawn(
                    frag,
                    shapes@,
                    shapes@.len(),
                    (i % width as int) as usize,
                    (i / width as int) as usize,
                    dots@[i],
                    #[trigger] out@[i],
                ),
        decreases len - k,
    {
        proof {
            assert(width > 0) by (nonlinear_arith)
                requires
                    0 <= k < height * width,
            ;
            lemma_row_bound(k as int, height as int, width as int);
            lemma_cell_of(k as int, width as int);
            lemma_band_of((k / width) as int, height as int, band as int);
        }
        let y: usize = k / width;
        let x: usize = k % width;
        let b: usize = y / band;
        let y_start: usize = b * band;
        proof {
            assert(is_band_drawn(
                frag,
                shapes@,
                shapes@.len(),
                dots@,
                parts@[b as int]@,
                width,
                height,
                band,
                b,
            ));
            let rows: int = if height - b * band < band {
                height - b * band
            } else {
                band as int
            };
            lemma_at(y - y_start, x as int, rows, width as int);
            assert(0 <= (y - y_start) * width) by (nonlinear_arith)
                requires
                    y >= y_start,
            ;
            assert(rows * width <= height * width) by (nonlinear_arith)
                requires
                    rows <= height,
            ;
            assert(spot(x, y, width, y_start) == (y - y_start) * width + x);
            assert(at(y as int, x as int, width as int) == k);
        }
        let d = parts[b][(y - y_start) * width + x];
        out.push(d);
        k = k + 1;
    }
    proof {
        assert forall|x: usize, y: usize|
            #![trigger at(y as int, x as int, width as int)]
            x < width && y < height implies is_drawn(
            frag,
            shapes@,
            shapes@.len(),
            x,
            y,
            dots@[at(y as int, x as int, width as int)],
            out@[at(y as int, x as int, width as int)],
        ) by {
            lemma_at(y as int, x as int, height as int, width as int);
            let i = at(y as int, x as int, width as int);
            assert(is_drawn(
                frag,
                shapes@,
                shapes@.len(),
                (i % width as int) as usize,
                (i / width as int) as usize,
                dots@[i],
                out@[i],
            ));
        }
    }
    out
}

/// Every band has a first row.
proof fn lemma_band_starts(b: int, height: int, band: int)
    requires
        band > 0,
        height > 0,
        0 <= b < (height - 1) / band + 1,
    ensures
        0 <= b * band < height,
{
    assert(b * band <= height - 1) by (nonlinear_arith)
        requires
            0 <= b <= (height - 1) / band,
            band > 0,
            height > 0,
    ;
    assert(0 <= b * band) by (nonlinear_arith)
        requires
            0 <= b,
            band > 0,
    ;
}

/// Every row is in a band.
proof fn lemma_band_of(y: int, height: int, band: int)
    requires
        band > 0,
        0 <= y < height,
    ensures
        0 <= y / band < (height - 1) / band + 1,
        (y / band) * band <= y < (y / band) * band + band,
{
    lemma_cell_of(y, band);
    assert(y / band <= (height - 1) / band) by (nonlinear_arith)
        requires
            0 <= y <= height - 1,
            band > 0,
    ;
}

/// The nearest of all that is put at a pixel is what it shows: nothing drawn
/// there is nearer, and it is what was there before or one of the shapes'.
pub proof fn law_nearest_shows(p: Dot, puts: Seq<Option<Dot>>)
    ensures
        drawn(p, puts).depth <= p.depth,
        forall|i: int|
            0 <= i < puts.len() && #[trigger] puts[i] is Some ==> drawn(p, puts).depth
                <= puts[i]->0.depth,
        drawn(p, puts) == p || exists|i: int|
            0 <= i < puts.len() && #[trigger] puts[i] == Some(drawn(p, puts)),
    decreases puts.len(),
{
    if puts.len() > 0 {
        let before = puts.drop_last();
        law_nearest_shows(p, before);
        assert forall|i: int| 0 <= i < puts.len() && #[trigger] puts[i] is Some implies drawn(
            p,
            puts,
        ).depth <= puts[i]->0.depth by {
            if i < before.len() {
                assert(before[i] == puts[i]);
            }
        }
        if drawn(p, puts) != p {
            if drawn(p, puts) == drawn(p, before) {
                let i = choose|i: int|
                    0 <= i < before.len() && #[trigger] before[i] == Some(drawn(p, before));
                assert(puts[i] == before[i]);
            } else {
                assert(puts[puts.len() - 1] == Some(drawn(p, puts)));
            }
        }
    }
}

/// Where several shapes are equally near the first one shows, and a shape shows only
/// where it is nearer than what was there.
pub proof fn law_first_of_the_nearest(p: Dot, puts: Seq<Option<Dot>>, i: int)
    requires
        0 <= i < puts.len(),
        puts[i] is Some,
        puts[i]->0.depth < p.depth,
        forall|j: int|
            0 <= j < i && #[trigger] puts[j] is Some ==> puts[i]->0.depth < puts[j]->0.depth,
        forall|j: int|
            0 <= j < puts.len() && #[trigger] puts[j] is Some ==> puts[i]->0.depth
                <= puts[j]->0.depth,
    ensures
        drawn(p, puts) == puts[i]->0,
    decreases puts.len(),
{
    let before = puts.drop_last();
    let last = puts.len() - 1;
    assert forall|j: int| 0 <= j < last implies #[trigger] before[j] == puts[j] by {}
    if i < last {
        law_first_of_the_nearest(p, before, i);
        assert(puts[last] is Some ==> puts[i]->0.depth <= puts[last]->0.depth);
    } else {
        law_nearest_shows(p, before);
        let d = drawn(p, before);
        if d != p {
            let j = choose|j: int| 0 <= j < before.len() && #[trigger] before[j] == Some(d);
            assert(puts[j] == Some(d));
        }
    }
}

/// A shape puts something only within its bounds, the last row and column included, and
/// what a pixel shows is made of what every shape put there, none left out.
pub proof fn law_every_shape_counts<F: Fn(usize, usize, usize) -> Option<Dot>>(
    frag: F,
    shapes: Seq<Bounds>,
    x: usize,
    y: usize,
    before: Dot,
    after: Dot,
    past: Seq<Option<Dot>>,
)
    requires
        is_drawn(frag, shapes, shapes.len(), x, y, before, after),
        past.len() == shapes.len(),
        forall|i: int, f: Option<Dot>|
            #![trigger call_ensures(frag, (i as usize, x, y), f)]
            0 <= i < shapes.len() && call_ensures(frag, (i as usize, x, y), f) && shapes[i].x0 <= x
                <= shapes[i].x1 && shapes[i].y0 <= y <= shapes[i].y1 && shapes[i].y1 != 0 ==> f
                == past[i],
        forall|i: int|
            0 <= i < shapes.len() && !(shapes[i].x0 <= x <= shapes[i].x1 && shapes[i].y0 <= y
                <= shapes[i].y1 && shapes[i].y1 != 0) ==> #[trigger] past[i] is None,
    ensures
        after == drawn(before, past),
{
    let found = choose|found: Seq<Option<Dot>>| #[trigger]
        is_history(frag, shapes, x, y, found) && found.len() == shapes.len() && after == drawn(
            before,
            found,
        );
    assert forall|i: int| 0 <= i < found.len() implies found[i] == past[i] by {
        let f = found[i];
        assert(puts(frag, shapes[i], i as usize, x, y, f));
        let old = past[i];
    }
    assert(found =~= past);
}

} // verus!
