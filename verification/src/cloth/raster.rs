//! Turning the grid of shaded particles into triangles, and sharing the
//! triangles out to bands of rows that can be filled independently.
use crate::cloth::world::{Layout, TILE};
use crate::grid::{at, div_ceil, lemma_at};
use crate::parallel::threads;
use vstd::prelude::*;

verus! {

/// Rows of a band of a screen of `height` rows that `n` threads draw: as few as
/// let four bands per thread cover the screen, and one at least.
pub open spec fn band_of(height: int, n: int) -> int {
    if height <= 0 {
        1
    } else {
        (height - 1) / (4 * n) + 1
    }
}

/// Rows of a band: a screen is cut into about four bands per thread.
pub fn band_rows(height: usize, n_threads: usize) -> (band: usize)
    requires
        1 <= n_threads,
        4 * n_threads <= usize::MAX,
    ensures
        band == band_of(height as int, n_threads as int),
        band >= 1,
{
    let n: usize = div_ceil(height, n_threads * 4);
    if n == 0 {
        1
    } else {
        n
    }
}

/// Rows of a band on this machine: those for the number of threads that it has,
/// which is left open between one and the most that a pool may have.
pub fn band_here(height: usize) -> (band: usize)
    ensures
        exists|n: int| 1 <= n <= 65535 && band == #[trigger] band_of(height as int, n),
        band >= 1,
        height >= 1 ==> band <= height,
{
    let n: usize = threads();
    let band: usize = band_rows(height, n);
    assert(band == band_of(height as int, n as int));
    assert(height >= 1 ==> (height - 1) / (4 * n as int) <= height - 1) by (nonlinear_arith)
        requires
            n >= 1,
    ;
    band
}

/// The corners of the two triangles of grid cell `(r, c)`, as buffer indices.
pub open spec fn corners(lay: Layout, r: int, c: int, second: bool) -> (int, int, int) {
    let w = lay.width();
    let (a, b) = (at(r + TILE, c + TILE, w), at(r + TILE, c + 1 + TILE, w));
    let (d, e) = (at(r + 1 + TILE, c + TILE, w), at(r + 1 + TILE, c + 1 + TILE, w));
    if second {
        (b, e, d)
    } else {
        (a, b, d)
    }
}

/// The `n`th triangle of a cloth: two for every cell of the grid, row by row.
pub open spec fn triangle(lay: Layout, n: int) -> (int, int, int) {
    let cells = lay.cols - 1;
    corners(lay, n / 2 / cells, n / 2 % cells, n % 2 == 1)
}

/// The triangles of a cloth: two for every cell of the grid, row by row, as
/// indices of their corners.
pub fn triangles(lay: &Layout) -> (out: Vec<(usize, usize, usize)>)
    requires
        lay.fits(),
        lay.rows >= 1,
        lay.cols >= 1,
    ensures
        out@.len() == 2 * ((lay.rows - 1) * (lay.cols - 1)),
        forall|n: int|
            0 <= n < out@.len() ==> {
                let t = #[trigger] out@[n];
                (t.0 as int, t.1 as int, t.2 as int) == triangle(*lay, n)
            },
        forall|n: int|
            0 <= n < out@.len() ==> (#[trigger] out@[n]).0 < lay.size() && out@[n].1 < lay.size()
                && out@[n].2 < lay.size(),
{
    proof {
        lay.lemma_fits();
    }
    let mut out: Vec<(usize, usize, usize)> = Vec::new();
    let ghost cells = lay.cols - 1;
    let mut r: usize = 0;
    proof {
        assert(0 * cells == 0) by (nonlinear_arith);
    }
    while r < lay.rows - 1
        invariant
            lay.fits(),
            lay.height() <= usize::MAX,
            lay.width() <= usize::MAX,
            cells == lay.cols - 1,
            lay.cols >= 1,
            r <= lay.rows - 1,
            out@.len() == 2 * (r * cells),
            forall|n: int|
                0 <= n < out@.len() ==> {
                    let t = #[trigger] out@[n];
                    (t.0 as int, t.1 as int, t.2 as int) == triangle(*lay, n)
                },
            forall|n: int|
                0 <= n < out@.len() ==> (#[trigger] out@[n]).0 < lay.size() && out@[n].1
                    < lay.size() && out@[n].2 < lay.size(),
        decreases lay.rows - r,
    {
        let mut c: usize = 0;
        while c < lay.cols - 1
            invariant
                lay.fits(),
                lay.height() <= usize::MAX,
                lay.width() <= usize::MAX,
                cells == lay.cols - 1,
                lay.cols >= 1,
                r < lay.rows - 1,
                c <= cells,
                out@.len() == 2 * (r * cells + c),
                forall|n: int|
                    0 <= n < out@.len() ==> {
                        let t = #[trigger] out@[n];
                        (t.0 as int, t.1 as int, t.2 as int) == triangle(*lay, n)
                    },
                forall|n: int|
                    0 <= n < out@.len() ==> (#[trigger] out@[n]).0 < lay.size() && out@[n].1
                        < lay.size() && out@[n].2 < lay.size(),
            decreases lay.cols - c,
        {
            proof {
                let (h, w) = (lay.height(), lay.width());
                lemma_at(r + TILE, c + TILE, h, w);
                lemma_at(r + TILE, c + 1 + TILE, h, w);
                lemma_at(r + 1 + TILE, c + TILE, h, w);
                lemma_at(r + 1 + TILE, c + 1 + TILE, h, w);
                lemma_at(r as int, c as int, r + 1, cells);
                let n = 2 * (r * cells + c);
                assert(n / 2 == r * cells + c && (n + 1) / 2 == r * cells + c);
                assert(n % 2 == 0 && (n + 1) % 2 == 1);
            }
            let a: usize = lay.index(r, c);
            let b: usize = lay.index(r, c + 1);
            let d: usize = lay.index(r + 1, c);
            let e: usize = lay.index(r + 1, c + 1);
            out.push((a, b, d));
            out.push((b, e, d));
            c += 1;
        }
        assert(r * cells + cells == (r + 1) * cells) by (nonlinear_arith);
        r += 1;
    }
    assert((lay.rows - 1) * cells == r * cells);
    out
}

/// Whether rows `span.0` to `span.1` touch band `b` of a screen.
pub open spec fn touches(span: (usize, usize), height: int, band: int, b: int) -> bool {
    &&& span.0 < height
    &&& span.1 != 0
    &&& span.0 as int / band <= b
    &&& b <= (if span.1 < height {
        span.1 as int
    } else {
        height - 1
    }) / band
}

/// Which of the first `n` spans touch band `b`, in order.
pub open spec fn touching(
    spans: Seq<(usize, usize)>,
    height: int,
    band: int,
    b: int,
    n: nat,
) -> Seq<usize>
    decreases n,
{
    if n == 0 {
        seq![]
    } else {
        let before = touching(spans, height, band, b, (n - 1) as nat);
        if touches(spans[n - 1], height, band, b) {
            before.push((n - 1) as usize)
        } else {
            before
        }
    }
}

/// Share triangles out by the bands they touch, given the rows each one spans.
/// A band's triangles stay in order.
pub fn buckets(spans: &Vec<(usize, usize)>, height: usize, band: usize) -> (out: Vec<Vec<usize>>)
    requires
        band > 0,
        forall|i: int|
            0 <= i < spans@.len() ==> (#[trigger] spans@[i]).0 >= height || spans@[i].1 == 0
                || spans@[i].0 <= spans@[i].1,
    ensures
        out@.len() == (if height == 0 {
            0int
        } else {
            (height - 1) / (band as int) + 1
        }),
        forall|b: int|
            0 <= b < out@.len() ==> (#[trigger] out@[b])@ == touching(
                spans@,
                height as int,
                band as int,
                b,
                spans@.len(),
            ),
{
    let n_bands: usize = div_ceil(height, band);
    let mut out: Vec<Vec<usize>> = Vec::new();
    let mut b: usize = 0;
    while b < n_bands
        invariant
            b <= n_bands,
            out@.len() == b,
            forall|k: int| 0 <= k < b ==> (#[trigger] out@[k])@ == Seq::<usize>::empty(),
        decreases n_bands - b,
    {
        out.push(Vec::new());
        b += 1;
    }
    let mut i: usize = 0;
    while i < spans.len()
        invariant
            band > 0,
            i <= spans@.len(),
            out@.len() == n_bands,
            n_bands == (if height == 0 {
                0int
            } else {
                (height - 1) / (band as int) + 1
            }),
            forall|i: int|
                0 <= i < spans@.len() ==> (#[trigger] spans@[i]).0 >= height || spans@[i].1 == 0
                    || spans@[i].0 <= spans@[i].1,
            forall|k: int|
                0 <= k < out@.len() ==> (#[trigger] out@[k])@ == touching(
                    spans@,
                    height as int,
                    band as int,
                    k,
                    i as nat,
                ),
        decreases spans.len() - i,
    {
        let (y0, y1): (usize, usize) = spans[i];
        if y0 >= height || y1 == 0 {
            i += 1;
            continue;
        }
        let last: usize = if y1 < height {
            y1
        } else {
            height - 1
        };
        let (lo, hi): (usize, usize) = (y0 / band, last / band);
        proof {
            let (p, q, t, m) = (y0 as int, last as int, band as int, height - 1);
            assert(p / t <= q / t && q / t <= m / t) by (nonlinear_arith)
                requires
                    0 <= p <= q,
                    q <= m,
                    t > 0,
            ;
        }
        let ghost before = out@;
        let mut k: usize = lo;
        while k <= hi
            invariant
                band > 0,
                i < spans@.len(),
                (y0, y1) == spans@[i as int],
                y0 < height,
                y1 != 0,
                last == (if y1 < height {
                    y1 as int
                } else {
                    height - 1
                }),
                lo == y0 as int / (band as int),
                hi == last as int / (band as int),
                lo <= k <= hi + 1,
                hi < n_bands,
                out@.len() == n_bands,
                before.len() == n_bands,
                forall|j: int|
                    0 <= j < before.len() ==> (#[trigger] before[j])@ == touching(
                        spans@,
                        height as int,
                        band as int,
                        j,
                        i as nat,
                    ),
                forall|j: int|
                    0 <= j < out@.len() ==> (#[trigger] out@[j])@ == if lo <= j < k {
                        before[j]@.push(i)
                    } else {
                        before[j]@
                    },
            decreases hi + 1 - k,
        {
            let mut bucket: Vec<usize> = Vec::new();
            std::mem::swap(&mut bucket, &mut out[k]);
            bucket.push(i);
            out[k] = bucket;
            k += 1;
        }
        proof {
            assert forall|j: int| 0 <= j < out@.len() implies (#[trigger] out@[j])@ == touching(
                spans@,
                height as int,
                band as int,
                j,
                (i + 1) as nat,
            ) by {
                assert(before[j]@ == touching(spans@, height as int, band as int, j, i as nat));
                assert(touches(spans@[i as int], height as int, band as int, j) <==> lo <= j <= hi);
            }
        }
        i += 1;
    }
    out
}

/// The part of `[lo, hi]` inside `[start, start + len)`, if there is any.
pub fn clip(lo: usize, hi: usize, start: usize, len: usize) -> (span: Option<(usize, usize)>)
    requires
        start + len <= usize::MAX,
        len > 0,
    ensures
        match span {
            Some((a, b)) => {
                &&& a <= b
                &&& forall|x: int|
                    a <= x <= b <==> #[trigger] is_between(x, lo as int, hi as int) && start <= x
                        < start + len
            },
            None => forall|x: int|
                !(#[trigger] is_between(x, lo as int, hi as int) && start <= x < start + len),
        },
{
    let a: usize = if lo > start {
        lo
    } else {
        start
    };
    let end: usize = start + len - 1;
    let b: usize = if hi < end {
        hi
    } else {
        end
    };
    if a > b {
        None
    } else {
        Some((a, b))
    }
}

/// Whether `lo <= x <= hi`.
pub open spec fn is_between(x: int, lo: int, hi: int) -> bool {
    lo <= x <= hi
}

/// A row is in one band, and a span that reaches into a band's rows is among
/// those handed to it: no triangle is missed.
pub proof fn law_no_row_missed(spans: Seq<(usize, usize)>, height: int, band: int, i: int, y: int)
    requires
        band > 0,
        0 <= i < spans.len() <= usize::MAX,
        spans[i].0 <= y <= spans[i].1,
        0 <= y < height,
        spans[i].1 != 0,
    ensures
        0 <= y / band < (height - 1) / band + 1,
        touching(spans, height, band, y / band, spans.len()).contains(i as usize),
{
    let (p, q, m) = (
        spans[i].0 as int,
        if spans[i].1 < height {
            spans[i].1 as int
        } else {
            height - 1
        },
        height - 1,
    );
    assert(0 <= p / band && p / band <= y / band && y / band <= q / band && y / band <= m / band)
        by (nonlinear_arith)
        requires
            0 <= p <= y,
            y <= q,
            y <= m,
            band > 0,
    ;
    lemma_touching(spans, height, band, y / band, spans.len(), i);
}

proof fn lemma_touching(
    spans: Seq<(usize, usize)>,
    height: int,
    band: int,
    b: int,
    n: nat,
    i: int,
)
    requires
        0 <= i < n <= spans.len() <= usize::MAX,
        touches(spans[i], height, band, b),
    ensures
        touching(spans, height, band, b, n).contains(i as usize),
    decreases n,
{
    let before = touching(spans, height, band, b, (n - 1) as nat);
    if i == n - 1 {
        assert(before.push(i as usize)[before.len() as int] == i as usize);
    } else {
        lemma_touching(spans, height, band, b, (n - 1) as nat, i);
        let j = choose|j: int| 0 <= j < before.len() && before[j] == i as usize;
        assert(before.push((n - 1) as usize)[j] == i as usize);
    }
}

/// Bands are as narrow as can be for four of them per thread to cover the screen.
pub proof fn law_bands_cover(height: int, n: int, rows: int)
    requires
        0 < height,
        0 < n,
        0 < rows,
    ensures
        band_of(height, n) * (4 * n) >= height,
        rows * (4 * n) >= height ==> band_of(height, n) <= rows,
        band_of(0, n) == 1,
{
    let k = 4 * n;
    let q = (height - 1) / k;
    vstd::arithmetic::div_mod::lemma_fundamental_div_mod(height - 1, k);
    assert((q + 1) * k >= height && (rows * k >= height ==> q < rows)) by (nonlinear_arith)
        requires
            height - 1 == k * q + (height - 1) % k,
            0 <= (height - 1) % k < k,
            k > 0,
    ;
}

/// The triangles of cell `(r, c)` of the grid: its upper left corner with the ones to the
/// right of it and below it, and the other three.
pub proof fn law_triangles_of_cell(lay: Layout, r: int, c: int)
    requires
        0 <= r < lay.rows - 1,
        0 <= c < lay.cols - 1,
    ensures
        ({
            let w = lay.cols + 64;
            let corner = |i: int, j: int| (r + i + 32) * w + (c + j + 32);
            let n = 2 * (r * (lay.cols - 1) + c);
            &&& triangle(lay, n) == (corner(0, 0), corner(0, 1), corner(1, 0))
            &&& triangle(lay, n + 1) == (corner(0, 1), corner(1, 1), corner(1, 0))
        }),
{
    lemma_at(r, c, lay.rows - 1, lay.cols - 1);
    let k = at(r, c, lay.cols - 1);
    assert((2 * k) / 2 == k && (2 * k + 1) / 2 == k);
}

/// A span touches a band if some row of the screen is in both.
pub proof fn law_touching_shares_a_row(span: (usize, usize), height: int, band: int, b: int, y: int)
    requires
        band > 0,
        span.1 != 0,
        span.0 <= span.1,
        0 <= b,
    ensures
        span.0 <= y <= span.1 && 0 <= y < height && b * band <= y < b * band + band ==> touches(
            span,
            height,
            band,
            b,
        ),
        touches(span, height, band, b) ==> exists|row: int| #[trigger]
            is_between(row, span.0 as int, span.1 as int) && 0 <= row < height && b * band <= row < b
                * band + band,
{
    let (p, q) = (span.0 as int, span.1 as int);
    let m = if q < height {
        q
    } else {
        height - 1
    };
    vstd::arithmetic::div_mod::lemma_fundamental_div_mod(p, band);
    if p <= y <= q && 0 <= y < height && b * band <= y < b * band + band {
        vstd::arithmetic::div_mod::lemma_fundamental_div_mod(m, band);
        assert(p / band <= b && b <= m / band) by (nonlinear_arith)
            requires
                p == band * (p / band) + p % band,
                m == band * (m / band) + m % band,
                0 <= p % band < band,
                0 <= m % band < band,
                p <= y <= m,
                b * band <= y < b * band + band,
                band > 0,
        ;
    }
    if touches(span, height, band, b) {
        vstd::arithmetic::div_mod::lemma_fundamental_div_mod(m, band);
        let row = if b * band <= p {
            p
        } else {
            b * band
        };
        assert(row <= m && row < b * band + band && 0 <= row) by (nonlinear_arith)
            requires
                p == band * (p / band) + p % band,
                m == band * (m / band) + m % band,
                0 <= p % band < band,
                0 <= m % band < band,
                0 <= p <= m,
                0 <= b,
                p / band <= b <= m / band,
                band > 0,
                row == (if b * band <= p {
                    p
                } else {
                    b * band
                }),
        ;
        assert(is_between(row, p, q));
    }
}

/// A band is handed the spans that touch it, and no others, in their order.
pub proof fn law_one_span_more(spans: Seq<(usize, usize)>, height: int, band: int, b: int, n: nat)
    requires
        n < spans.len(),
    ensures
        touching(spans, height, band, b, 0).len() == 0,
        touches(spans[n as int], height, band, b) ==> touching(spans, height, band, b, n + 1)
            == touching(spans, height, band, b, n).push(n as usize),
        !touches(spans[n as int], height, band, b) ==> touching(spans, height, band, b, n + 1)
            == touching(spans, height, band, b, n),
{
}

} // verus!
