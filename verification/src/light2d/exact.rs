//! The exact squared distance transform, to measure how far a jump flood is
//! off: a lower envelope of parabolas along every column, then along every
//! row.
use crate::grid::{at, lemma_at, lemma_cell_of, lemma_row_bound};
use crate::light2d::cpu::{lemma_square, lemma_square_le, square};
use crate::light2d::layout::Layout;
use crate::parallel::par_map;
use vstd::arithmetic::div_mod::lemma_fundamental_div_mod;
use vstd::prelude::*;

verus! {

/// Longest side of a buffer whose squared distances are computed.
pub const MAX_SIDE: usize = 0x4000_0000;

/// Highest value a parabola may start from.
pub const MAX_BASE: u64 = 0x2000_0000_0000_0000;

/// The height at `x` of the parabola with its vertex at `p`.
pub open spec fn height_at(f: Seq<Option<u64>>, p: int, x: int) -> int {
    square(x - p) + f[p]->0
}

/// Whether `d` is the lowest of the parabolas at `x`: `None` if there is none.
pub open spec fn is_lowest(f: Seq<Option<u64>>, x: int, d: Option<u64>) -> bool {
    match d {
        Some(v) => {
            &&& exists|p: int|
                0 <= p < f.len() && (#[trigger] f[p]) is Some && v == height_at(f, p, x)
            &&& forall|p: int|
                0 <= p < f.len() && (#[trigger] f[p]) is Some ==> v <= height_at(f, p, x)
        },
        None => forall|p: int| 0 <= p < f.len() ==> (#[trigger] f[p]) is None,
    }
}

/// Whether the heights can be computed in 64 bits.
pub open spec fn is_tame(f: Seq<Option<u64>>) -> bool {
    &&& f.len() <= MAX_SIDE
    &&& forall|p: int|
        0 <= p < f.len() && (#[trigger] f[p]) is Some ==> f[p]->0 <= MAX_BASE
}

/// Where one parabola drops below another: farther right than where the
/// difference of their constant terms is used up.
proof fn lemma_cross(f: Seq<Option<u64>>, p: int, u: int, x: int)
    requires
        p < u,
    ensures
        height_at(f, u, x) < height_at(f, p, x) <==> f[u]->0 + square(u) - f[p]->0 - square(p) < 2
            * x * (u - p),
        height_at(f, u, x) == height_at(f, p, x) <==> f[u]->0 + square(u) - f[p]->0 - square(p)
            == 2 * x * (u - p),
{
    assert((x - u) * (x - u) - (x - p) * (x - p) == u * u - p * p - 2 * x * (u - p))
        by (nonlinear_arith);
}

/// A parabola that is below another one with its vertex farther left stays
/// below it to the right.
proof fn lemma_stays_below(f: Seq<Option<u64>>, p: int, u: int, x: int, y: int)
    requires
        p < u,
        x <= y,
        height_at(f, u, x) < height_at(f, p, x),
    ensures
        height_at(f, u, y) < height_at(f, p, y),
{
    lemma_cross(f, p, u, x);
    lemma_cross(f, p, u, y);
    assert(2 * x * (u - p) <= 2 * y * (u - p)) by (nonlinear_arith)
        requires
            x <= y,
            p < u,
    ;
}

/// Where the region of the `j`th parabola of an envelope ends.
spec fn region_end(starts: Seq<usize>, j: int, limit: int) -> int {
    if j + 1 < starts.len() {
        starts[j + 1] as int
    } else {
        limit
    }
}

/// Whether the parabolas `tops`, each from its start to the next one's, are
/// the lower envelope over `[0, limit)` of those with vertices before `u`.
spec fn is_envelope(
    f: Seq<Option<u64>>,
    tops: Seq<usize>,
    starts: Seq<usize>,
    u: int,
    limit: int,
) -> bool {
    &&& tops.len() == starts.len()
    &&& tops.len() > 0 ==> starts[0] == 0
    &&& forall|j: int|
        0 <= j < tops.len() ==> 0 <= #[trigger] starts[j] < region_end(starts, j, limit)
    &&& forall|j: int| 0 <= j < tops.len() ==> (#[trigger] tops[j]) < u && f[tops[j] as int] is Some
    &&& forall|j: int, x: int, p: int|
        #![trigger tops[j], height_at(f, p, x)]
        0 <= j < tops.len() && starts[j] <= x < region_end(starts, j, limit) && 0 <= p < u
            && f[p] is Some ==> height_at(f, tops[j] as int, x) <= height_at(f, p, x)
}

/// The start of a region lies before the ends of the later ones.
proof fn lemma_starts(f: Seq<Option<u64>>, tops: Seq<usize>, starts: Seq<usize>, u: int, limit: int, i: int, j: int)
    requires
        is_envelope(f, tops, starts, u, limit),
        0 <= i <= j < tops.len(),
    ensures
        starts[i] <= starts[j],
        region_end(starts, i, limit) <= region_end(starts, j, limit) <= limit,
        starts[j] < limit,
    decreases (tops.len() - i) + (tops.len() - j),
{
    assert(starts[i] < region_end(starts, i, limit));
    assert(starts[j] < region_end(starts, j, limit));
    if i < j {
        lemma_starts(f, tops, starts, u, limit, i + 1, j);
    }
    if j + 1 < tops.len() {
        lemma_starts(f, tops, starts, u, limit, i, j + 1);
    }
}

/// The height of a parabola.
fn height(base: u64, p: usize, x: usize) -> (h: u64)
    requires
        base <= MAX_BASE,
        p <= MAX_SIDE,
        x <= MAX_SIDE,
    ensures
        h == square(x - p) + base,
{
    let d: u64 = if x >= p {
        (x - p) as u64
    } else {
        (p - x) as u64
    };
    proof {
        lemma_square(x - p);
        lemma_square_le(d as int, MAX_SIDE as int);
        assert(square(MAX_SIDE as int) == 0x1000_0000_0000_0000) by (nonlinear_arith)
            requires
                square(MAX_SIDE as int) == MAX_SIDE * MAX_SIDE,
                MAX_SIDE == 0x4000_0000,
        ;
        assert(square(d as int) == square(x - p));
        assert(d * d == square(d as int));
    }
    d * d + base
}

/// The first place where the parabola at `u` is below the one at `p`.
fn crossing(f: &[Option<u64>], fp: u64, fu: u64, p: usize, u: usize, Ghost(from): Ghost<int>) -> (w: u64)
    requires
        p < u < f@.len(),
        is_tame(f@),
        f@[p as int] == Some(fp),
        f@[u as int] == Some(fu),
        0 <= from,
        height_at(f@, p as int, from) <= height_at(f@, u as int, from),
    ensures
        w > from,
        forall|x: int|
            0 <= x ==> (height_at(f@, u as int, x) < #[trigger] height_at(f@, p as int, x) <==> x
                >= w),
{
    let (a, b): (u64, u64) = (u as u64, p as u64);
    proof {
        lemma_cross(f@, p as int, u as int, from);
        lemma_square_le(u as int, MAX_SIDE as int);
        lemma_square_le(p as int, MAX_SIDE as int);
        lemma_square(u as int);
        lemma_square(p as int);
        assert(square(MAX_SIDE as int) == 0x1000_0000_0000_0000) by (nonlinear_arith)
            requires
                square(MAX_SIDE as int) == MAX_SIDE * MAX_SIDE,
                MAX_SIDE == 0x4000_0000,
        ;
        assert(a * a == square(u as int) && b * b == square(p as int));
        assert(0 <= 2 * from * (u - p)) by (nonlinear_arith)
            requires
                0 <= from,
                p < u,
        ;
    }
    let n: u64 = fu + a * a - (fp + b * b);
    let d: u64 = 2 * (a - b);
    let w: u64 = n / d + 1;
    proof {
        assert(w <= n + 1) by (nonlinear_arith)
            requires
                w == n / d + 1,
                d >= 1,
        ;
        lemma_fundamental_div_mod(n as int, d as int);
        assert forall|x: int| 0 <= x implies (height_at(f@, u as int, x) < #[trigger] height_at(
            f@,
            p as int,
            x,
        ) <==> x >= w) by {
            lemma_cross(f@, p as int, u as int, x);
            let q = n as int / d as int;
            assert(x * d > n <==> x > q) by (nonlinear_arith)
                requires
                    n == d * q + n as int % d as int,
                    0 <= n as int % d as int,
                    (n as int % d as int) < d,
            ;
            assert(2 * x * (u - p) == x * d) by (nonlinear_arith)
                requires
                    d == 2 * (u - p),
            ;
        }
        assert(height_at(f@, u as int, from) < height_at(f@, p as int, from) <==> from >= w);
    }
    w
}

/// The value of a parabola that is there.
fn base_of(f: &[Option<u64>], p: usize) -> (v: u64)
    requires
        p < f@.len(),
        f@[p as int] is Some,
    ensures
        f@[p as int] == Some(v),
{
    match f[p] {
        Some(v) => v,
        None => 0,
    }
}

/// Whether the parabola at `u` is below the last one of the envelope where
/// that one's region starts.
fn outdone(f: &[Option<u64>], tops: &Vec<usize>, starts: &Vec<usize>, u: usize, Ghost(limit): Ghost<int>) -> (b: bool)
    requires
        is_tame(f@),
        tops@.len() > 0,
        u < f@.len(),
        f@[u as int] is Some,
        limit <= f@.len(),
        is_envelope(f@, tops@, starts@, u as int, limit),
    ensures
        b == (height_at(f@, u as int, starts@.last() as int) < height_at(
            f@,
            tops@.last() as int,
            starts@.last() as int,
        )),
{
    let last: usize = tops.len() - 1;
    assert(tops@[last as int] < u);
    assert(starts@[last as int] < region_end(starts@, last as int, limit));
    let (p, t): (usize, usize) = (tops[last], starts[last]);
    height(base_of(f, u), u, t) < height(base_of(f, p), p, t)
}

/// Dropping the last region of an envelope leaves an envelope up to where
/// that region started.
proof fn lemma_dropped(
    f: Seq<Option<u64>>,
    tops: Seq<usize>,
    starts: Seq<usize>,
    u: int,
    limit: int,
)
    requires
        is_envelope(f, tops, starts, u, limit),
        tops.len() > 0,
    ensures
        is_envelope(f, tops.drop_last(), starts.drop_last(), u, starts.last() as int),
{
    let (tops2, starts2) = (tops.drop_last(), starts.drop_last());
    let at_last = starts.last() as int;
    assert forall|j: int| 0 <= j < tops2.len() implies region_end(starts2, j, at_last)
        == region_end(starts, j, limit) by {}
    assert forall|j: int| 0 <= j < tops2.len() implies 0 <= #[trigger] starts2[j] < region_end(
        starts2,
        j,
        at_last,
    ) by {
        assert(starts[j] < region_end(starts, j, limit));
    }
    assert forall|j: int, x: int, p: int|
        #![trigger tops2[j], height_at(f, p, x)]
        0 <= j < tops2.len() && starts2[j] <= x < region_end(starts2, j, at_last) && 0 <= p < u
            && f[p] is Some implies height_at(f, tops2[j] as int, x) <= height_at(f, p, x) by {
        assert(tops[j] == tops2[j]);
    }
    assert forall|j: int| 0 <= j < tops2.len() implies (#[trigger] tops2[j]) < u
        && f[tops2[j] as int] is Some by {
        assert(tops[j] < u);
    }
}

/// Whether the parabola at `u` is the lowest one over `[limit, n)`.
spec fn lowest_from(f: Seq<Option<u64>>, u: int, limit: int) -> bool {
    forall|x: int, p: int|
        #![trigger height_at(f, p, x)]
        limit <= x < f.len() && 0 <= p < u && f[p] is Some ==> height_at(f, u, x) < height_at(
            f,
            p,
            x,
        )
}

/// Whether the parabola at `u` drops below the one at `p` at `w`.
spec fn crosses_at(f: Seq<Option<u64>>, p: int, u: int, w: int) -> bool {
    forall|x: int|
        0 <= x ==> (height_at(f, u, x) < #[trigger] height_at(f, p, x) <==> x >= w)
}

/// The parabola at `u` takes over from the last one of the envelope no later
/// than where the envelope ends.
proof fn lemma_takes_over(
    f: Seq<Option<u64>>,
    tops: Seq<usize>,
    starts: Seq<usize>,
    u: int,
    limit: int,
    w: int,
)
    requires
        is_envelope(f, tops, starts, u, limit),
        tops.len() > 0,
        limit <= f.len(),
        lowest_from(f, u, limit),
        crosses_at(f, tops.last() as int, u, w),
    ensures
        limit < f.len() ==> w <= limit,
{
    let last = tops.len() - 1;
    assert(starts[last] < region_end(starts, last, limit));
    assert(tops[last] < u);
    if limit < f.len() {
        assert(height_at(f, u, limit) < height_at(f, tops[last] as int, limit));
    }
}

/// Adding the parabola at `u` where it takes over from the last one.
proof fn lemma_added(
    f: Seq<Option<u64>>,
    tops: Seq<usize>,
    starts: Seq<usize>,
    u: usize,
    limit: int,
    w: usize,
)
    requires
        0 <= u < f.len(),
        f[u as int] is Some,
        is_envelope(f, tops, starts, u as int, limit),
        tops.len() > 0,
        limit <= f.len(),
        lowest_from(f, u as int, limit),
        starts.last() < w < f.len(),
        crosses_at(f, tops.last() as int, u as int, w as int),
    ensures
        is_envelope(f, tops.push(u), starts.push(w), u + 1, f.len() as int),
{
    let n = f.len() as int;
    let last = tops.len() - 1;
    let p = tops[last] as int;
    let (tops2, starts2) = (tops.push(u), starts.push(w));
    lemma_takes_over(f, tops, starts, u as int, limit, w as int);
    assert forall|j: int| 0 <= j < tops2.len() implies 0 <= #[trigger] starts2[j] < region_end(
        starts2,
        j,
        n,
    ) by {
        if j < last {
            assert(starts[j] < region_end(starts, j, limit));
        }
    }
    assert forall|j: int| 0 <= j < tops2.len() implies (#[trigger] tops2[j]) < u + 1
        && f[tops2[j] as int] is Some by {
        if j <= last {
            assert(tops[j] < u);
        }
    }
    assert forall|j: int, x: int, q: int|
        #![trigger tops2[j], height_at(f, q, x)]
        0 <= j < tops2.len() && starts2[j] <= x < region_end(starts2, j, n) && 0 <= q < u + 1
            && f[q] is Some implies height_at(f, tops2[j] as int, x) <= height_at(f, q, x) by {
        assert(tops[last] < u);
        if j <= last {
            lemma_starts(f, tops, starts, u as int, limit, j, last);
            assert(tops2[j] == tops[j]);
            assert(x < region_end(starts, j, limit));
            if j < last {
                lemma_starts(f, tops, starts, u as int, limit, j + 1, last);
                assert(starts2[j + 1] == starts[j + 1]);
            }
            assert(x < w);
            assert(starts[j] >= 0);
            assert(height_at(f, tops[j] as int, x) <= height_at(f, p, x));
            assert(height_at(f, p, x) <= height_at(f, u as int, x));
        } else {
            assert(height_at(f, u as int, x) < height_at(f, p, x));
            if q < u && x < limit {
                assert(starts[last] <= x < region_end(starts, last, limit));
                assert(height_at(f, tops[last] as int, x) <= height_at(f, q, x));
            }
        }
    }
}

/// A parabola that never takes over changes nothing.
proof fn lemma_useless(
    f: Seq<Option<u64>>,
    tops: Seq<usize>,
    starts: Seq<usize>,
    u: int,
    limit: int,
    w: int,
)
    requires
        0 <= u < f.len(),
        f[u] is Some,
        is_envelope(f, tops, starts, u, limit),
        tops.len() > 0,
        limit <= f.len(),
        lowest_from(f, u, limit),
        w >= f.len(),
        crosses_at(f, tops.last() as int, u, w),
    ensures
        is_envelope(f, tops, starts, u + 1, f.len() as int),
{
    let last = tops.len() - 1;
    let p = tops[last] as int;
    lemma_takes_over(f, tops, starts, u, limit, w);
    assert(tops[last] < u);
    assert forall|j: int, x: int, q: int|
        #![trigger tops[j], height_at(f, q, x)]
        0 <= j < tops.len() && starts[j] <= x < region_end(starts, j, limit) && 0 <= q < u + 1
            && f[q] is Some implies height_at(f, tops[j] as int, x) <= height_at(f, q, x) by {
        lemma_starts(f, tops, starts, u, limit, j, last);
        assert(starts[j] >= 0);
        assert(height_at(f, tops[j] as int, x) <= height_at(f, p, x));
        assert(height_at(f, p, x) <= height_at(f, u, x));
    }
}

/// Take the parabola at `u` into the envelope of those before it.
fn absorb(f: &[Option<u64>], tops: &mut Vec<usize>, starts: &mut Vec<usize>, u: usize)
    requires
        is_tame(f@),
        u < f@.len(),
        f@[u as int] is Some,
        is_envelope(f@, old(tops)@, old(starts)@, u as int, f@.len() as int),
        old(tops)@.len() == 0 ==> forall|p: int| 0 <= p < u ==> (#[trigger] f@[p]) is None,
    ensures
        is_envelope(f@, final(tops)@, final(starts)@, u + 1, f@.len() as int),
        final(tops)@.len() > 0,
{
    let n: usize = f.len();
    let ghost mut limit: int = n as int;
    let ghost was_empty = tops@.len() == 0;
    while tops.len() > 0 && outdone(f, tops, starts, u, Ghost(limit))
        invariant
            n == f@.len(),
            is_tame(f@),
            u < n,
            f@[u as int] is Some,
            0 <= limit <= n,
            is_envelope(f@, tops@, starts@, u as int, limit),
            lowest_from(f@, u as int, limit),
            was_empty ==> forall|p: int| 0 <= p < u ==> (#[trigger] f@[p]) is None,
            tops@.len() == 0 ==> was_empty || limit == 0,
        decreases tops.len(),
    {
        let ghost last = tops@.len() - 1;
        let ghost start = starts@[last] as int;
        proof {
            lemma_dropped(f@, tops@, starts@, u as int, limit);
            assert(tops@[last] < u);
            assert(starts@[last] < region_end(starts@, last, limit));
            assert forall|x: int, p: int|
                #![trigger height_at(f@, p, x)]
                start <= x < n && 0 <= p < u && f@[p] is Some implies height_at(f@, u as int, x)
                < height_at(f@, p, x) by {
                if x < limit {
                    lemma_stays_below(f@, tops@[last] as int, u as int, start, x);
                    assert(height_at(f@, tops@[last] as int, x) <= height_at(f@, p, x));
                }
            }
            limit = start;
        }
        let _ = tops.pop();
        let _ = starts.pop();
    }
    if tops.len() == 0 {
        proof {
            assert forall|x: int, p: int|
                #![trigger height_at(f@, p, x)]
                0 <= x < n && 0 <= p < u + 1 && f@[p] is Some implies height_at(f@, u as int, x)
                <= height_at(f@, p, x) by {
                if p < u && was_empty {
                    assert(f@[p] is None);
                }
            }
        }
        tops.push(u);
        starts.push(0);
    } else {
        let last: usize = tops.len() - 1;
        assert(tops@[last as int] < u);
        assert(starts@[last as int] < region_end(starts@, last as int, limit));
        let (p, t): (usize, usize) = (tops[last], starts[last]);
        let w: u64 = crossing(f, base_of(f, p), base_of(f, u), p, u, Ghost(t as int));
        if w < n as u64 {
            proof {
                lemma_added(f@, tops@, starts@, u, limit, w as usize);
            }
            tops.push(u);
            starts.push(w as usize);
        } else {
            proof {
                lemma_useless(f@, tops@, starts@, u as int, limit, w as int);
            }
        }
    }
}

/// The lower envelope of the parabolas of `f`: their vertices, and where each
/// becomes the lowest.
fn envelope(f: &[Option<u64>]) -> (e: (Vec<usize>, Vec<usize>))
    requires
        is_tame(f@),
    ensures
        is_envelope(f@, e.0@, e.1@, f@.len() as int, f@.len() as int),
        e.0@.len() == 0 ==> forall|p: int| 0 <= p < f@.len() ==> (#[trigger] f@[p]) is None,
{
    let n: usize = f.len();
    let mut tops: Vec<usize> = Vec::new();
    let mut starts: Vec<usize> = Vec::new();
    let mut u: usize = 0;
    while u < n
        invariant
            n == f@.len(),
            u <= n,
            is_tame(f@),
            is_envelope(f@, tops@, starts@, u as int, n as int),
            tops@.len() == 0 ==> forall|p: int| 0 <= p < u ==> (#[trigger] f@[p]) is None,
        decreases n - u,
    {
        if f[u].is_some() {
            absorb(f, &mut tops, &mut starts, u);
        } else {
            proof {
                assert(is_envelope(f@, tops@, starts@, u + 1, n as int)) by {
                    assert forall|j: int| 0 <= j < tops@.len() implies (#[trigger] tops@[j]) < u + 1
                        && f@[tops@[j] as int] is Some by {
                        assert(tops@[j] < u);
                    }
                }
            }
        }
        u += 1;
    }
    (tops, starts)
}

/// The lowest parabola at every place: `None` everywhere if there is none.
fn edt_1d(f: &[Option<u64>]) -> (out: Vec<Option<u64>>)
    requires
        is_tame(f@),
    ensures
        out@.len() == f@.len(),
        forall|x: int| 0 <= x < f@.len() ==> is_lowest(f@, x, #[trigger] out@[x]),
{
    let n: usize = f.len();
    let (tops, starts): (Vec<usize>, Vec<usize>) = envelope(f);
    let mut out: Vec<Option<u64>> = Vec::new();
    let mut k: usize = 0;
    let mut x: usize = 0;
    while x < n
        invariant
            n == f@.len(),
            x <= n,
            is_tame(f@),
            is_envelope(f@, tops@, starts@, n as int, n as int),
            tops@.len() == 0 ==> forall|p: int| 0 <= p < n ==> (#[trigger] f@[p]) is None,
            tops@.len() > 0 ==> k < tops@.len() && starts@[k as int] <= x,
            out@.len() == x,
            forall|y: int| 0 <= y < x ==> is_lowest(f@, y, #[trigger] out@[y]),
        decreases n - x,
    {
        if tops.len() == 0 {
            out.push(None);
        } else {
            while k + 1 < starts.len() && starts[k + 1] <= x
                invariant
                    starts@.len() == tops@.len(),
                    k < tops@.len(),
                    starts@[k as int] <= x,
                decreases starts.len() - k,
            {
                k += 1;
            }
            let p: usize = tops[k];
            assert(tops@[k as int] < n);
            let h: u64 = height(base_of(f, p), p, x);
            proof {
                assert(h == height_at(f@, p as int, x as int));
                assert(starts@[k as int] <= x < region_end(starts@, k as int, n as int));
                assert forall|q: int| 0 <= q < f@.len() && (#[trigger] f@[q]) is Some implies h
                    <= height_at(f@, q, x as int) by {
                    assert(tops@[k as int] == p);
                }
            }
            out.push(Some(h));
        }
        x += 1;
    }
    out
}

/// The squared distance between two pixels.
pub open spec fn between2(r: int, c: int, r2: int, c2: int) -> int {
    square(r - r2) + square(c - c2)
}

/// Whether pixel `(r, c)` of a scene is occupied.
pub open spec fn occupied(lay: Layout, scene: Seq<i32>, r: int, c: int) -> bool {
    &&& 0 <= r < lay.height()
    &&& 0 <= c < lay.width()
    &&& scene[at(r, c, lay.width())] != 0
}

/// Whether `d` is the squared distance from `(r, c)` to the occupied pixel
/// nearest to it: `None` if nothing is occupied.
pub open spec fn is_exact(lay: Layout, scene: Seq<i32>, r: int, c: int, d: Option<u64>) -> bool {
    match d {
        Some(v) => {
            &&& exists|r2: int, c2: int| #[trigger]
                occupied(lay, scene, r2, c2) && v == between2(r, c, r2, c2)
            &&& forall|r2: int, c2: int| #[trigger]
                occupied(lay, scene, r2, c2) ==> v <= between2(r, c, r2, c2)
        },
        None => forall|r2: int, c2: int| !#[trigger] occupied(lay, scene, r2, c2),
    }
}

/// Whether `d` is the squared distance from `(r, c)` to the occupied pixel
/// nearest to it in its column.
spec fn is_column_exact(lay: Layout, scene: Seq<i32>, r: int, c: int, d: Option<u64>) -> bool {
    match d {
        Some(v) => {
            &&& exists|r2: int| #[trigger]
                occupied(lay, scene, r2, c) && v == square(r - r2)
            &&& forall|r2: int| #[trigger] occupied(lay, scene, r2, c) ==> v <= square(r - r2)
        },
        None => forall|r2: int| !#[trigger] occupied(lay, scene, r2, c),
    }
}

/// Whether a buffer can be measured.
pub open spec fn is_measurable(lay: Layout, scene: Seq<i32>) -> bool {
    &&& scene.len() == lay.size()
    &&& lay.height() <= MAX_SIDE
    &&& lay.width() <= MAX_SIDE
}

/// The squared distances along column `c`.
fn column(lay: &Layout, scene: &[i32], c: usize) -> (out: Vec<Option<u64>>)
    requires
        is_measurable(*lay, scene@),
        c < lay.width(),
    ensures
        out@.len() == lay.height(),
        forall|r: int|
            0 <= r < lay.height() ==> is_column_exact(
                *lay,
                scene@,
                r,
                c as int,
                #[trigger] out@[r],
            ),
{
    let (rows, cols): (usize, usize) = (lay.buf_rows(), lay.buf_cols());
    let len: usize = scene.len();
    let mut f: Vec<Option<u64>> = Vec::new();
    let mut r: usize = 0;
    while r < rows
        invariant
            r <= rows,
            rows == lay.height(),
            cols == lay.width(),
            len == scene@.len(),
            is_measurable(*lay, scene@),
            c < cols,
            f@.len() == r,
            forall|q: int|
                0 <= q < r ==> #[trigger] f@[q] == (if occupied(*lay, scene@, q, c as int) {
                    Some(0u64)
                } else {
                    None
                }),
        decreases rows - r,
    {
        proof {
            lemma_at(r as int, c as int, rows as int, cols as int);
        }
        if scene[r * cols + c] != 0 {
            f.push(Some(0));
        } else {
            f.push(None);
        }
        r += 1;
    }
    let out = edt_1d(&f);
    proof {
        assert forall|q: int| 0 <= q < rows implies is_column_exact(
            *lay,
            scene@,
            q,
            c as int,
            #[trigger] out@[q],
        ) by {
            assert(is_lowest(f@, q, out@[q]));
            match out@[q] {
                Some(v) => {
                    let p = choose|p: int|
                        0 <= p < f@.len() && (#[trigger] f@[p]) is Some && v == height_at(
                            f@,
                            p,
                            q,
                        );
                    assert(occupied(*lay, scene@, p, c as int));
                    assert forall|r2: int| #[trigger] occupied(
                        *lay,
                        scene@,
                        r2,
                        c as int,
                    ) implies v <= square(q - r2) by {
                        assert(f@[r2] == Some(0u64));
                    }
                },
                None => {
                    assert forall|r2: int| !#[trigger] occupied(*lay, scene@, r2, c as int) by {
                        if occupied(*lay, scene@, r2, c as int) {
                            assert(f@[r2] == Some(0u64));
                        }
                    }
                },
            }
        }
    }
    out
}

/// Whether the squared distances of a column are those of its column.
spec fn is_column(lay: Layout, scene: Seq<i32>, c: int, col: Seq<Option<u64>>) -> bool {
    &&& col.len() == lay.height()
    &&& forall|r: int|
        0 <= r < lay.height() ==> is_column_exact(lay, scene, r, c, #[trigger] col[r])
}

/// Squared distances within a column are small.
proof fn lemma_column_small(lay: Layout, scene: Seq<i32>, r: int, c: int, d: Option<u64>)
    requires
        is_column_exact(lay, scene, r, c, d),
        0 <= r < lay.height() <= MAX_SIDE,
    ensures
        d is Some ==> d->0 <= MAX_BASE,
{
    if let Some(v) = d {
        let r2 = choose|r2: int| #[trigger] occupied(lay, scene, r2, c) && v == square(r - r2);
        lemma_square_le(r - r2, MAX_SIDE as int);
        assert(square(MAX_SIDE as int) == 0x1000_0000_0000_0000) by (nonlinear_arith)
            requires
                square(MAX_SIDE as int) == MAX_SIDE * MAX_SIDE,
                MAX_SIDE == 0x4000_0000,
        ;
    }
}

/// The lowest of a row's column distances is the distance.
proof fn lemma_row_of_columns(
    lay: Layout,
    scene: Seq<i32>,
    f: Seq<Option<u64>>,
    r: int,
    c: int,
    d: Option<u64>,
)
    requires
        0 <= r < lay.height(),
        f.len() == lay.width(),
        forall|c2: int| 0 <= c2 < f.len() ==> is_column_exact(lay, scene, r, c2, #[trigger] f[c2]),
        is_lowest(f, c, d),
    ensures
        is_exact(lay, scene, r, c, d),
{
    match d {
        Some(v) => {
            let p = choose|p: int|
                0 <= p < f.len() && (#[trigger] f[p]) is Some && v == height_at(f, p, c);
            assert(is_column_exact(lay, scene, r, p, f[p]));
            let r2 = choose|r2: int| #[trigger]
                occupied(lay, scene, r2, p) && f[p]->0 == square(r - r2);
            assert(v == between2(r, c, r2, p));
            assert forall|r3: int, c3: int| #[trigger] occupied(lay, scene, r3, c3) implies v
                <= between2(r, c, r3, c3) by {
                assert(is_column_exact(lay, scene, r, c3, f[c3]));
                assert(v <= height_at(f, c3, c));
            }
        },
        None => {
            assert forall|r3: int, c3: int| !#[trigger] occupied(lay, scene, r3, c3) by {
                if occupied(lay, scene, r3, c3) {
                    assert(is_column_exact(lay, scene, r, c3, f[c3]));
                }
            }
        },
    }
}

/// The squared distances along row `r`, given those along the columns.
fn row(lay: &Layout, columns: &Vec<Vec<Option<u64>>>, r: usize, Ghost(scene): Ghost<Seq<i32>>) -> (out: Vec<Option<u64>>)
    requires
        is_measurable(*lay, scene),
        columns@.len() == lay.width(),
        forall|c: int| 0 <= c < lay.width() ==> is_column(*lay, scene, c, (#[trigger] columns@[c])@),
        r < lay.height(),
    ensures
        out@.len() == lay.width(),
        forall|c: int| 0 <= c < lay.width() ==> is_exact(*lay, scene, r as int, c, #[trigger] out@[c]),
{
    let cols: usize = columns.len();
    let mut f: Vec<Option<u64>> = Vec::new();
    let mut c: usize = 0;
    while c < cols
        invariant
            c <= cols,
            cols == columns@.len(),
            cols == lay.width(),
            r < lay.height(),
            is_measurable(*lay, scene),
            forall|c: int|
                0 <= c < lay.width() ==> is_column(*lay, scene, c, (#[trigger] columns@[c])@),
            f@.len() == c,
            forall|p: int|
                0 <= p < c ==> is_column_exact(*lay, scene, r as int, p, #[trigger] f@[p]),
            forall|p: int|
                0 <= p < c && (#[trigger] f@[p]) is Some ==> f@[p]->0 <= MAX_BASE,
        decreases cols - c,
    {
        proof {
            assert(is_column(*lay, scene, c as int, columns@[c as int]@));
            assert(is_column_exact(*lay, scene, r as int, c as int, columns@[c as int]@[r as int]));
            lemma_column_small(*lay, scene, r as int, c as int, columns@[c as int]@[r as int]);
        }
        f.push(columns[c][r]);
        c += 1;
    }
    let out = edt_1d(&f);
    proof {
        assert forall|c: int| 0 <= c < lay.width() implies is_exact(
            *lay,
            scene,
            r as int,
            c,
            #[trigger] out@[c],
        ) by {
            assert(is_lowest(f@, c, out@[c]));
            lemma_row_of_columns(*lay, scene, f@, r as int, c, out@[c]);
        }
    }
    out
}

/// Whether the squared distances of a row are the exact ones.
spec fn is_row(lay: Layout, scene: Seq<i32>, r: int, line: Seq<Option<u64>>) -> bool {
    &&& line.len() == lay.width()
    &&& forall|c: int| 0 <= c < lay.width() ==> is_exact(lay, scene, r, c, #[trigger] line[c])
}

/// The exact squared distance to the nearest occupied pixel for every pixel:
/// `None` when nothing is occupied.
pub fn exact_dist2(lay: &Layout, scene: &[i32]) -> (out: Vec<Option<u64>>)
    requires
        is_measurable(*lay, scene@),
    ensures
        out@.len() == lay.size(),
        forall|i: int|
            0 <= i < lay.size() ==> is_exact(
                *lay,
                scene@,
                i / lay.width(),
                i % lay.width(),
                #[trigger] out@[i],
            ),
{
    let (rows, cols): (usize, usize) = (lay.buf_rows(), lay.buf_cols());
    let columns: Vec<Vec<Option<u64>>> = par_map(
        cols,
        |c: usize| -> (col: Vec<Option<u64>>)
            requires
                cols > c,
                cols == lay.width(),
                is_measurable(*lay, scene@),
            ensures
                is_column(*lay, scene@, c as int, col@),
            { column(lay, scene, c) });
    assert(forall|c: int| 0 <= c < cols ==> is_column(*lay, scene@, c, (#[trigger] columns@[c])@)) by {
        assert forall|c: int| 0 <= c < cols implies is_column(
            *lay,
            scene@,
            c,
            (#[trigger] columns@[c])@,
        ) by {
            let k = c as usize;
            assert(columns@[k as int] == columns@[c]);
        }
    }
    let lines: Vec<Vec<Option<u64>>> = par_map(
        rows,
        |r: usize| -> (line: Vec<Option<u64>>)
            requires
                rows > r,
                rows == lay.height(),
                is_measurable(*lay, scene@),
                columns@.len() == lay.width(),
                forall|c: int|
                    0 <= c < lay.width() ==> is_column(*lay, scene@, c, (#[trigger] columns@[c])@),
            ensures
                is_row(*lay, scene@, r as int, line@),
            { row(lay, &columns, r, Ghost(scene@)) });
    let len: usize = scene.len();
    let mut out: Vec<Option<u64>> = Vec::with_capacity(len);
    let mut i: usize = 0;
    while i < len
        invariant
            i <= len,
            len == lay.size(),
            rows == lay.height(),
            cols == lay.width(),
            lines@.len() == rows,
            forall|r: usize| r < rows ==> is_row(*lay, scene@, r as int, (#[trigger] lines@[r as int])@),
            out@.len() == i,
            forall|j: int|
                0 <= j < i ==> is_exact(
                    *lay,
                    scene@,
                    j / lay.width(),
                    j % lay.width(),
                    #[trigger] out@[j],
                ),
        decreases len - i,
    {
        proof {
            lemma_row_bound(i as int, rows as int, cols as int);
            lemma_cell_of(i as int, cols as int);
        }
        let (r, c): (usize, usize) = (i / cols, i % cols);
        assert(is_row(*lay, scene@, r as int, lines@[r as int]@));
        assert(is_exact(*lay, scene@, r as int, c as int, lines@[r as int]@[c as int]));
        out.push(lines[r][c]);
        i += 1;
    }
    out
}

} // verus!
