//! Escaping points, and pictures made one pixel at a time.
use crate::grid::{at, lemma_at, lemma_cell_of, lemma_row_bound};
use crate::mandelbrot::view;
use crate::march::lanes::{ended, goes_on, is_run, is_steady, law_lane_follows_its_points, law_one_end, run_lane};
use crate::parallel::map_grid;
use vstd::prelude::*;

verus! {

/// Whether `rule` may let a point at `p` go on.
pub open spec fn may_go_on<P, F: Fn(P) -> Option<P>>(rule: F, p: P) -> bool {
    exists|q: P| #[trigger] call_ensures(rule, (p,), Some(q))
}

/// `out` is how a point that starts at `start` escapes within `max` steps of
/// `rule`: where it was when the rule stopped it, and after how many steps, or
/// nothing where the rule would still let it go on.
pub open spec fn is_escape<P, F: Fn(P) -> Option<P>>(
    rule: F,
    start: P,
    max: nat,
    out: Option<(P, u32)>,
) -> bool {
    match out {
        Some((p, n)) => ended(rule, start, max, p, n as nat) && call_ensures(rule, (p,), None),
        None => exists|p: P, n: nat| #[trigger]
            ended(rule, start, max, p, n) && may_go_on(rule, p),
    }
}

/// How a point escapes: `rule` says where it goes next, and nothing once it is
/// out. Returns where it was then and the steps it took, or nothing if it never
/// escaped within `max_iter` steps.
pub fn escape<P: Copy, F: Fn(P) -> Option<P>>(start: P, max_iter: u32, rule: F) -> (out: Option<
    (P, u32),
>)
    requires
        forall|p: P| call_requires(rule, (p,)),
    ensures
        is_escape(rule, start, max_iter as nat, out),
{
    let (p, n): (P, u32) = run_lane(start, max_iter, &rule);
    match rule(p) {
        Some(q) => {
            assert(call_ensures(rule, (p,), Some(q)));
            assert(ended(rule, start, max_iter as nat, p, n as nat));
            None
        },
        None => Some((p, n)),
    }
}

/// Once a point has escaped, a larger budget does not change where or when.
pub proof fn law_escaped_for_good<P, F: Fn(P) -> Option<P>>(
    rule: F,
    start: P,
    max: nat,
    escaped: (P, u32),
    larger: nat,
    out: Option<(P, u32)>,
)
    requires
        is_steady(rule),
        is_escape(rule, start, max, Some(escaped)),
        max <= larger,
        is_escape(rule, start, larger, out),
    ensures
        out == Some(escaped),
{
    let (p, n) = escaped;
    let trace = choose|trace: Seq<P>| #[trigger]
        is_run(rule, trace, max) && trace[0] == start && trace.last() == p && trace.len() == n + 1;
    assert(is_run(rule, trace, larger));
    assert(ended(rule, start, larger, p, n as nat));
    match out {
        Some((q, m)) => {
            law_one_end(rule, start, larger, p, n as nat, q, m as nat);
        },
        None => {
            let (q, m) = choose|q: P, m: nat| #[trigger]
                ended(rule, start, larger, q, m) && may_go_on(rule, q);
            law_one_end(rule, start, larger, p, n as nat, q, m);
            let next = choose|next: P| #[trigger] call_ensures(rule, (q,), Some(next));
            assert(call_ensures(rule, (p,), None::<P>));
        },
    }
}

/// When and where a point escapes, step by step: let each of `pts` be what the rule
/// makes of the one before it. If the rule stops at the last of them, and so many
/// steps are within the budget, the point escapes there, after exactly these steps.
/// If the budget is used up while the rule still lets the point go on, it never
/// escapes.
pub proof fn law_escape_follows_its_points<P: Copy, F: Fn(P) -> Option<P>>(
    rule: F,
    pts: Seq<P>,
    max: u32,
    out: Option<(P, u32)>,
)
    requires
        is_steady(rule),
        pts.len() >= 1,
        forall|i: int|
            #![trigger pts[i]]
            0 < i < pts.len() ==> call_ensures(rule, (pts[i - 1],), Some(pts[i])),
        call_ensures(escape::<P, F>, (pts[0], max, rule), out),
    ensures
        pts.len() - 1 <= max && call_ensures(rule, (pts.last(),), None) ==> out == Some(
            (pts.last(), (pts.len() - 1) as u32),
        ),
        pts.len() - 1 > max ==> out is None,
{
    let start = pts[0];
    let max = max as nat;
    match out {
        Some((p, n)) => {
            law_lane_follows_its_points(rule, pts, max, p, n as nat);
            if pts.len() - 1 > max {
                let next = pts[max as int + 1];
                assert(call_ensures(rule, (p,), Some(next)));
                assert(call_ensures(rule, (p,), None::<P>));
            }
        },
        None => {
            let (p, n) = choose|p: P, n: nat| #[trigger]
                ended(rule, start, max, p, n) && may_go_on(rule, p);
            law_lane_follows_its_points(rule, pts, max, p, n);
            let next = choose|next: P| #[trigger] call_ensures(rule, (p,), Some(next));
        },
    }
}

/// Without a single step no point escapes that is not out from the start.
pub proof fn law_no_steps_no_escape<P, F: Fn(P) -> Option<P>>(
    rule: F,
    start: P,
    next: P,
    out: Option<(P, u32)>,
)
    requires
        is_steady(rule),
        call_ensures(rule, (start,), Some(next)),
        is_escape(rule, start, 0, out),
    ensures
        out is None,
{
    if let Some((p, n)) = out {
        let trace = choose|trace: Seq<P>| #[trigger]
            is_run(rule, trace, 0) && trace[0] == start && trace.last() == p && trace.len() == n + 1;
        assert(p == start);
        assert(call_ensures(rule, (p,), None::<P>));
    }
}

/// A point that the rule leaves where it is never escapes, whatever the budget.
pub proof fn law_fixed_point_never_escapes<P, F: Fn(P) -> Option<P>>(
    rule: F,
    start: P,
    max: nat,
    out: Option<(P, u32)>,
)
    requires
        is_steady(rule),
        call_ensures(rule, (start,), Some(start)),
        is_escape(rule, start, max, out),
    ensures
        out is None,
{
    if let Some((p, n)) = out {
        let trace = choose|trace: Seq<P>| #[trigger]
            is_run(rule, trace, max) && trace[0] == start && trace.last() == p && trace.len() == n + 1;
        lemma_stays(rule, trace, n as nat);
        assert(call_ensures(rule, (p,), None::<P>));
    }
}

proof fn lemma_stays<P, F: Fn(P) -> Option<P>>(rule: F, trace: Seq<P>, k: nat)
    requires
        is_steady(rule),
        goes_on(rule, trace),
        k < trace.len(),
        call_ensures(rule, (trace[0],), Some(trace[0])),
    ensures
        trace[k as int] == trace[0],
    decreases k,
{
    if k > 0 {
        lemma_stays(rule, trace, (k - 1) as nat);
        assert(call_ensures(rule, (trace[k - 1],), Some(trace[k as int])));
    }
}

/// `out` is a picture of `view`, row by row, whose pixels `pixel` made.
pub open spec fn is_picture<T, F: Fn(usize, usize) -> T>(
    view: view::View,
    pixel: F,
    out: Seq<T>,
) -> bool {
    &&& out.len() == view.height * view.width
    &&& forall|r: usize, c: usize|
        #![trigger at(r as int, c as int, view.width as int)]
        r < view.height && c < view.width ==> call_ensures(
            pixel,
            (r, c),
            out[at(r as int, c as int, view.width as int)],
        )
}

/// The pixels of one row, from the left, behind those of the rows above it.
fn render_row<T, F: Fn(usize, usize) -> T>(view: &view::View, row: usize, pixel: &F, out: &mut Vec<T>)
    requires
        row < view.height,
        view.height * view.width <= usize::MAX,
        forall|r: usize, c: usize|
            r < view.height && c < view.width ==> #[trigger] call_requires(*pixel, (r, c)),
        old(out)@.len() == row * view.width,
    ensures
        final(out)@.len() == (row + 1) * view.width,
        forall|i: int| 0 <= i < row * view.width ==> final(out)@[i] == old(out)@[i],
        forall|c: usize|
            c < view.width ==> call_ensures(
                *pixel,
                (row, c),
                #[trigger] final(out)@[at(row as int, c as int, view.width as int)],
            ),
{
    let mut col: usize = 0;
    while col < view.width
        invariant
            col <= view.width,
            row < view.height,
            forall|r: usize, c: usize|
                r < view.height && c < view.width ==> #[trigger] call_requires(*pixel, (r, c)),
            out@.len() == row * view.width + col,
            old(out)@.len() == row * view.width,
            forall|i: int| 0 <= i < row * view.width ==> out@[i] == old(out)@[i],
            forall|c: usize|
                c < col ==> call_ensures(
                    *pixel,
                    (row, c),
                    #[trigger] out@[at(row as int, c as int, view.width as int)],
                ),
        decreases view.width - col,
    {
        out.push(pixel(row, col));
        col = col + 1;
    }
    assert((row + 1) * view.width == row * view.width + view.width) by (nonlinear_arith);
}

/// The picture of `view`, one pixel after the other.
pub fn render_serial<T, F: Fn(usize, usize) -> T>(view: &view::View, pixel: F) -> (out: Vec<T>)
    requires
        view.height * view.width <= usize::MAX,
        forall|r: usize, c: usize|
            r < view.height && c < view.width ==> #[trigger] call_requires(pixel, (r, c)),
    ensures
        is_picture(*view, pixel, out@),
{
    let mut out: Vec<T> = Vec::new();
    let mut row: usize = 0;
    while row < view.height
        invariant
            row <= view.height,
            view.height * view.width <= usize::MAX,
            forall|r: usize, c: usize|
                r < view.height && c < view.width ==> #[trigger] call_requires(pixel, (r, c)),
            out@.len() == row * view.width,
            forall|r: usize, c: usize|
                #![trigger at(r as int, c as int, view.width as int)]
                r < row && c < view.width ==> call_ensures(
                    pixel,
                    (r, c),
                    out@[at(r as int, c as int, view.width as int)],
                ),
        decreases view.height - row,
    {
        let ghost before = out@;
        render_row(view, row, &pixel, &mut out);
        proof {
            assert forall|r: usize, c: usize|
                #![trigger at(r as int, c as int, view.width as int)]
                r < row + 1 && c < view.width implies call_ensures(
                pixel,
                (r, c),
                out@[at(r as int, c as int, view.width as int)],
            ) by {
                if r < row {
                    lemma_at(r as int, c as int, row as int, view.width as int);
                    assert(out@[at(r as int, c as int, view.width as int)] == before[at(
                        r as int,
                        c as int,
                        view.width as int,
                    )]);
                } else {
                    let shown = out@[at(row as int, c as int, view.width as int)];
                }
            }
        }
        row = row + 1;
    }
    out
}

/// The picture of `view`, its pixels made in parallel.
pub fn render_rayon<T: Send, F: Fn(usize, usize) -> T + Sync + Send>(view: &view::View, pixel: F) -> (out:
    Vec<T>)
    requires
        view.height * view.width <= usize::MAX,
        forall|r: usize, c: usize|
            r < view.height && c < view.width ==> #[trigger] call_requires(pixel, (r, c)),
    ensures
        is_picture(*view, pixel, out@),
{
    map_grid(view.height, view.width, pixel)
}

/// One pixel after the other or all in parallel: where a pixel is always the
/// same, the picture is the same.
pub proof fn law_one_picture<T, F: Fn(usize, usize) -> T>(view: view::View, pixel: F, a: Seq<T>, b: Seq<T>)
    requires
        is_picture(view, pixel, a),
        is_picture(view, pixel, b),
        forall|r: usize, c: usize, x: T, y: T| #[trigger]
            call_ensures(pixel, (r, c), x) && #[trigger] call_ensures(pixel, (r, c), y) ==> x == y,
    ensures
        a == b,
{
    assert forall|i: int| 0 <= i < a.len() implies a[i] == b[i] by {
        assert(view.width > 0) by (nonlinear_arith)
            requires
                0 <= i < view.height * view.width,
        ;
        lemma_row_bound(i, view.height as int, view.width as int);
        lemma_cell_of(i, view.width as int);
        let r = (i / view.width as int) as usize;
        let c = (i % view.width as int) as usize;
        assert(at(r as int, c as int, view.width as int) == i);
    }
    assert(a =~= b);
}

/// The pixels of a picture come row by row from the top, and from the left in a row.
pub proof fn law_picture_in_rows<T, F: Fn(usize, usize) -> T>(
    view: view::View,
    pixel: F,
    out: Seq<T>,
    r: usize,
    c: usize,
)
    requires
        is_picture(view, pixel, out),
        r < view.height,
        c < view.width,
    ensures
        out.len() == view.height * view.width,
        call_ensures(pixel, (r, c), out[r * view.width + c]),
{
    assert(at(r as int, c as int, view.width as int) == r * view.width + c);
}

} // verus!
