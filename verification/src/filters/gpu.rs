//! The launches of a chain, and the views its stages read.
use crate::filters::cpu::{
    blurred_across, blurred_down, blurred_times, chained, edges_of, grayed,
};
use crate::filters::dims::Dims;
use vstd::prelude::*;

verus! {

/// A kernel launch of a chain.
#[derive(Clone, Copy, Debug)]
pub enum Launch {
    /// The source to gray.
    Grayscale,
    /// The horizontal half of a blur pass, from the image before it.
    BlurH { pass: usize },
    /// The vertical half of a blur pass.
    BlurV { pass: usize },
    /// The edges of the last image.
    Sobel,
}

/// The launches of a chain with `passes` blur passes.
pub open spec fn plan_of(passes: nat) -> Seq<Launch> {
    seq![Launch::Grayscale] + Seq::new(
        2 * passes,
        |i: int|
            if i % 2 == 0 {
                Launch::BlurH { pass: (i / 2) as usize }
            } else {
                Launch::BlurV { pass: (i / 2) as usize }
            },
    ) + seq![Launch::Sobel]
}

/// Every stage in order.
pub fn run(passes: usize) -> (plan: Vec<Launch>)
    ensures
        plan@ == plan_of(passes as nat),
{
    let mut plan: Vec<Launch> = Vec::new();
    plan.push(Launch::Grayscale);
    let mut p: usize = 0;
    while p < passes
        invariant
            p <= passes,
            plan@ == seq![Launch::Grayscale] + Seq::new(
                (2 * p) as nat,
                |i: int|
                    if i % 2 == 0 {
                        Launch::BlurH { pass: (i / 2) as usize }
                    } else {
                        Launch::BlurV { pass: (i / 2) as usize }
                    },
            ),
        decreases passes - p,
    {
        plan.push(Launch::BlurH { pass: p });
        plan.push(Launch::BlurV { pass: p });
        p += 1;
    }
    plan.push(Launch::Sobel);
    assert(plan@ =~= plan_of(passes as nat));
    plan
}

/// The images of a chain: the gray one, those after the horizontal and after the
/// vertical half of every blur pass, and the edges.
#[verifier::ext_equal]
pub struct Images {
    pub gray: Seq<u8>,
    pub mids: Seq<Seq<u16>>,
    pub outs: Seq<Seq<u8>>,
    pub edges: Seq<u8>,
}

impl Images {
    /// The image that blur pass `pass` starts from.
    pub open spec fn before(self, pass: int) -> Seq<u8> {
        if pass == 0 {
            self.gray
        } else {
            self.outs[pass - 1]
        }
    }
}

/// What a launch makes of the images of a chain over the padded source `rgba`:
/// every stage reads the one before it and writes its own image.
pub open spec fn launched(d: Dims, rgba: Seq<u8>, images: Images, launch: Launch) -> Images {
    let (h, w) = (d.tall(), d.wide());
    match launch {
        Launch::Grayscale => Images { gray: grayed(rgba, h * w), ..images },
        Launch::BlurH { pass } => {
            let p = pass as int;
            let mid = blurred_across(images.before(p), h - 4 * p, w - 4 * p);
            Images { mids: images.mids.update(p, mid), ..images }
        },
        Launch::BlurV { pass } => {
            let p = pass as int;
            let out = blurred_down(images.mids[p], h - 4 * p, w - 4 * p - 4);
            Images { outs: images.outs.update(p, out), ..images }
        },
        Launch::Sobel => Images {
            edges: edges_of(images.before(d.blur_passes as int), d.rows + 2, d.cols + 2),
            ..images
        },
    }
}

/// The images after all launches of a plan.
pub open spec fn carried_out(d: Dims, rgba: Seq<u8>, start: Images, plan: Seq<Launch>) -> Images
    decreases plan.len(),
{
    if plan.len() == 0 {
        start
    } else {
        launched(d, rgba, carried_out(d, rgba, start, plan.drop_last()), plan.last())
    }
}

/// The images after the first `p` blur passes.
proof fn lemma_passes(d: Dims, rgba: Seq<u8>, start: Images, p: nat)
    requires
        p <= d.blur_passes,
        start.mids.len() == d.blur_passes,
        start.outs.len() == d.blur_passes,
    ensures
        ({
            let gray = grayed(rgba, d.tall() * d.wide());
            let images = carried_out(
                d,
                rgba,
                start,
                plan_of(d.blur_passes as nat).take(1 + 2 * p as int),
            );
            &&& images.gray == gray
            &&& images.mids.len() == d.blur_passes
            &&& images.outs.len() == d.blur_passes
            &&& images.before(p as int) == blurred_times(gray, d.tall(), d.wide(), p)
        }),
    decreases p,
{
    let plan = plan_of(d.blur_passes as nat);
    let n = 1 + 2 * p as int;
    assert(plan.take(n).drop_last() =~= plan.take(n - 1));
    if p == 0 {
        assert(plan.take(0) =~= seq![]);
        assert(carried_out(d, rgba, start, plan.take(0)) == start);
    } else {
        let m = p - 1;
        lemma_passes(d, rgba, start, m as nat);
        assert(plan.take(n - 1).drop_last() =~= plan.take(n - 2));
        assert(plan[n - 2] == Launch::BlurH { pass: m as usize }) by {
            assert((n - 3) % 2 == 0 && (n - 3) / 2 == m);
        }
        assert(plan[n - 1] == Launch::BlurV { pass: m as usize }) by {
            assert((n - 2) % 2 == 1 && (n - 2) / 2 == m);
        }
        let first = carried_out(d, rgba, start, plan.take(n - 2));
        let half = carried_out(d, rgba, start, plan.take(n - 1));
        assert(half == launched(d, rgba, first, plan[n - 2]));
        assert(carried_out(d, rgba, start, plan.take(n)) == launched(d, rgba, half, plan[n - 1]));
    }
}

/// Carrying out the plan of a chain gives the edge map that the chain has on its
/// own, whatever was in the images before.
pub proof fn law_plan_is_chain(d: Dims, rgba: Seq<u8>, start: Images)
    requires
        start.mids.len() == d.blur_passes,
        start.outs.len() == d.blur_passes,
    ensures
        carried_out(d, rgba, start, plan_of(d.blur_passes as nat)).edges == chained(d, rgba),
        carried_out(d, rgba, start, plan_of(d.blur_passes as nat)).gray == grayed(
            rgba,
            d.tall() * d.wide(),
        ),
        carried_out(d, rgba, start, plan_of(d.blur_passes as nat)).before(d.blur_passes as int)
            == blurred_times(
            grayed(rgba, d.tall() * d.wide()),
            d.tall(),
            d.wide(),
            d.blur_passes as nat,
        ),
{
    let plan = plan_of(d.blur_passes as nat);
    lemma_passes(d, rgba, start, d.blur_passes as nat);
    assert(plan.drop_last() =~= plan.take(1 + 2 * d.blur_passes as int));
    assert(plan.last() == Launch::Sobel);
}

/// A window into a buffer: where it starts and ends along one axis.
#[derive(Clone, Copy, Debug)]
pub struct Span {
    pub start: usize,
    pub end: usize,
}

/// The part of an axis of `n` pixels that a stage reads `d` pixels on, when its
/// output is `shrink` shorter than its input. It is as long as the output, so
/// pixel `x` of it is the pixel that output pixel `x` meets at offset `d`.
pub fn span(n: usize, shrink: usize, d: usize) -> (s: Span)
    requires
        shrink <= n,
        d <= shrink,
    ensures
        s.start == d,
        s.end == d + (n - shrink),
        s.end <= n,
{
    Span { start: d, end: d + (n - shrink) }
}

/// Pixel `x` of a span is the pixel `d` farther on, for every pixel of the output.
pub proof fn law_span(n: usize, shrink: usize, d: usize, s: Span, x: int)
    requires
        call_ensures(span, (n, shrink, d), s),
        shrink <= n,
        d <= shrink,
    ensures
        s.start + x == x + d,
        0 <= x < n - shrink <==> s.start <= s.start + x < s.end,
        s.end <= n,
{
}

} // verus!
