//! What belongs to a particle, and what happens to it in a frame, place by place.
use crate::cloth::cpu::{
    has_first_color, is_frame, is_integrated, is_normals, is_paired, is_shaded, is_trace, met,
    partner_in, passes_per_substep, picked, Pose,
};
use crate::cloth::world::{batch_of, Batch, Layout};
use crate::grid::{at, lemma_at};
use vstd::arithmetic::div_mod::lemma_fundamental_div_mod_converse;
use vstd::prelude::*;

verus! {

/// A neighbor is the particle so many rows and columns away. Beyond the edge of the cloth
/// there is none, and then a particle counts as its own neighbor.
pub proof fn law_neighbors<P>(lay: Layout, pos: Seq<P>, r: int, c: int, dr: int, dc: int)
    requires
        0 <= r < lay.rows + 64,
        0 <= c < lay.cols + 64,
    ensures
        ({
            let w = lay.cols + 64;
            let there = 32 <= r + dr < lay.rows + 32 && 32 <= c + dc < lay.cols + 32;
            let q = pos[(r + dr) * w + (c + dc)];
            &&& met(lay, pos, r, c, dr, dc) == (if there {
                Some(q)
            } else {
                None
            })
            &&& picked(lay, pos, r * w + c, dr, dc) == (if there {
                q
            } else {
                pos[r * w + c]
            })
        }),
{
    lemma_at(r, c, lay.height(), lay.width());
}

/// A partner is the particle that a batch pairs this one with, if it is part of the cloth.
pub proof fn law_partner_is_there<P>(lay: Layout, pos: Seq<P>, batch: Batch, r: int, c: int)
    requires
        0 <= r < lay.rows + 64,
        0 <= c < lay.cols + 64,
    ensures
        ({
            let w = lay.cols + 64;
            let (dr, dc) = batch.partner_of(r, c);
            partner_in(lay, pos, batch, r * w + c) == (if 32 <= r + dr < lay.rows + 32 && 32 <= c
                + dc < lay.cols + 32 {
                Some(pos[(r + dr) * w + (c + dc)])
            } else {
                None
            })
        }),
{
    lemma_at(r, c, lay.height(), lay.width());
    assert(at(r, c, lay.width()) == r * (lay.cols + 64) + c);
}

/// The cloth is a checkerboard of squares of 16 x 16 particles, and starts with the first
/// color in its upper left corner.
pub proof fn law_checkerboard(r: int, c: int, a: int, b: int)
    requires
        32 + 16 * a <= r < 48 + 16 * a,
        32 + 16 * b <= c < 48 + 16 * b,
    ensures
        has_first_color(r, c) <==> (a + b) % 2 == 0,
        has_first_color(r + 16, c) != has_first_color(r, c),
        has_first_color(r, c + 16) != has_first_color(r, c),
{
}

/// What a rule for motion, for links, for normals and for colors is asked about a
/// particle: where it is, where it was, its normal, its partner in the batch, its
/// neighbors to the left, to the right, above and below, and its color.
pub proof fn law_rules_see_each_particle<
    P,
    Q,
    F: Fn(P, P, P) -> P,
    G: Fn(Batch, P, Option<P>, P) -> P,
    H: Fn(P, P, P, P) -> P,
    S: Fn(P, P, bool) -> Q,
>(
    lay: Layout,
    pos: Seq<P>,
    prev: Seq<P>,
    nrm: Seq<P>,
    anchor: Seq<P>,
    batch: Batch,
    motion: F,
    link: G,
    normal: H,
    shade: S,
    moved: Seq<P>,
    paired: Seq<P>,
    normals: Seq<P>,
    shown: Seq<Q>,
    r: int,
    c: int,
)
    requires
        pos.len() == (lay.rows + 64) * (lay.cols + 64),
        is_integrated(pos, prev, nrm, motion, moved),
        is_paired(lay, pos, anchor, batch, link, paired),
        is_normals(lay, pos, normal, normals),
        is_shaded(lay, pos, nrm, shade, shown),
        0 <= r < lay.rows + 64,
        0 <= c < lay.cols + 64,
    ensures
        ({
            let w = lay.cols + 64;
            let i = r * w + c;
            let inside = |y: int, x: int| 32 <= y < lay.rows + 32 && 32 <= x < lay.cols + 32;
            let beside = |dr: int, dc: int|
                if inside(r + dr, c + dc) {
                    pos[(r + dr) * w + (c + dc)]
                } else {
                    pos[i]
                };
            let (dr, dc) = batch.partner_of(r, c);
            let partner = if inside(r + dr, c + dc) {
                Some(pos[(r + dr) * w + (c + dc)])
            } else {
                None
            };
            let first = ((r - 32) / 16 + (c - 32) / 16) % 2 == 0;
            &&& call_ensures(motion, (pos[i], prev[i], nrm[i]), moved[i])
            &&& call_ensures(link, (batch, pos[i], partner, anchor[i]), paired[i])
            &&& call_ensures(
                normal,
                (beside(0, -1), beside(0, 1), beside(-1, 0), beside(1, 0)),
                normals[i],
            )
            &&& call_ensures(shade, (pos[i], nrm[i], first), shown[i])
        }),
        moved.len() == pos.len() && paired.len() == pos.len() && normals.len() == pos.len()
            && shown.len() == pos.len(),
{
    let i = at(r, c, lay.width());
    lemma_at(r, c, lay.height(), lay.width());
    law_neighbors(lay, pos, r, c, 0, -1);
    law_neighbors(lay, pos, r, c, 0, 1);
    law_neighbors(lay, pos, r, c, -1, 0);
    law_neighbors(lay, pos, r, c, 1, 0);
    law_partner_is_there(lay, pos, batch, r, c);
    let (m, p, n, s) = (moved[i], paired[i], normals[i], shown[i]);
}

/// A substep in order: it moves all particles once, from where they are and where they
/// were a substep before, and then solves the twelve batches as often as there are
/// iterations.
pub proof fn law_substep_in_order<P, F: Fn(P, P, P) -> P, G: Fn(Batch, P, Option<P>, P) -> P>(
    lay: Layout,
    trace: Seq<Seq<P>>,
    prev: Seq<P>,
    nrm: Seq<P>,
    anchor: Seq<P>,
    iterations: int,
    motion: F,
    link: G,
    s: int,
    k: int,
    b: int,
)
    requires
        is_trace(lay, trace, prev, nrm, anchor, iterations, motion, link),
        0 <= s,
        0 <= k < iterations,
        0 <= b < 12,
        (s + 1) * (1 + 12 * iterations) < trace.len(),
    ensures
        ({
            let start = s * (1 + 12 * iterations);
            let n = start + 1 + 12 * k + b;
            &&& is_integrated(
                trace[start],
                if s == 0 {
                    prev
                } else {
                    trace[(s - 1) * (1 + 12 * iterations)]
                },
                nrm,
                motion,
                trace[start + 1],
            )
            &&& is_paired(lay, trace[n], anchor, batch_of(b), link, trace[n + 1])
        }),
{
    reveal(is_trace);
    let l = 1 + 12 * iterations;
    let start = s * l;
    assert((s + 1) * l == s * l + l && 0 <= s * l && (s - 1) * l == s * l - l) by (nonlinear_arith)
        requires
            0 <= s,
            0 < l,
    ;
    let o = 1 + 12 * k + b;
    let n = start + o;
    lemma_fundamental_div_mod_converse(start, l, s, 0);
    lemma_fundamental_div_mod_converse(n, l, s, o);
    assert((o - 1) % 12 == b);
    let first = trace[start + 1];
    let next = trace[n + 1];
}

/// A frame leads from pose to pose through the passes of all of its substeps. It ends
/// with where the particles were before the last one, and with new normals.
pub proof fn law_frame_in_substeps<
    P,
    F: Fn(P, P, P) -> P,
    G: Fn(Batch, P, Option<P>, P) -> P,
    H: Fn(P, P, P, P) -> P,
>(
    lay: Layout,
    before: Pose<P>,
    anchor: Seq<P>,
    substeps: int,
    iterations: int,
    motion: F,
    link: G,
    normal: H,
    after: Pose<P>,
)
    requires
        is_frame(lay, before, anchor, substeps, iterations, motion, link, normal, after),
    ensures
        passes_per_substep(iterations) == 1 + 12 * iterations,
        is_normals(lay, after.pos, normal, after.nrm),
        exists|trace: Seq<Seq<P>>|
            {
                &&& trace.len() == substeps * (1 + 12 * iterations) + 1
                &&& trace[0] == before.pos
                &&& trace[substeps * (1 + 12 * iterations)] == after.pos
                &&& substeps == 0 ==> after.prev == before.prev
                &&& substeps != 0 ==> after.prev == trace[(substeps - 1) * (1 + 12 * iterations)]
                &&& #[trigger] is_trace(
                    lay,
                    trace,
                    before.prev,
                    before.nrm,
                    anchor,
                    iterations,
                    motion,
                    link,
                )
            },
{
}

} // verus!
