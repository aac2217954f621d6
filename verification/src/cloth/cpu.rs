//! How the passes of the solver go over a buffer: which particles meet, and in
//! what role. What a particle does with those it meets is up to the rule that
//! is handed in.
use crate::cloth::world::{
    batch_of, is_first_color, law_iteration_complete, law_partners_agree, Batch, Layout, TILE,
};
use crate::grid::{at, lemma_at, lemma_cell_of, lemma_row_bound};
use crate::parallel::par_map;
use vstd::arithmetic::div_mod::{lemma_fundamental_div_mod, lemma_fundamental_div_mod_converse};
use vstd::prelude::*;

verus! {

/// Whether a layout's buffer has coordinates that can be stepped from.
pub open spec fn is_steppable(lay: Layout) -> bool {
    &&& lay.fits()
    &&& lay.height() < 0x4000_0000
    &&& lay.width() < 0x4000_0000
}

/// The particle `(dr, dc)` away from place `(r, c)`, if there is one: ghosts
/// are none.
pub open spec fn met<P>(lay: Layout, pos: Seq<P>, r: int, c: int, dr: int, dc: int) -> Option<P> {
    if lay.inside(r + dr, c + dc) {
        Some(pos[at(r + dr, c + dc, lay.width())])
    } else {
        None
    }
}

/// The neighbor of a buffer particle, if it is a real one.
pub fn neighbor<P: Copy>(lay: &Layout, pos: &[P], r: usize, c: usize, dr: i32, dc: i32) -> (q: Option<P>)
    requires
        is_steppable(*lay),
        pos@.len() == lay.size(),
        r < lay.height(),
        c < lay.width(),
        -0x4000_0000 < dr < 0x4000_0000,
        -0x4000_0000 < dc < 0x4000_0000,
    ensures
        q == met(*lay, pos@, r as int, c as int, dr as int, dc as int),
{
    let len: usize = pos.len();
    let (nr, nc): (i32, i32) = (r as i32 + dr, c as i32 + dc);
    if nr < 0 || nc < 0 {
        return None;
    }
    let (nr, nc): (usize, usize) = (nr as usize, nc as usize);
    if lay.is_world(nr, nc) {
        proof {
            lemma_at(nr as int, nc as int, lay.height(), lay.width());
        }
        Some(pos[nr * lay.buf_cols() + nc])
    } else {
        None
    }
}

/// The partner of buffer particle `i` in a batch, if it has one.
pub open spec fn partner_in<P>(lay: Layout, pos: Seq<P>, batch: Batch, i: int) -> Option<P> {
    let (r, c) = (i / lay.width(), i % lay.width());
    let (dr, dc) = batch.partner_of(r, c);
    met(lay, pos, r, c, dr, dc)
}

/// The neighbor of buffer particle `i`, or the particle itself where there is
/// none.
pub open spec fn picked<P>(lay: Layout, pos: Seq<P>, i: int, dr: int, dc: int) -> P {
    match met(lay, pos, i / lay.width(), i % lay.width(), dr, dc) {
        Some(q) => q,
        None => pos[i],
    }
}

/// A pass in which particles do not meet: `rule` makes of each particle, its
/// previous place and its normal where it goes.
pub fn integrate<P: Copy + Send + Sync, F: Fn(P, P, P) -> P + Sync + Send>(
    pos: &[P],
    prev: &[P],
    nrm: &[P],
    rule: F,
) -> (out: Vec<P>)
    requires
        prev@.len() == pos@.len(),
        nrm@.len() == pos@.len(),
        forall|p: P, q: P, n: P| call_requires(rule, (p, q, n)),
    ensures
        out@.len() == pos@.len(),
        forall|i: int|
            0 <= i < pos@.len() ==> call_ensures(
                rule,
                (pos@[i], prev@[i], nrm@[i]),
                #[trigger] out@[i],
            ),
{
    let n: usize = pos.len();
    let out = par_map(
        n,
        |i: usize| -> (p: P)
            requires
                n > i,
                n == pos@.len(),
                prev@.len() == pos@.len(),
                nrm@.len() == pos@.len(),
                forall|p: P, q: P, n: P| call_requires(rule, (p, q, n)),
            ensures
                call_ensures(rule, (pos@[i as int], prev@[i as int], nrm@[i as int]), p),
            { rule(pos[i], prev[i], nrm[i]) });
    proof {
        assert forall|i: int| 0 <= i < pos@.len() implies call_ensures(
            rule,
            (pos@[i], prev@[i], nrm@[i]),
            #[trigger] out@[i],
        ) by {
            let k = i as usize;
            assert(out@[k as int] == out@[i]);
        }
    }
    out
}

/// One constraint pass: `rule` makes of each particle, its partner in the
/// batch if it has one, and its anchor, where it goes. Every particle is
/// moved from the same snapshot.
pub fn pair<P: Copy + Send + Sync, F: Fn(P, Option<P>, P) -> P + Sync + Send>(
    lay: &Layout,
    pos: &[P],
    anchor: &[P],
    batch: Batch,
    rule: F,
) -> (out: Vec<P>)
    requires
        is_steppable(*lay),
        pos@.len() == lay.size(),
        anchor@.len() == lay.size(),
        batch.wf(),
        forall|p: P, q: Option<P>, a: P| call_requires(rule, (p, q, a)),
    ensures
        out@.len() == pos@.len(),
        forall|i: int|
            0 <= i < pos@.len() ==> call_ensures(
                rule,
                (pos@[i], partner_in(*lay, pos@, batch, i), anchor@[i]),
                #[trigger] out@[i],
            ),
{
    let n: usize = pos.len();
    proof {
        lay.lemma_fits();
    }
    let (rows, cols): (usize, usize) = (lay.buf_rows(), lay.buf_cols());
    let out = par_map(
        n,
        |i: usize| -> (p: P)
            requires
                n > i,
                n == pos@.len(),
                is_steppable(*lay),
                pos@.len() == lay.size(),
                anchor@.len() == lay.size(),
                rows == lay.height(),
                cols == lay.width(),
                batch.wf(),
                forall|p: P, q: Option<P>, a: P| call_requires(rule, (p, q, a)),
            ensures
                call_ensures(
                    rule,
                    (pos@[i as int], partner_in(*lay, pos@, batch, i as int), anchor@[i as int]),
                    p,
                ),
            {
                let (r, c): (usize, usize) = (i / cols, i % cols);
                proof {
                    lemma_row_bound(i as int, rows as int, cols as int);
                    lemma_cell_of(i as int, cols as int);
                    batch.lemma_small(r as int, c as int);
                }
                let (dr, dc): (i32, i32) = batch.partner(r, c);
                rule(pos[i], neighbor(lay, pos, r, c, dr, dc), anchor[i])
            });
    proof {
        assert forall|i: int| 0 <= i < pos@.len() implies call_ensures(
            rule,
            (pos@[i], partner_in(*lay, pos@, batch, i), anchor@[i]),
            #[trigger] out@[i],
        ) by {
            let k = i as usize;
            assert(out@[k as int] == out@[i]);
        }
    }
    out
}

/// The neighbor of a buffer particle, or the particle itself.
fn pick<P: Copy>(lay: &Layout, pos: &[P], i: usize, r: usize, c: usize, dr: i32, dc: i32) -> (q: P)
    requires
        is_steppable(*lay),
        pos@.len() == lay.size(),
        r < lay.height(),
        c < lay.width(),
        i < pos@.len(),
        r == i as int / lay.width(),
        c == i as int % lay.width(),
        -1 <= dr <= 1,
        -1 <= dc <= 1,
    ensures
        q == picked(*lay, pos@, i as int, dr as int, dc as int),
{
    match neighbor(lay, pos, r, c, dr, dc) {
        Some(q) => q,
        None => pos[i],
    }
}

/// A buffer of particles: `place` makes those of the grid, and the ghost ring is
/// filled with `ghost_particle`.
pub fn initial<P: Copy, F: Fn(usize, usize) -> P>(lay: &Layout, ghost_particle: P, place: F) -> (out:
    Vec<P>)
    requires
        lay.fits(),
        forall|r: usize, c: usize| r < lay.rows && c < lay.cols ==> #[trigger] call_requires(place, (r, c)),
    ensures
        out@.len() == lay.size(),
        forall|i: int|
            #![trigger out@[i]]
            0 <= i < lay.size() ==> if lay.inside(i / lay.width(), i % lay.width()) {
                call_ensures(
                    place,
                    ((i / lay.width() - TILE) as usize, (i % lay.width() - TILE) as usize),
                    out@[i],
                )
            } else {
                out@[i] == ghost_particle
            },
{
    proof {
        lay.lemma_fits();
    }
    let (rows, cols): (usize, usize) = (lay.buf_rows(), lay.buf_cols());
    let n: usize = rows * cols;
    let mut out: Vec<P> = Vec::new();
    let mut i: usize = 0;
    while i < n
        invariant
            i <= n,
            n == lay.size(),
            n == rows * cols,
            rows == lay.height(),
            cols == lay.width(),
            forall|r: usize, c: usize|
                r < lay.rows && c < lay.cols ==> #[trigger] call_requires(place, (r, c)),
            out@.len() == i,
            forall|j: int|
                #![trigger out@[j]]
                0 <= j < i ==> if lay.inside(j / lay.width(), j % lay.width()) {
                    call_ensures(
                        place,
                        ((j / lay.width() - TILE) as usize, (j % lay.width() - TILE) as usize),
                        out@[j],
                    )
                } else {
                    out@[j] == ghost_particle
                },
        decreases n - i,
    {
        proof {
            lemma_row_bound(i as int, rows as int, cols as int);
        }
        let (r, c): (usize, usize) = (i / cols, i % cols);
        if lay.is_world(r, c) {
            out.push(place(r - TILE, c - TILE));
        } else {
            out.push(ghost_particle);
        }
        i = i + 1;
    }
    out
}

/// Which of the two cloth colors the particle at buffer place `(r, c)` has. The
/// checkerboard of the grid goes on over the ghost ring.
pub open spec fn has_first_color(r: int, c: int) -> bool {
    ((r - TILE) / 16 + (c - TILE) / 16) % 2 == 0
}

/// Project and light: `rule` makes what is shown of each particle's position,
/// normal and cloth color.
pub fn shade<P: Copy + Send + Sync, Q: Send, F: Fn(P, P, bool) -> Q + Sync + Send>(
    lay: &Layout,
    pos: &[P],
    nrm: &[P],
    rule: F,
) -> (out: Vec<Q>)
    requires
        is_steppable(*lay),
        pos@.len() == lay.size(),
        nrm@.len() == lay.size(),
        forall|p: P, n: P, first: bool| call_requires(rule, (p, n, first)),
    ensures
        is_shaded(*lay, pos@, nrm@, rule, out@),
{
    let n: usize = pos.len();
    proof {
        lay.lemma_fits();
    }
    let (rows, cols): (usize, usize) = (lay.buf_rows(), lay.buf_cols());
    let out = par_map(
        n,
        |i: usize| -> (q: Q)
            requires
                n > i,
                n == pos@.len(),
                is_steppable(*lay),
                pos@.len() == lay.size(),
                nrm@.len() == lay.size(),
                rows == lay.height(),
                cols == lay.width(),
                forall|p: P, m: P, first: bool| call_requires(rule, (p, m, first)),
            ensures
                call_ensures(
                    rule,
                    (
                        pos@[i as int],
                        nrm@[i as int],
                        has_first_color(i as int / lay.width(), i as int % lay.width()),
                    ),
                    q,
                ),
            {
                let (r, c): (usize, usize) = (i / cols, i % cols);
                proof {
                    lemma_row_bound(i as int, rows as int, cols as int);
                }
                // Two tiles further on the checkerboard is the same.
                rule(pos[i], nrm[i], is_first_color(r + TILE, c + TILE))
            });
    out
}

/// Normals: `rule` makes one of each particle's left, right, upper and lower
/// neighbor. A missing neighbor counts as the particle itself.
pub fn normals<P: Copy + Send + Sync, F: Fn(P, P, P, P) -> P + Sync + Send>(
    lay: &Layout,
    pos: &[P],
    rule: F,
) -> (out: Vec<P>)
    requires
        is_steppable(*lay),
        pos@.len() == lay.size(),
        forall|l: P, r: P, u: P, d: P| call_requires(rule, (l, r, u, d)),
    ensures
        is_normals(*lay, pos@, rule, out@),
{
    let n: usize = pos.len();
    proof {
        lay.lemma_fits();
    }
    let (rows, cols): (usize, usize) = (lay.buf_rows(), lay.buf_cols());
    let out = par_map(
        n,
        |i: usize| -> (p: P)
            requires
                n > i,
                n == pos@.len(),
                is_steppable(*lay),
                pos@.len() == lay.size(),
                rows == lay.height(),
                cols == lay.width(),
                forall|l: P, r: P, u: P, d: P| call_requires(rule, (l, r, u, d)),
            ensures
                call_ensures(
                    rule,
                    (
                        picked(*lay, pos@, i as int, 0, -1),
                        picked(*lay, pos@, i as int, 0, 1),
                        picked(*lay, pos@, i as int, -1, 0),
                        picked(*lay, pos@, i as int, 1, 0),
                    ),
                    p,
                ),
            {
                let (r, c): (usize, usize) = (i / cols, i % cols);
                proof {
                    lemma_row_bound(i as int, rows as int, cols as int);
                }
                rule(
                    pick(lay, pos, i, r, c, 0, -1),
                    pick(lay, pos, i, r, c, 0, 1),
                    pick(lay, pos, i, r, c, -1, 0),
                    pick(lay, pos, i, r, c, 1, 0),
                )
            });
    proof {
        assert forall|i: int| 0 <= i < pos@.len() implies call_ensures(
            rule,
            (
                picked(*lay, pos@, i, 0, -1),
                picked(*lay, pos@, i, 0, 1),
                picked(*lay, pos@, i, -1, 0),
                picked(*lay, pos@, i, 1, 0),
            ),
            #[trigger] out@[i],
        ) by {
            let k = i as usize;
            assert(out@[k as int] == out@[i]);
        }
    }
    out
}

/// Around a ghost the cloth is flat: of its left and right neighbors, or of its
/// upper and lower ones, both count as the ghost itself.
pub proof fn law_ghosts_are_flat<P>(lay: Layout, pos: Seq<P>, i: int)
    requires
        0 <= i < pos.len(),
        !lay.inside(i / lay.width(), i % lay.width()),
    ensures
        picked(lay, pos, i, 0, -1) == picked(lay, pos, i, 0, 1) || picked(lay, pos, i, -1, 0)
            == picked(lay, pos, i, 1, 0),
{
}

/// Ghosts have no normal: where a rule makes `zero` of every place that is flat in
/// one direction, the normals of all ghosts are `zero`.
pub proof fn law_ghosts_have_no_normal<P, F: Fn(P, P, P, P) -> P>(
    lay: Layout,
    pos: Seq<P>,
    rule: F,
    nrm: Seq<P>,
    zero: P,
    i: int,
)
    requires
        is_normals(lay, pos, rule, nrm),
        forall|l: P, r: P, u: P, d: P, m: P| #[trigger]
            call_ensures(rule, (l, r, u, d), m) && (l == r || u == d) ==> m == zero,
        0 <= i < pos.len(),
        !lay.inside(i / lay.width(), i % lay.width()),
    ensures
        nrm[i] == zero,
{
    law_ghosts_are_flat(lay, pos, i);
}

/// A link is solved from both ends: if one particle's partner is another, the
/// other's partner is the one.
pub proof fn law_links_are_mutual<P>(lay: Layout, pos: Seq<P>, batch: Batch, i: int)
    requires
        is_steppable(lay),
        pos.len() == lay.size(),
        batch.wf(),
        0 <= i < pos.len(),
        lay.inside(i / lay.width(), i % lay.width()),
        partner_in(lay, pos, batch, i) is Some,
    ensures
        ({
            let w = lay.width();
            let (dr, dc) = batch.partner_of(i / w, i % w);
            let j = at(i / w + dr, i % w + dc, w);
            &&& 0 <= j < pos.len()
            &&& j != i
            &&& partner_in(lay, pos, batch, i) == Some(pos[j])
            &&& partner_in(lay, pos, batch, j) == Some(pos[i])
        }),
{
    let w = lay.width();
    let (r, c) = (i / w, i % w);
    let (dr, dc) = batch.partner_of(r, c);
    law_partners_agree(batch, r, c);
    batch.lemma_small(r, c);
    lemma_cell_of(i, w);
    lemma_at(r + dr, c + dc, lay.height(), w);
    let j = at(r + dr, c + dc, w);
    assert(j / w == r + dr && j % w == c + dc);
    assert(at(r, c, w) == i);
}

/// The passes of a substep: one to integrate, and the batches of every
/// iteration.
pub open spec fn passes_per_substep(iterations: int) -> int {
    1 + 12 * iterations
}

/// Whether `out` is what `rule` makes of every particle on its own.
pub open spec fn is_integrated<P, F: Fn(P, P, P) -> P>(
    pos: Seq<P>,
    prev: Seq<P>,
    nrm: Seq<P>,
    rule: F,
    out: Seq<P>,
) -> bool {
    &&& out.len() == pos.len()
    &&& forall|i: int|
        0 <= i < pos.len() ==> call_ensures(rule, (pos[i], prev[i], nrm[i]), #[trigger] out[i])
}

/// Whether `out` is what `rule` makes of every particle and its partner.
pub open spec fn is_paired<P, F: Fn(Batch, P, Option<P>, P) -> P>(
    lay: Layout,
    pos: Seq<P>,
    anchor: Seq<P>,
    batch: Batch,
    rule: F,
    out: Seq<P>,
) -> bool {
    &&& out.len() == pos.len()
    &&& forall|i: int|
        0 <= i < pos.len() ==> call_ensures(
            rule,
            (batch, pos[i], partner_in(lay, pos, batch, i), anchor[i]),
            #[trigger] out[i],
        )
}

/// Whether `out` are the normals that `rule` makes.
pub open spec fn is_normals<P, F: Fn(P, P, P, P) -> P>(
    lay: Layout,
    pos: Seq<P>,
    rule: F,
    out: Seq<P>,
) -> bool {
    &&& out.len() == pos.len()
    &&& forall|i: int|
        0 <= i < pos.len() ==> call_ensures(
            rule,
            (
                picked(lay, pos, i, 0, -1),
                picked(lay, pos, i, 0, 1),
                picked(lay, pos, i, -1, 0),
                picked(lay, pos, i, 1, 0),
            ),
            #[trigger] out[i],
        )
}

/// Whether `out` is what `rule` makes of every particle to be shown.
pub open spec fn is_shaded<P, Q, F: Fn(P, P, bool) -> Q>(
    lay: Layout,
    pos: Seq<P>,
    nrm: Seq<P>,
    rule: F,
    out: Seq<Q>,
) -> bool {
    &&& out.len() == pos.len()
    &&& forall|i: int|
        0 <= i < pos.len() ==> call_ensures(
            rule,
            (pos[i], nrm[i], has_first_color(i / lay.width(), i % lay.width())),
            #[trigger] out[i],
        )
}

/// Whether the positions `trace` are those between the passes of a frame, of
/// a cloth that was at `prev` a substep before. The first pass of a substep
/// integrates, from the positions at the start of this substep and the one
/// before; the others solve the batches in turn.
#[verifier::opaque]
pub open spec fn is_trace<P, F: Fn(P, P, P) -> P, G: Fn(Batch, P, Option<P>, P) -> P>(
    lay: Layout,
    trace: Seq<Seq<P>>,
    prev: Seq<P>,
    nrm: Seq<P>,
    anchor: Seq<P>,
    iterations: int,
    motion: F,
    link: G,
) -> bool {
    let l = passes_per_substep(iterations);
    forall|n: int|
        #![trigger trace[n]]
        0 < n < trace.len() ==> if (n - 1) % l == 0 {
            is_integrated(
                trace[n - 1],
                if n == 1 {
                    prev
                } else {
                    trace[n - 1 - l]
                },
                nrm,
                motion,
                trace[n],
            )
        } else {
            is_paired(lay, trace[n - 1], anchor, batch_of(((n - 1) % l - 1) % 12), link, trace[n])
        }
}

/// Where the particles of a cloth are and were a substep before, and their
/// normals.
pub struct Pose<P> {
    pub pos: Seq<P>,
    pub prev: Seq<P>,
    pub nrm: Seq<P>,
}

/// Whether a frame may lead from one pose to another: `substeps` times
/// integration and `iterations` times the twelve batches, and then new normals.
pub open spec fn is_frame<
    P,
    F: Fn(P, P, P) -> P,
    G: Fn(Batch, P, Option<P>, P) -> P,
    H: Fn(P, P, P, P) -> P,
>(
    lay: Layout,
    before: Pose<P>,
    anchor: Seq<P>,
    substeps: int,
    iterations: int,
    motion: F,
    link: G,
    normal: H,
    after: Pose<P>,
) -> bool {
    let l = passes_per_substep(iterations);
    &&& is_normals(lay, after.pos, normal, after.nrm)
    &&& exists|trace: Seq<Seq<P>>|
        {
            &&& trace.len() == substeps * l + 1
            &&& trace[0] == before.pos
            &&& trace[substeps * l] == after.pos
            &&& after.prev == if substeps == 0 {
                before.prev
            } else {
                trace[(substeps - 1) * l]
            }
            &&& #[trigger] is_trace(
                lay,
                trace,
                before.prev,
                before.nrm,
                anchor,
                iterations,
                motion,
                link,
            )
        }
}

/// A cloth: where its particles are and were, their normals, and where their
/// anchors are.
pub struct Cloth<P> {
    pub pos: Vec<P>,
    pub prev: Vec<P>,
    pub nrm: Vec<P>,
    pub anchor: Vec<P>,
}

impl<P: Copy + Send + Sync> Cloth<P> {
    /// Whether every part of the cloth is a buffer of the layout.
    pub open spec fn wf(self, lay: Layout) -> bool {
        &&& is_steppable(lay)
        &&& self.pos@.len() == lay.size()
        &&& self.prev@.len() == lay.size()
        &&& self.nrm@.len() == lay.size()
        &&& self.anchor@.len() == lay.size()
    }

    /// Everything that a frame changes.
    pub open spec fn pose(self) -> Pose<P> {
        Pose { pos: self.pos@, prev: self.prev@, nrm: self.nrm@ }
    }

    /// One frame: substeps of integration and `iterations` times the twelve
    /// batches, and then new normals. `motion` moves a particle on its own,
    /// `link` moves it towards its partner, and `normal` works out its normal.
    pub fn frame<
        F: Fn(P, P, P) -> P + Sync + Send,
        G: Fn(Batch, P, Option<P>, P) -> P + Sync + Send,
        H: Fn(P, P, P, P) -> P + Sync + Send,
    >(&mut self, lay: &Layout, substeps: usize, iterations: usize, motion: F, link: G, normal: H)
        requires
            old(self).wf(*lay),
            forall|p: P, q: P, n: P| call_requires(motion, (p, q, n)),
            forall|b: Batch, p: P, q: Option<P>, a: P| call_requires(link, (b, p, q, a)),
            forall|l: P, r: P, u: P, d: P| call_requires(normal, (l, r, u, d)),
        ensures
            final(self).wf(*lay),
            final(self).anchor == old(self).anchor,
            is_frame(
                *lay,
                old(self).pose(),
                old(self).anchor@,
                substeps as int,
                iterations as int,
                motion,
                link,
                normal,
                final(self).pose(),
            ),
    {
        let ghost l = passes_per_substep(iterations as int);
        let ghost prev0 = self.prev@;
        let ghost nrm0 = self.nrm@;
        let ghost anchor0 = self.anchor@;
        let ghost mut trace: Seq<Seq<P>> = seq![self.pos@];
        let batches = Batch::iteration();
        let mut s: usize = 0;
        proof {
            assert(0 * l == 0) by (nonlinear_arith);
            reveal(is_trace);
        }
        while s < substeps
            invariant
                s <= substeps,
                l == passes_per_substep(iterations as int),
                self.wf(*lay),
                self.nrm@ == nrm0,
                self.anchor@ == anchor0,
                prev0 == old(self).prev@,
                nrm0 == old(self).nrm@,
                anchor0 == old(self).anchor@,
                self.anchor == old(self).anchor,
                forall|p: P, q: P, n: P| call_requires(motion, (p, q, n)),
                forall|b: Batch, p: P, q: Option<P>, a: P| call_requires(link, (b, p, q, a)),
                forall|i: int| 0 <= i < 12 ==> #[trigger] batches@[i] == batch_of(i),
                trace.len() == s * l + 1,
                trace[0] == old(self).pos@,
                trace[s * l] == self.pos@,
                self.prev@ == if s == 0 {
                    prev0
                } else {
                    trace[(s - 1) * l]
                },
                is_trace(*lay, trace, prev0, nrm0, anchor0, iterations as int, motion, link),
            decreases substeps - s,
        {
            let ghost base = s * l;
            let ghost before = trace;
            let moved = integrate(&self.pos, &self.prev, &self.nrm, |p: P, q: P, n: P| -> (m: P)
                requires
                    call_requires(motion, (p, q, n)),
                ensures
                    call_ensures(motion, (p, q, n), m),
                { motion(p, q, n) });
            proof {
                trace = trace.push(moved@);
                assert(base % l == 0) by {
                    lemma_fundamental_div_mod_converse(base, l, s as int, 0);
                }
                assert(s > 0 ==> base - l == (s - 1) * l) by (nonlinear_arith)
                    requires
                        base == s * l,
                ;
                assert(s > 0 ==> base > 0) by (nonlinear_arith)
                    requires
                        base == s * l,
                        l >= 1,
                ;
                assert(is_integrated(
                    self.pos@,
                    if s == 0 {
                        prev0
                    } else {
                        trace[base - l]
                    },
                    nrm0,
                    motion,
                    moved@,
                ));
                lemma_trace_push(*lay, before, moved@, prev0, nrm0, anchor0, iterations as int, motion, link);
            }
            let mut was: Vec<P> = moved;
            std::mem::swap(&mut self.pos, &mut was);
            self.prev = was;
            let mut it: usize = 0;
            while it < iterations
                invariant
                    s < substeps,
                    it <= iterations,
                    l == passes_per_substep(iterations as int),
                    base == s * l,
                    base % l == 0,
                    self.wf(*lay),
                    self.nrm@ == nrm0,
                    self.anchor@ == anchor0,
                    self.anchor == old(self).anchor,
                    self.prev@ == trace[base],
                    forall|b: Batch, p: P, q: Option<P>, a: P| call_requires(link, (b, p, q, a)),
                    forall|i: int| 0 <= i < 12 ==> #[trigger] batches@[i] == batch_of(i),
                    trace.len() == base + 1 + 12 * it + 1,
                    trace[0] == old(self).pos@,
                    trace.last() == self.pos@,
                    is_trace(*lay, trace, prev0, nrm0, anchor0, iterations as int, motion, link),
                decreases iterations - it,
            {
                let mut k: usize = 0;
                while k < 12
                    invariant
                        s < substeps,
                        it < iterations,
                        k <= 12,
                        l == passes_per_substep(iterations as int),
                        base == s * l,
                        base % l == 0,
                        self.wf(*lay),
                        self.nrm@ == nrm0,
                        self.anchor@ == anchor0,
                        self.anchor == old(self).anchor,
                        self.prev@ == trace[base],
                        forall|b: Batch, p: P, q: Option<P>, a: P|
                            call_requires(link, (b, p, q, a)),
                        forall|i: int| 0 <= i < 12 ==> #[trigger] batches@[i] == batch_of(i),
                        trace.len() == base + 1 + 12 * it + k + 1,
                        trace[0] == old(self).pos@,
                        trace.last() == self.pos@,
                        is_trace(*lay, trace, prev0, nrm0, anchor0, iterations as int, motion, link),
                    decreases 12 - k,
                {
                    let batch: Batch = batches[k];
                    let ghost before = trace;
                    proof {
                        law_iteration_complete(k as int);
                    }
                    let moved = pair(
                        lay,
                        &self.pos,
                        &self.anchor,
                        batch,
                        |p: P, q: Option<P>, a: P| -> (m: P)
                            requires
                                call_requires(link, (batch, p, q, a)),
                            ensures
                                call_ensures(link, (batch, p, q, a), m),
                            { link(batch, p, q, a) });
                    proof {
                        let n = trace.len() as int;
                        let o = 1 + 12 * it + k;
                        assert(n - 1 == base + o);
                        assert(0 < o < l);
                        assert((n - 1) % l == o) by {
                            assert(base + o == s * l + o);
                            lemma_fundamental_div_mod_converse(base + o, l, s as int, o);
                        }
                        assert((o - 1) % 12 == k);
                        assert(is_paired(*lay, self.pos@, anchor0, batch, link, moved@));
                        trace = trace.push(moved@);
                        lemma_trace_push(*lay, before, moved@, prev0, nrm0, anchor0, iterations as int, motion, link);
                    }
                    self.pos = moved;
                    k += 1;
                }
                it += 1;
            }
            proof {
                assert((s + 1) * l == base + l) by (nonlinear_arith)
                    requires
                        base == s * l,
                ;
                assert((s + 1 - 1) * l == base);
            }
            s += 1;
        }
        let nrm = normals(lay, &self.pos, |a: P, b: P, c: P, d: P| -> (m: P)
            requires
                call_requires(normal, (a, b, c, d)),
            ensures
                call_ensures(normal, (a, b, c, d), m),
            { normal(a, b, c, d) });
        self.nrm = nrm;
        proof {
            let (before, after) = (old(self).pose(), self.pose());
            assert(is_normals(*lay, after.pos, normal, after.nrm));
            assert(trace[0] == before.pos && trace[substeps * l] == after.pos);
            assert(is_trace(
                *lay,
                trace,
                before.prev,
                before.nrm,
                anchor0,
                iterations as int,
                motion,
                link,
            ));
        }
    }
}

/// What a rule for motion says of the same particle is always the same.
pub open spec fn is_steady_motion<P, F: Fn(P, P, P) -> P>(rule: F) -> bool {
    forall|p: P, q: P, n: P, a: P, b: P| #[trigger]
        call_ensures(rule, (p, q, n), a) && #[trigger] call_ensures(rule, (p, q, n), b) ==> a == b
}

/// What a rule for links says of the same pair is always the same.
pub open spec fn is_steady_link<P, G: Fn(Batch, P, Option<P>, P) -> P>(rule: G) -> bool {
    forall|t: Batch, p: P, q: Option<P>, n: P, a: P, b: P| #[trigger]
        call_ensures(rule, (t, p, q, n), a) && #[trigger] call_ensures(rule, (t, p, q, n), b) ==> a
            == b
}

/// What a rule for normals says of the same neighbors is always the same.
pub open spec fn is_steady_normal<P, H: Fn(P, P, P, P) -> P>(rule: H) -> bool {
    forall|l: P, r: P, u: P, d: P, a: P, b: P| #[trigger]
        call_ensures(rule, (l, r, u, d), a) && #[trigger] call_ensures(rule, (l, r, u, d), b) ==> a
            == b
}

/// A pass other than the first of all starts a substep no earlier than the first
/// substep ends.
proof fn lemma_substep_back(n: int, l: int)
    requires
        l >= 1,
        n > 1,
        (n - 1) % l == 0,
    ensures
        n - 1 >= l,
{
    lemma_fundamental_div_mod(n - 1, l);
    assert((n - 1) / l >= 1) by (nonlinear_arith)
        requires
            n - 1 == l * ((n - 1) / l),
            n > 1,
            l >= 1,
    ;
    assert(n - 1 >= l) by (nonlinear_arith)
        requires
            n - 1 == l * ((n - 1) / l),
            (n - 1) / l >= 1,
            l >= 1,
    ;
}

proof fn lemma_same_trace<P, F: Fn(P, P, P) -> P, G: Fn(Batch, P, Option<P>, P) -> P>(
    lay: Layout,
    a: Seq<Seq<P>>,
    b: Seq<Seq<P>>,
    prev: Seq<P>,
    nrm: Seq<P>,
    anchor: Seq<P>,
    iterations: int,
    motion: F,
    link: G,
    n: int,
)
    requires
        is_steady_motion(motion),
        is_steady_link(link),
        iterations >= 0,
        is_trace(lay, a, prev, nrm, anchor, iterations, motion, link),
        is_trace(lay, b, prev, nrm, anchor, iterations, motion, link),
        a.len() == b.len(),
        0 <= n < a.len(),
        a[0] == b[0],
    ensures
        a[n] == b[n],
    decreases n,
{
    if n > 0 {
        let l = passes_per_substep(iterations);
        lemma_same_trace(lay, a, b, prev, nrm, anchor, iterations, motion, link, n - 1);
        reveal(is_trace);
        let (x, y) = (a[n], b[n]);
        let pos = a[n - 1];
        if (n - 1) % l == 0 {
            if n > 1 {
                lemma_substep_back(n, l);
                lemma_same_trace(lay, a, b, prev, nrm, anchor, iterations, motion, link, n - 1 - l);
            }
            let was = if n == 1 {
                prev
            } else {
                a[n - 1 - l]
            };
            assert(is_integrated(pos, was, nrm, motion, x));
            assert(is_integrated(pos, was, nrm, motion, y));
            assert forall|i: int| 0 <= i < pos.len() implies x[i] == y[i] by {
                assert(call_ensures(motion, (pos[i], was[i], nrm[i]), x[i]));
                assert(call_ensures(motion, (pos[i], was[i], nrm[i]), y[i]));
            }
        } else {
            let batch = batch_of(((n - 1) % l - 1) % 12);
            assert(is_paired(lay, pos, anchor, batch, link, x));
            assert(is_paired(lay, pos, anchor, batch, link, y));
            assert forall|i: int| 0 <= i < pos.len() implies x[i] == y[i] by {
                let q = partner_in(lay, pos, batch, i);
                assert(call_ensures(link, (batch, pos[i], q, anchor[i]), x[i]));
                assert(call_ensures(link, (batch, pos[i], q, anchor[i]), y[i]));
            }
        }
        assert(x =~= y);
    }
}

/// Where the rules always say the same, a frame from the same pose always ends in
/// the same pose, wherever it is computed.
pub proof fn law_one_frame<
    P,
    F: Fn(P, P, P) -> P,
    G: Fn(Batch, P, Option<P>, P) -> P,
    H: Fn(P, P, P, P) -> P,
>(
    lay: Layout,
    before: Pose<P>,
    anchor: Seq<P>,
    substeps: int,
    iterations: int,
    motion: F,
    link: G,
    normal: H,
    a: Pose<P>,
    b: Pose<P>,
)
    requires
        is_steady_motion(motion),
        is_steady_link(link),
        is_steady_normal(normal),
        substeps >= 0,
        iterations >= 0,
        is_frame(lay, before, anchor, substeps, iterations, motion, link, normal, a),
        is_frame(lay, before, anchor, substeps, iterations, motion, link, normal, b),
    ensures
        a == b,
{
    let l = passes_per_substep(iterations);
    let end = substeps * l;
    let ta = choose|trace: Seq<Seq<P>>|
        trace.len() == end + 1 && trace[0] == before.pos && trace[end] == a.pos && a.prev == (
        if substeps == 0 {
            before.prev
        } else {
            trace[(substeps - 1) * l]
        }) && #[trigger] is_trace(
            lay,
            trace,
            before.prev,
            before.nrm,
            anchor,
            iterations,
            motion,
            link,
        );
    let tb = choose|trace: Seq<Seq<P>>|
        trace.len() == end + 1 && trace[0] == before.pos && trace[end] == b.pos && b.prev == (
        if substeps == 0 {
            before.prev
        } else {
            trace[(substeps - 1) * l]
        }) && #[trigger] is_trace(
            lay,
            trace,
            before.prev,
            before.nrm,
            anchor,
            iterations,
            motion,
            link,
        );
    assert(0 <= end) by (nonlinear_arith)
        requires
            end == substeps * l,
            substeps >= 0,
            l >= 0,
    ;
    lemma_same_trace(lay, ta, tb, before.prev, before.nrm, anchor, iterations, motion, link, end);
    if substeps > 0 {
        let m = (substeps - 1) * l;
        assert(0 <= m <= end) by (nonlinear_arith)
            requires
                m == (substeps - 1) * l,
                end == substeps * l,
                substeps >= 1,
                l >= 0,
        ;
        lemma_same_trace(lay, ta, tb, before.prev, before.nrm, anchor, iterations, motion, link, m);
    }
    let pos = a.pos;
    assert forall|i: int| 0 <= i < pos.len() implies a.nrm[i] == b.nrm[i] by {
        let (w, e) = (picked(lay, pos, i, 0, -1), picked(lay, pos, i, 0, 1));
        let (n, s) = (picked(lay, pos, i, -1, 0), picked(lay, pos, i, 1, 0));
        assert(call_ensures(normal, (w, e, n, s), a.nrm[i]));
        assert(call_ensures(normal, (w, e, n, s), b.nrm[i]));
    }
    assert(a.nrm =~= b.nrm);
}

/// One more pass of a frame.
proof fn lemma_trace_push<P, F: Fn(P, P, P) -> P, G: Fn(Batch, P, Option<P>, P) -> P>(
    lay: Layout,
    trace: Seq<Seq<P>>,
    pos: Seq<P>,
    prev: Seq<P>,
    nrm: Seq<P>,
    anchor: Seq<P>,
    iterations: int,
    motion: F,
    link: G,
)
    requires
        trace.len() > 0,
        is_trace(lay, trace, prev, nrm, anchor, iterations, motion, link),
        ({
            let l = passes_per_substep(iterations);
            let n = trace.len() as int;
            if (n - 1) % l == 0 {
                is_integrated(
                    trace[n - 1],
                    if n == 1 {
                        prev
                    } else {
                        trace[n - 1 - l]
                    },
                    nrm,
                    motion,
                    pos,
                )
            } else {
                is_paired(lay, trace[n - 1], anchor, batch_of(((n - 1) % l - 1) % 12), link, pos)
            }
        }),
        iterations >= 0,
        trace.len() == 1 || trace.len() > passes_per_substep(iterations) || (trace.len() - 1)
            % passes_per_substep(iterations) != 0,
    ensures
        is_trace(lay, trace.push(pos), prev, nrm, anchor, iterations, motion, link),
{
    reveal(is_trace);
    let l = passes_per_substep(iterations);
    let longer = trace.push(pos);
    assert forall|n: int|
        #![trigger longer[n]]
        0 < n < longer.len() implies if (n - 1) % l == 0 {
        is_integrated(
            longer[n - 1],
            if n == 1 {
                prev
            } else {
                longer[n - 1 - l]
            },
            nrm,
            motion,
            longer[n],
        )
    } else {
        is_paired(lay, longer[n - 1], anchor, batch_of(((n - 1) % l - 1) % 12), link, longer[n])
    } by {
        if n < trace.len() {
            assert(longer[n] == trace[n] && longer[n - 1] == trace[n - 1]);
            if (n - 1) % l == 0 && n > 1 {
                lemma_substep_back(n, l);
                assert(longer[n - 1 - l] == trace[n - 1 - l]);
            }
        }
    }
}

} // verus!
