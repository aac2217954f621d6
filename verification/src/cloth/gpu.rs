//! How a frame runs on tiles: the views a pass reads, and the launches of a
//! frame.
use crate::cloth::cpu::{
    is_frame, is_integrated, is_normals, is_paired, is_shaded, is_trace, passes_per_substep, Pose,
};
use crate::cloth::world::{batch_of, Batch, Layout, TILE};
use vstd::arithmetic::div_mod::{lemma_fundamental_div_mod, lemma_fundamental_div_mod_converse};
use vstd::prelude::*;

verus! {

/// A window into a buffer: where it starts and ends, in rows and columns.
#[derive(Clone, Copy, Debug)]
pub struct Window {
    pub row: usize,
    pub row_end: usize,
    pub col: usize,
    pub col_end: usize,
}

/// The window of a buffer through which block `(i - 1, j - 1)` shows the
/// `(dr, dc)` neighbors of block `(i, j)`. Every window has the same shape, and
/// its last block is a partial one.
pub fn window(lay: &Layout, dr: i32, dc: i32) -> (w: Window)
    requires
        lay.height() <= usize::MAX,
        lay.width() <= usize::MAX,
        -(TILE as int) <= dr < TILE,
        -(TILE as int) <= dc < TILE,
    ensures
        w.row == TILE + dr,
        w.col == TILE + dc,
        w.row_end == w.row + lay.rows + 1,
        w.col_end == w.col + lay.cols + 1,
        w.row_end <= lay.height(),
        w.col_end <= lay.width(),
{
    let (lr, lc): (usize, usize) = (
        lay.buf_rows() - 2 * TILE + 1,
        lay.buf_cols() - 2 * TILE + 1,
    );
    let (r, c): (usize, usize) = ((32 + dr) as usize, (32 + dc) as usize);
    Window { row: r, row_end: r + lr, col: c, col_end: c + lc }
}

/// A window shows what it should: row `a` of block `i - 1` of the window that
/// starts at `TILE + dr` is `dr` rows from row `a` of block `i` of the buffer,
/// and every such row of the grid is inside the window.
pub proof fn law_window(lay: Layout, dr: int, i: int, a: int)
    requires
        -(TILE as int) <= dr < TILE,
        0 <= a < TILE,
        1 <= i,
        i * TILE + a < TILE + lay.rows,
    ensures
        (TILE + dr) + (i - 1) * TILE + a == i * TILE + a + dr,
        0 <= (i - 1) * TILE + a < lay.rows + 1,
{
}

/// What a window shows where: place `(a, b)` of block `(i - 1, j - 1)` of the window is
/// `dr` rows and `dc` columns from place `(a, b)` of block `(i, j)` of the buffer, and every
/// such place of the grid is inside the window.
pub proof fn law_window_places(lay: Layout, dr: i32, dc: i32, w: Window, i: int, j: int, a: int, b: int)
    requires
        call_ensures(window, (&lay, dr, dc), w),
        0 <= a < TILE,
        0 <= b < TILE,
        1 <= i,
        1 <= j,
        i * TILE + a < TILE + lay.rows,
        j * TILE + b < TILE + lay.cols,
    ensures
        w.row + (i - 1) * TILE + a == i * TILE + a + dr,
        w.col + (j - 1) * TILE + b == j * TILE + b + dc,
        w.row + (i - 1) * TILE + a < w.row_end,
        w.col + (j - 1) * TILE + b < w.col_end,
        w.row_end - w.row == lay.rows + 1,
        w.col_end - w.col == lay.cols + 1,
{
}

/// A kernel launch of a frame. Positions and previous positions each ping-pong
/// between two buffers.
#[derive(Clone, Copy, Debug)]
pub enum Launch {
    /// Read positions from buffer `from` and previous ones from `prev`, write
    /// the other two.
    Integrate { from: usize, prev: usize },
    /// Solve batch `pass` from buffer `from` into the other one.
    Pair { from: usize, pass: usize },
    /// Normals of buffer `from`.
    Normals { from: usize },
    /// Project and light buffer `from`.
    Shade { from: usize },
}

/// The `n`th pass of a frame that starts in buffer `parity`: the first one of
/// a substep integrates, the others solve the batches in turn. Every pass
/// flips the buffers, and an iteration has an even number of them.
pub open spec fn launch_at(parity: int, iterations: int, n: int) -> Launch {
    let l = passes_per_substep(iterations);
    let (s, o) = (n / l, n % l);
    if o == 0 {
        Launch::Integrate { from: ((parity + s) % 2) as usize, prev: ((parity + s) % 2) as usize }
    } else {
        Launch::Pair { from: ((parity + s + o) % 2) as usize, pass: ((o - 1) % 12) as usize }
    }
}

/// The launches of a frame.
pub open spec fn plan_of(parity: int, substeps: int, iterations: int) -> Seq<Launch> {
    let end = ((parity + substeps) % 2) as usize;
    Seq::new(
        (substeps * passes_per_substep(iterations)) as nat,
        |n: int| launch_at(parity, iterations, n),
    ) + seq![Launch::Normals { from: end }, Launch::Shade { from: end }]
}

/// The buffer a frame that starts in `parity` leaves its result in.
pub fn end_parity(parity: usize, substeps: usize) -> (p: usize)
    requires
        parity + substeps <= usize::MAX,
    ensures
        p == (parity + substeps) % 2,
{
    (parity + substeps) % 2
}

/// How many launches a frame takes.
pub fn launches(substeps: usize, iterations: usize) -> (n: usize)
    requires
        substeps * passes_per_substep(iterations as int) + 2 <= usize::MAX,
        12 * iterations + 1 <= usize::MAX,
    ensures
        n == substeps * passes_per_substep(iterations as int) + 2,
        forall|parity: int| n == #[trigger] plan_of(parity, substeps as int, iterations as int).len(),
{
    proof {
        let l = passes_per_substep(iterations as int);
        assert(0 <= substeps * l) by (nonlinear_arith)
            requires
                l >= 0,
        ;
    }
    substeps * (1 + 12 * iterations) + 2
}

/// One frame: `substeps` times integration and `iterations` times the twelve
/// batches, and then normals and shading.
pub fn run(parity: usize, substeps: usize, iterations: usize) -> (plan: Vec<Launch>)
    requires
        parity < 2,
    ensures
        plan@ == plan_of(parity as int, substeps as int, iterations as int),
{
    let ghost l = passes_per_substep(iterations as int);
    let ghost p = parity as int;
    let ghost all = |n: int| launch_at(p, iterations as int, n);
    let mut plan: Vec<Launch> = Vec::new();
    let (mut src, mut prev): (usize, usize) = (parity, parity);
    let mut s: usize = 0;
    proof {
        assert(0 * l == 0) by (nonlinear_arith);
    }
    while s < substeps
        invariant
            parity < 2,
            p == parity,
            s <= substeps,
            l == passes_per_substep(iterations as int),
            all == (|n: int| launch_at(p, iterations as int, n)),
            src == (p + s) % 2,
            prev == (p + s) % 2,
            plan@.len() == s * l,
            plan@ == Seq::new((s * l) as nat, all),
        decreases substeps - s,
    {
        let ghost base = s * l;
        proof {
            lemma_fundamental_div_mod_converse(base, l, s as int, 0);
        }
        plan.push(Launch::Integrate { from: src, prev });
        assert(plan@ =~= Seq::new((base + 1) as nat, all));
        src = 1 - src;
        prev = 1 - prev;
        let mut it: usize = 0;
        while it < iterations
            invariant
                p == parity,
                it <= iterations,
                l == passes_per_substep(iterations as int),
                base == s * l,
                all == (|n: int| launch_at(p, iterations as int, n)),
                src == (p + s + 1) % 2,
                plan@.len() == base + 1 + 12 * it,
                plan@ == Seq::new((base + 1 + 12 * it) as nat, all),
            decreases iterations - it,
        {
            let mut k: usize = 0;
            while k < 12
                invariant
                    p == parity,
                    it < iterations,
                    k <= 12,
                    l == passes_per_substep(iterations as int),
                    base == s * l,
                    all == (|n: int| launch_at(p, iterations as int, n)),
                    src == (p + s + 1 + k) % 2,
                    plan@.len() == base + 1 + 12 * it + k,
                    plan@ == Seq::new((base + 1 + 12 * it + k) as nat, all),
                decreases 12 - k,
            {
                proof {
                    let o = 1 + 12 * it + k;
                    assert(0 < o < l);
                    lemma_fundamental_div_mod_converse(base + o, l, s as int, o);
                    assert((o - 1) % 12 == k);
                    assert((p + s + o) % 2 == (p + s + 1 + k) % 2);
                }
                plan.push(Launch::Pair { from: src, pass: k });
                assert(plan@ =~= Seq::new((base + 1 + 12 * it + k + 1) as nat, all));
                src = 1 - src;
                k += 1;
            }
            it += 1;
        }
        proof {
            assert((s + 1) * l == base + l) by (nonlinear_arith)
                requires
                    base == s * l,
            ;
        }
        s += 1;
    }
    plan.push(Launch::Normals { from: src });
    plan.push(Launch::Shade { from: src });
    assert(plan@ =~= plan_of(parity as int, substeps as int, iterations as int));
    plan
}

/// Every pass reads what the pass before it wrote, and the last one wrote what
/// the normals are taken of. Every integration reads the previous positions from
/// where the one before it wrote them.
pub proof fn law_passes_chain(parity: int, substeps: int, iterations: int, n: int)
    requires
        0 <= parity < 2,
        substeps >= 1,
        iterations >= 0,
        0 <= n < substeps * passes_per_substep(iterations),
    ensures
        ({
            let from = |l: Launch|
                match l {
                    Launch::Integrate { from, .. } => from as int,
                    Launch::Pair { from, .. } => from as int,
                    Launch::Normals { from } => from as int,
                    Launch::Shade { from } => from as int,
                };
            let plan = plan_of(parity, substeps, iterations);
            let l = passes_per_substep(iterations);
            &&& plan.len() == substeps * l + 2
            &&& from(plan[0]) == parity
            &&& from(plan[n + 1]) == 1 - from(plan[n])
            &&& plan[0] is Integrate && plan[0]->prev == parity
            &&& plan[n] is Integrate <==> n % l == 0
            &&& n % l == 0 && n + l < substeps * l ==> plan[n + l] is Integrate && plan[n + l]->prev
                == 1 - plan[n]->prev
        }),
{
    let l = passes_per_substep(iterations);
    let plan = plan_of(parity, substeps, iterations);
    let (s, o) = (n / l, n % l);
    lemma_fundamental_div_mod(n, l);
    assert(n == s * l + o) by (nonlinear_arith)
        requires
            n == l * s + o,
    ;
    assert(0 <= s < substeps) by (nonlinear_arith)
        requires
            n == s * l + o,
            0 <= n < substeps * l,
            0 <= o < l,
    ;
    assert(0int % l == 0 && 0int / l == 0) by {
        lemma_fundamental_div_mod_converse(0, l, 0, 0);
    }
    if o == 0 && n + l < substeps * l {
        assert(n + l == (s + 1) * l) by (nonlinear_arith)
            requires
                n == s * l,
        ;
        lemma_fundamental_div_mod_converse(n + l, l, s + 1, 0);
    }
    if o + 1 < l {
        lemma_fundamental_div_mod_converse(n + 1, l, s, o + 1);
        assert(s * l + l <= substeps * l) by (nonlinear_arith)
            requires
                s + 1 <= substeps,
                l >= 1,
        ;
    } else {
        assert(n + 1 == (s + 1) * l) by (nonlinear_arith)
            requires
                n == s * l + o,
                o + 1 == l,
        ;
        lemma_fundamental_div_mod_converse(n + 1, l, s + 1, 0);
        if n + 1 == substeps * l {
            assert(s + 1 == substeps) by (nonlinear_arith)
                requires
                    (s + 1) * l == substeps * l,
                    l >= 1,
            ;
        } else {
            assert(n + 1 < substeps * l);
        }
    }
}

/// What the device holds: two buffers of positions and two of previous ones, the
/// normals, and what is shown.
pub struct Device<P, Q> {
    pub pos: (Seq<P>, Seq<P>),
    pub prev: (Seq<P>, Seq<P>),
    pub nrm: Seq<P>,
    pub screen: Seq<Q>,
}

impl<P, Q> Device<P, Q> {
    /// The positions in buffer `i`.
    pub open spec fn pos_in(self, i: int) -> Seq<P> {
        if i == 0 {
            self.pos.0
        } else {
            self.pos.1
        }
    }

    /// The previous positions in buffer `i`.
    pub open spec fn prev_in(self, i: int) -> Seq<P> {
        if i == 0 {
            self.prev.0
        } else {
            self.prev.1
        }
    }

    /// The cloth whose positions are in buffer `i`.
    pub open spec fn pose(self, i: int) -> Pose<P> {
        Pose { pos: self.pos_in(i), prev: self.prev_in(i), nrm: self.nrm }
    }
}

/// The rules that the kernels work by.
pub struct Rules<F, G, H, S> {
    pub motion: F,
    pub link: G,
    pub normal: H,
    pub shade: S,
}

/// Whether a launch may lead from one state of the device to another: its kernel
/// writes what the rules make of what it reads, and nothing else changes.
pub open spec fn is_launched<
    P,
    Q,
    F: Fn(P, P, P) -> P,
    G: Fn(Batch, P, Option<P>, P) -> P,
    H: Fn(P, P, P, P) -> P,
    S: Fn(P, P, bool) -> Q,
>(
    lay: Layout,
    anchor: Seq<P>,
    rules: Rules<F, G, H, S>,
    launch: Launch,
    before: Device<P, Q>,
    after: Device<P, Q>,
) -> bool {
    match launch {
        Launch::Integrate { from, prev } => {
            let (i, j) = (from as int, prev as int);
            &&& is_integrated(
                before.pos_in(i),
                before.prev_in(j),
                before.nrm,
                rules.motion,
                after.pos_in(1 - i),
            )
            &&& after.prev_in(1 - j) == before.pos_in(i)
            &&& after.pos_in(i) == before.pos_in(i)
            &&& after.prev_in(j) == before.prev_in(j)
            &&& after.nrm == before.nrm
            &&& after.screen == before.screen
        },
        Launch::Pair { from, pass } => {
            let i = from as int;
            &&& is_paired(
                lay,
                before.pos_in(i),
                anchor,
                batch_of(pass as int),
                rules.link,
                after.pos_in(1 - i),
            )
            &&& after.pos_in(i) == before.pos_in(i)
            &&& after.prev == before.prev
            &&& after.nrm == before.nrm
            &&& after.screen == before.screen
        },
        Launch::Normals { from } => {
            &&& is_normals(lay, before.pos_in(from as int), rules.normal, after.nrm)
            &&& after.pos == before.pos
            &&& after.prev == before.prev
            &&& after.screen == before.screen
        },
        Launch::Shade { from } => {
            &&& is_shaded(lay, before.pos_in(from as int), before.nrm, rules.shade, after.screen)
            &&& after.pos == before.pos
            &&& after.prev == before.prev
            &&& after.nrm == before.nrm
        },
    }
}

/// Whether `states` are those of the device before, between and after the launches
/// of `plan`.
pub open spec fn is_carried_out<
    P,
    Q,
    F: Fn(P, P, P) -> P,
    G: Fn(Batch, P, Option<P>, P) -> P,
    H: Fn(P, P, P, P) -> P,
    S: Fn(P, P, bool) -> Q,
>(
    lay: Layout,
    anchor: Seq<P>,
    rules: Rules<F, G, H, S>,
    plan: Seq<Launch>,
    states: Seq<Device<P, Q>>,
) -> bool {
    &&& states.len() == plan.len() + 1
    &&& forall|n: int|
        #![trigger plan[n]]
        0 <= n < plan.len() ==> is_launched(lay, anchor, rules, plan[n], states[n], states[n + 1])
}

/// The buffer that pass `n` of a frame reads the positions from.
pub open spec fn buffer_at(parity: int, iterations: int, n: int) -> int {
    let l = passes_per_substep(iterations);
    (parity + n / l + n % l) % 2
}

/// The positions between the passes of a frame on the device, each in the buffer
/// that the next pass reads.
pub open spec fn positions<P, Q>(
    parity: int,
    substeps: int,
    iterations: int,
    states: Seq<Device<P, Q>>,
) -> Seq<Seq<P>> {
    Seq::new(
        (substeps * passes_per_substep(iterations) + 1) as nat,
        |n: int| states[n].pos_in(buffer_at(parity, iterations, n)),
    )
}

/// Pass `n` of a frame in its substep, and the buffers it reads and writes.
proof fn lemma_pass(parity: int, substeps: int, iterations: int, n: int)
    requires
        0 <= parity < 2,
        iterations >= 0,
        0 <= n < substeps * passes_per_substep(iterations),
    ensures
        ({
            let l = passes_per_substep(iterations);
            let (s, o) = (n / l, n % l);
            let plan = plan_of(parity, substeps, iterations);
            &&& 0 <= s < substeps
            &&& 0 <= o < l
            &&& n == s * l + o
            &&& n < plan.len()
            &&& plan[n] == launch_at(parity, iterations, n)
            &&& o == 0 ==> buffer_at(parity, iterations, n) == (parity + s) % 2
            &&& buffer_at(parity, iterations, n + 1) == 1 - buffer_at(parity, iterations, n)
        }),
{
    let l = passes_per_substep(iterations);
    let (s, o) = (n / l, n % l);
    lemma_fundamental_div_mod(n, l);
    assert(n == s * l + o) by (nonlinear_arith)
        requires
            n == l * s + o,
    ;
    assert(0 <= s < substeps) by (nonlinear_arith)
        requires
            n == s * l + o,
            0 <= n < substeps * l,
            0 <= o < l,
    ;
    if o + 1 < l {
        lemma_fundamental_div_mod_converse(n + 1, l, s, o + 1);
    } else {
        assert(n + 1 == (s + 1) * l) by (nonlinear_arith)
            requires
                n == s * l + o,
                o + 1 == l,
        ;
        lemma_fundamental_div_mod_converse(n + 1, l, s + 1, 0);
    }
}

/// No pass touches the normals.
proof fn lemma_normals_kept<
    P,
    Q,
    F: Fn(P, P, P) -> P,
    G: Fn(Batch, P, Option<P>, P) -> P,
    H: Fn(P, P, P, P) -> P,
    S: Fn(P, P, bool) -> Q,
>(
    lay: Layout,
    anchor: Seq<P>,
    rules: Rules<F, G, H, S>,
    parity: int,
    substeps: int,
    iterations: int,
    states: Seq<Device<P, Q>>,
    n: int,
)
    requires
        0 <= parity < 2,
        iterations >= 0,
        is_carried_out(lay, anchor, rules, plan_of(parity, substeps, iterations), states),
        0 <= n <= substeps * passes_per_substep(iterations),
    ensures
        states[n].nrm == states[0].nrm,
    decreases n,
{
    if n > 0 {
        lemma_normals_kept(lay, anchor, rules, parity, substeps, iterations, states, n - 1);
        lemma_pass(parity, substeps, iterations, n - 1);
        let launch = plan_of(parity, substeps, iterations)[n - 1];
        assert(is_launched(lay, anchor, rules, launch, states[n - 1], states[n]));
    }
}

/// After the first pass of substep `s` the previous positions are those that the
/// substep started from, until it ends.
proof fn lemma_prev_kept<
    P,
    Q,
    F: Fn(P, P, P) -> P,
    G: Fn(Batch, P, Option<P>, P) -> P,
    H: Fn(P, P, P, P) -> P,
    S: Fn(P, P, bool) -> Q,
>(
    lay: Layout,
    anchor: Seq<P>,
    rules: Rules<F, G, H, S>,
    parity: int,
    substeps: int,
    iterations: int,
    states: Seq<Device<P, Q>>,
    s: int,
    o: int,
)
    requires
        0 <= parity < 2,
        iterations >= 0,
        is_carried_out(lay, anchor, rules, plan_of(parity, substeps, iterations), states),
        0 <= s < substeps,
        1 <= o <= passes_per_substep(iterations),
    ensures
        ({
            let base = s * passes_per_substep(iterations);
            states[base + o].prev_in((parity + s + 1) % 2) == states[base].pos_in((parity + s) % 2)
        }),
    decreases o,
{
    let l = passes_per_substep(iterations);
    let base = s * l;
    let n = base + o - 1;
    assert(0 <= base && base + l <= substeps * l) by (nonlinear_arith)
        requires
            base == s * l,
            0 <= s,
            s + 1 <= substeps,
            l >= 1,
    ;
    lemma_fundamental_div_mod_converse(n, l, s, o - 1);
    lemma_pass(parity, substeps, iterations, n);
    let launch = plan_of(parity, substeps, iterations)[n];
    assert(is_launched(lay, anchor, rules, launch, states[n], states[n + 1]));
    if o > 1 {
        lemma_prev_kept(lay, anchor, rules, parity, substeps, iterations, states, s, o - 1);
    }
}

/// Whether pass `n` leads from `trace[n]` to `trace[n + 1]`.
spec fn is_pass<P, F: Fn(P, P, P) -> P, G: Fn(Batch, P, Option<P>, P) -> P>(
    lay: Layout,
    trace: Seq<Seq<P>>,
    prev: Seq<P>,
    nrm: Seq<P>,
    anchor: Seq<P>,
    iterations: int,
    motion: F,
    link: G,
    n: int,
) -> bool {
    let l = passes_per_substep(iterations);
    if n % l == 0 {
        is_integrated(
            trace[n],
            if n == 0 {
                prev
            } else {
                trace[n - l]
            },
            nrm,
            motion,
            trace[n + 1],
        )
    } else {
        is_paired(lay, trace[n], anchor, batch_of((n % l - 1) % 12), link, trace[n + 1])
    }
}

/// Launch `n` is a pass of the positions on the device.
proof fn lemma_launch_is_pass<
    P,
    Q,
    F: Fn(P, P, P) -> P,
    G: Fn(Batch, P, Option<P>, P) -> P,
    H: Fn(P, P, P, P) -> P,
    S: Fn(P, P, bool) -> Q,
>(
    lay: Layout,
    anchor: Seq<P>,
    rules: Rules<F, G, H, S>,
    parity: int,
    substeps: int,
    iterations: int,
    states: Seq<Device<P, Q>>,
    n: int,
)
    requires
        0 <= parity < 2,
        iterations >= 0,
        is_carried_out(lay, anchor, rules, plan_of(parity, substeps, iterations), states),
        0 <= n < substeps * passes_per_substep(iterations),
    ensures
        is_pass(
            lay,
            positions(parity, substeps, iterations, states),
            states[0].prev_in(parity),
            states[0].nrm,
            anchor,
            iterations,
            rules.motion,
            rules.link,
            n,
        ),
{
    let l = passes_per_substep(iterations);
    let plan = plan_of(parity, substeps, iterations);
    let trace = positions(parity, substeps, iterations, states);
    lemma_pass(parity, substeps, iterations, n);
    lemma_normals_kept(lay, anchor, rules, parity, substeps, iterations, states, n);
    assert(is_launched(lay, anchor, rules, plan[n], states[n], states[n + 1]));
    let (s, o) = (n / l, n % l);
    let i = buffer_at(parity, iterations, n);
    assert(trace[n] == states[n].pos_in(i));
    assert(trace[n + 1] == states[n + 1].pos_in(1 - i));
    if o == 0 {
        assert(states[n].prev_in(i) == if n == 0 {
            states[0].prev_in(parity)
        } else {
            trace[n - l]
        }) by {
            if n == 0 {
                lemma_fundamental_div_mod_converse(0, l, 0, 0);
            } else {
                assert(s >= 1) by (nonlinear_arith)
                    requires
                        n == s * l,
                        n > 0,
                        l >= 1,
                ;
                assert(n - l == (s - 1) * l) by (nonlinear_arith)
                    requires
                        n == s * l,
                ;
                assert(0 <= n - l) by (nonlinear_arith)
                    requires
                        n - l == (s - 1) * l,
                        s >= 1,
                        l >= 1,
                ;
                lemma_prev_kept(lay, anchor, rules, parity, substeps, iterations, states, s - 1, l);
                lemma_fundamental_div_mod_converse(n - l, l, s - 1, 0);
            }
        }
    }
}

/// The positions on the device are a trace.
proof fn lemma_positions<
    P,
    Q,
    F: Fn(P, P, P) -> P,
    G: Fn(Batch, P, Option<P>, P) -> P,
    H: Fn(P, P, P, P) -> P,
    S: Fn(P, P, bool) -> Q,
>(
    lay: Layout,
    anchor: Seq<P>,
    rules: Rules<F, G, H, S>,
    parity: int,
    substeps: int,
    iterations: int,
    states: Seq<Device<P, Q>>,
)
    requires
        0 <= parity < 2,
        substeps >= 0,
        iterations >= 0,
        is_carried_out(lay, anchor, rules, plan_of(parity, substeps, iterations), states),
    ensures
        is_trace(
            lay,
            positions(parity, substeps, iterations, states),
            states[0].prev_in(parity),
            states[0].nrm,
            anchor,
            iterations,
            rules.motion,
            rules.link,
        ),
{
    let l = passes_per_substep(iterations);
    let trace = positions(parity, substeps, iterations, states);
    let (prev, nrm) = (states[0].prev_in(parity), states[0].nrm);
    assert(0 <= substeps * l) by (nonlinear_arith)
        requires
            substeps >= 0,
            l >= 1,
    ;
    reveal(is_trace);
    assert forall|m: int|
        #![trigger trace[m]]
        0 < m < trace.len() implies if (m - 1) % l == 0 {
        is_integrated(
            trace[m - 1],
            if m == 1 {
                prev
            } else {
                trace[m - 1 - l]
            },
            nrm,
            rules.motion,
            trace[m],
        )
    } else {
        is_paired(lay, trace[m - 1], anchor, batch_of(((m - 1) % l - 1) % 12), rules.link, trace[m])
    } by {
        lemma_launch_is_pass(lay, anchor, rules, parity, substeps, iterations, states, m - 1);
    }
}

/// The device runs the same operations in the same order as a cloth on its own:
/// launch `n` of the plan is step `n + 1` of a trace, and from the buffers that a
/// frame starts in, the plan leads to a pose that a frame may lead to, in the
/// buffers that it ends in, which is then shown.
pub proof fn law_plan_is_frame<
    P,
    Q,
    F: Fn(P, P, P) -> P,
    G: Fn(Batch, P, Option<P>, P) -> P,
    H: Fn(P, P, P, P) -> P,
    S: Fn(P, P, bool) -> Q,
>(
    lay: Layout,
    anchor: Seq<P>,
    rules: Rules<F, G, H, S>,
    parity: int,
    substeps: int,
    iterations: int,
    states: Seq<Device<P, Q>>,
)
    requires
        0 <= parity < 2,
        substeps >= 0,
        iterations >= 0,
        is_carried_out(lay, anchor, rules, plan_of(parity, substeps, iterations), states),
    ensures
        is_trace(
            lay,
            positions(parity, substeps, iterations, states),
            states[0].prev_in(parity),
            states[0].nrm,
            anchor,
            iterations,
            rules.motion,
            rules.link,
        ),
        is_frame(
            lay,
            states[0].pose(parity),
            anchor,
            substeps,
            iterations,
            rules.motion,
            rules.link,
            rules.normal,
            states.last().pose((parity + substeps) % 2),
        ),
        is_shaded(
            lay,
            states.last().pos_in((parity + substeps) % 2),
            states.last().nrm,
            rules.shade,
            states.last().screen,
        ),
{
    let l = passes_per_substep(iterations);
    let plan = plan_of(parity, substeps, iterations);
    let trace = positions(parity, substeps, iterations, states);
    let (first, last) = (states[0], states.last());
    let total = substeps * l;
    assert(0 <= total) by (nonlinear_arith)
        requires
            total == substeps * l,
            substeps >= 0,
            l >= 1,
    ;
    lemma_fundamental_div_mod_converse(0, l, 0, 0);
    lemma_fundamental_div_mod_converse(total, l, substeps, 0);
    assert(is_trace(
        lay,
        trace,
        first.prev_in(parity),
        first.nrm,
        anchor,
        iterations,
        rules.motion,
        rules.link,
    )) by {
        lemma_positions(lay, anchor, rules, parity, substeps, iterations, states);
    }
    let end = (parity + substeps) % 2;
    lemma_normals_kept(lay, anchor, rules, parity, substeps, iterations, states, total);
    assert(plan[total] == Launch::Normals { from: end as usize });
    assert(plan[total + 1] == Launch::Shade { from: end as usize });
    assert(is_launched(lay, anchor, rules, plan[total], states[total], states[total + 1]));
    assert(is_launched(lay, anchor, rules, plan[total + 1], states[total + 1], states[total + 2]));
    assert(last == states[total + 2]);
    assert(trace[0] == first.pos_in(parity));
    assert(trace[total] == last.pos_in(end));
    if substeps > 0 {
        let s = substeps - 1;
        assert(s * l + l == total) by (nonlinear_arith)
            requires
                s == substeps - 1,
                total == substeps * l,
        ;
        assert(0 <= s * l) by (nonlinear_arith)
            requires
                s >= 0,
                l >= 1,
        ;
        lemma_prev_kept(lay, anchor, rules, parity, substeps, iterations, states, s, l);
        lemma_fundamental_div_mod_converse(s * l, l, s, 0);
        assert(last.prev_in(end) == trace[s * l]);
    } else {
        assert(0 * l == 0) by (nonlinear_arith);
        assert(last.prev_in(end) == first.prev_in(parity));
    }
    let (before, after) = (first.pose(parity), last.pose(end));
    assert(is_normals(lay, after.pos, rules.normal, after.nrm));
    assert(trace.len() == substeps * l + 1);
    assert(is_trace(
        lay,
        trace,
        before.prev,
        before.nrm,
        anchor,
        iterations,
        rules.motion,
        rules.link,
    ));
}

/// The pass table: the entries of the twelve batches, one after the other.
pub fn pass_table() -> (table: Vec<i32>)
    ensures
        table@.len() == 48,
        forall|i: int|
            0 <= i < 12 ==> {
                let b = #[trigger] batch_of(i);
                &&& table@[4 * i] == b.b
                &&& table@[4 * i + 1] == b.kind
                &&& table@[4 * i + 2] == b.lg
                &&& table@[4 * i + 3] == b.k
            },
{
    let batches = Batch::iteration();
    let mut table: Vec<i32> = Vec::new();
    let mut i: usize = 0;
    while i < 12
        invariant
            i <= 12,
            forall|j: int| 0 <= j < 12 ==> #[trigger] batches@[j] == batch_of(j),
            table@.len() == 4 * i,
            forall|j: int|
                0 <= j < i ==> {
                    let b = #[trigger] batch_of(j);
                    &&& table@[4 * j] == b.b
                    &&& table@[4 * j + 1] == b.kind
                    &&& table@[4 * j + 2] == b.lg
                    &&& table@[4 * j + 3] == b.k
                },
        decreases 12 - i,
    {
        let e: [i32; 4] = batches[i].entry();
        assert(batches@[i as int] == batch_of(i as int));
        table.push(e[0]);
        table.push(e[1]);
        table.push(e[2]);
        table.push(e[3]);
        i += 1;
    }
    table
}

} // verus!
