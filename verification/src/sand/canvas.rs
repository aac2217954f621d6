//! Painting: random shades, brushes, and the scenes to start from.
use crate::brush::{in_disc, law_disc_is_round, Stamp};
use crate::grid::{at, lemma_at, lemma_cell_of};
use crate::random::{advance, draw31, high31, law_draws_are_high_bits, next_state};
use crate::sand::cpu::{paint, painted};
use crate::sand::laws::is_walled;
use crate::sand::world::{
    cell, cell_of, is_cell, is_element, kind_of, Layout, DIR, EMPTY, OIL, PAINT, SAND, TILE, WALL,
    WATER, WOOD,
};
use vstd::prelude::*;

verus! {

/// Sides up to this length have coordinates that a brush can be centered on
/// exactly.
pub const MAX_WORLD: usize = 0x100_0000;

/// Tiny deterministic generator for shades and scenes.
#[derive(Clone)]
pub struct Rng(pub u64);

/// The cell of element `kind` that generator state `x` stands for: its shade
/// and direction are bits of the number drawn.
pub open spec fn shaded(x: u64, kind: i32) -> i32 {
    cell_of(kind, high31(x) as i32 & 15) | (high31(x) as i32 & DIR)
}

impl Rng {
    /// The next number, 31 bits of it.
    pub fn next(&mut self) -> (v: u32)
        ensures
            final(self).0 == next_state(old(self).0),
            v == high31(final(self).0),
            v < 0x8000_0000,
    {
        self.0 = advance(self.0);
        draw31(self.0)
    }

    /// A cell of `kind` with a random shade and direction.
    pub fn cell(&mut self, kind: i32) -> (v: i32)
        ensures
            final(self).0 == next_state(old(self).0),
            v == shaded(final(self).0, kind),
    {
        let bits: i32 = self.next() as i32;
        cell(kind, bits & 15) | (bits & DIR)
    }
}

/// A random cell is a cell of its element. Its shade are the four lowest bits of the number
/// drawn, and its direction is bit 12.
pub proof fn law_shaded(x: u64, kind: i32)
    requires
        is_element(kind),
    ensures
        is_cell(shaded(x, kind)),
        kind_of(shaded(x, kind)) == kind,
        (PAINT | shaded(x, kind)) & PAINT != 0,
        (PAINT | shaded(x, kind)) & !PAINT == shaded(x, kind),
        shaded(x, kind) == kind + 256 * (high31(x) as int % 16) + 4096 * (high31(x) as int / 4096
            % 2),
{
    law_draws_are_high_bits(x);
    let bits = high31(x) as i32;
    assert(0 <= kind <= 8 && 0 <= bits ==> {
        let v = (kind | (((bits & 15) & 15) << 8)) | (bits & 4096);
        &&& 0 <= v < 8192
        &&& v & 255 == kind
        &&& (1048576 | v) & 1048576 != 0
        &&& (1048576 | v) & !1048576i32 == v
        &&& v == kind + 256 * (bits % 16) + 4096 * (bits / 4096 % 2)
    }) by (bit_vector);
}

/// Whether world cell `(x, y)` exists.
pub open spec fn in_world(lay: Layout, x: int, y: int) -> bool {
    &&& 0 <= x < lay.cols
    &&& 0 <= y < lay.rows
}

/// Buffer position of world cell `(x, y)`.
pub open spec fn spot(lay: Layout, x: int, y: int) -> int {
    at(y + TILE, x + TILE, lay.width())
}

/// `cells` with world cell `(x, y)` set, if there is one.
pub open spec fn put(lay: Layout, cells: Seq<i32>, x: int, y: int, value: i32) -> Seq<i32> {
    if in_world(lay, x, y) {
        cells.update(spot(lay, x, y), value)
    } else {
        cells
    }
}

/// Cells and generator state after the first `n` cells of a rectangle `w` wide
/// at `(x0, y0)`, row by row: every marked one draws a random cell of `kind`
/// and is painted with it.
pub open spec fn scanned(
    lay: Layout,
    start: (Seq<i32>, u64),
    marked: spec_fn(int, int) -> bool,
    x0: int,
    y0: int,
    w: int,
    kind: i32,
    n: nat,
) -> (Seq<i32>, u64)
    decreases n,
{
    if n == 0 {
        start
    } else {
        let i = n - 1;
        let (cells, state) = scanned(lay, start, marked, x0, y0, w, kind, i as nat);
        let (x, y) = (x0 + i % w, y0 + i / w);
        if marked(x, y) {
            let state = next_state(state);
            (put(lay, cells, x, y, PAINT | shaded(state, kind)), state)
        } else {
            (cells, state)
        }
    }
}

/// What a brush leaves: its whole square scanned, the cells it covers marked.
pub open spec fn dabbed(lay: Layout, start: (Seq<i32>, u64), stamp: Stamp, kind: i32) -> (
    Seq<i32>,
    u64,
) {
    scanned(
        lay,
        start,
        |x: int, y: int| stamp.covers(x, y),
        stamp.x0 - stamp.r,
        stamp.y0 - stamp.r,
        stamp.side(),
        kind,
        (stamp.side() * stamp.side()) as nat,
    )
}

/// What a disc centered on a cell leaves.
pub open spec fn dotted(
    lay: Layout,
    start: (Seq<i32>, u64),
    x0: int,
    y0: int,
    r: int,
    kind: i32,
) -> (Seq<i32>, u64) {
    scanned(
        lay,
        start,
        |x: int, y: int| in_disc(x - x0, y - y0, r),
        x0 - r,
        y0 - r,
        2 * r + 1,
        kind,
        ((2 * r + 1) * (2 * r + 1)) as nat,
    )
}

/// Cells of a rectangle, its far sides excluded.
pub open spec fn area(x0: int, y0: int, x1: int, y1: int) -> nat {
    if x0 < x1 && y0 < y1 {
        ((y1 - y0) * (x1 - x0)) as nat
    } else {
        0
    }
}

/// What a rectangle leaves: every cell of it painted.
pub open spec fn boxed(
    lay: Layout,
    start: (Seq<i32>, u64),
    x0: int,
    y0: int,
    x1: int,
    y1: int,
    kind: i32,
) -> (Seq<i32>, u64) {
    scanned(lay, start, |x: int, y: int| true, x0, y0, x1 - x0, kind, area(x0, y0, x1, y1))
}

/// Scanning marks that agree comes to the same.
proof fn lemma_scanned_same(
    lay: Layout,
    start: (Seq<i32>, u64),
    marked: spec_fn(int, int) -> bool,
    same: spec_fn(int, int) -> bool,
    x0: int,
    y0: int,
    w: int,
    kind: i32,
    n: nat,
)
    requires
        forall|x: int, y: int| #[trigger] marked(x, y) <==> same(x, y),
    ensures
        scanned(lay, start, marked, x0, y0, w, kind, n) == scanned(
            lay,
            start,
            same,
            x0,
            y0,
            w,
            kind,
            n,
        ),
    decreases n,
{
    if n > 0 {
        lemma_scanned_same(lay, start, marked, same, x0, y0, w, kind, (n - 1) as nat);
        let i = n - 1;
        assert(marked(x0 + i % w, y0 + i / w) <==> same(x0 + i % w, y0 + i / w));
    }
}

/// Either a whole world or a frame's worth of paint (`PAINT | cell` where the
/// brush touched, 0 elsewhere).
#[derive(Clone)]
pub struct Canvas {
    pub layout: Layout,
    pub cells: Vec<i32>,
    pub rng: Rng,
}

impl View for Canvas {
    type V = (Layout, (Seq<i32>, u64));

    /// The layout, and what painting changes.
    open spec fn view(&self) -> (Layout, (Seq<i32>, u64)) {
        (self.layout, self.state())
    }
}

impl Canvas {
    /// Whether the cells are a whole buffer.
    pub open spec fn wf(self) -> bool {
        &&& self.layout.fits()
        &&& self.cells@.len() == self.layout.size()
    }

    /// What painting changes: the cells and the generator state.
    pub open spec fn state(self) -> (Seq<i32>, u64) {
        (self.cells@, self.rng.0)
    }

    /// Nothing painted yet.
    pub fn blank(layout: Layout) -> (c: Canvas)
        requires
            layout.fits(),
        ensures
            c.wf(),
            c@ == (layout, blank_state(layout, 0x9E37_79B9_7F4A_7C15)),
    {
        proof {
            layout.lemma_fits();
        }
        let n: usize = layout.buf_rows() * layout.buf_cols();
        let cells: Vec<i32> = vec![0;n];
        assert(cells@ =~= Seq::new(layout.size() as nat, |i: int| 0i32));
        Canvas { layout, cells, rng: Rng(0x9E37_79B9_7F4A_7C15) }
    }

    /// Forget everything painted; shades go on from where they were.
    pub fn clear(&mut self)
        ensures
            final(self).layout == old(self).layout,
            final(self).rng == old(self).rng,
            final(self).cells@ == Seq::new(old(self).cells@.len(), |i: int| 0i32),
    {
        let n: usize = self.cells.len();
        self.cells = vec![0;n];
        assert(self.cells@ =~= Seq::new(n as nat, |i: int| 0i32));
    }

    /// Whether nothing is painted.
    pub fn is_empty(&self) -> (b: bool)
        ensures
            b == forall|i: int| 0 <= i < self.cells@.len() ==> #[trigger] self.cells@[i] == 0,
    {
        let mut i: usize = 0;
        while i < self.cells.len()
            invariant
                i <= self.cells@.len(),
                forall|j: int| 0 <= j < i ==> #[trigger] self.cells@[j] == 0,
            decreases self.cells.len() - i,
        {
            if self.cells[i] != 0 {
                return false;
            }
            i += 1;
        }
        true
    }

    /// Set a world cell (the ghost ring is not paintable).
    fn set(&mut self, x: i32, y: i32, value: i32)
        requires
            old(self).wf(),
        ensures
            final(self).wf(),
            final(self).layout == old(self).layout,
            final(self).rng == old(self).rng,
            final(self).cells@ == put(old(self).layout, old(self).cells@, x as int, y as int, value),
    {
        let lay: Layout = self.layout;
        proof {
            lay.lemma_fits();
        }
        if x >= 0 && y >= 0 && (x as usize) < lay.cols && (y as usize) < lay.rows {
            proof {
                lemma_at(y + TILE, x + TILE, lay.height(), lay.width());
            }
            let i: usize = lay.index(x as usize, y as usize);
            self.cells[i] = value;
        }
    }

    /// Paint the cells under a brush with `kind`, each with its own random
    /// shade.
    pub fn disc(&mut self, stamp: &Stamp, kind: i32)
        requires
            old(self).wf(),
            stamp.wf(),
        ensures
            final(self).wf(),
            final(self)@ == (old(self).layout, dabbed(old(self).layout, old(self)@.1, *stamp, kind)),
    {
        let ghost lay = self.layout;
        let ghost start = self.state();
        let ghost marked = |x: int, y: int| stamp.covers(x, y);
        let ghost w = stamp.side();
        let (x0, y0): (i32, i32) = (stamp.x0 - stamp.r, stamp.y0 - stamp.r);
        let (x1, y1): (i32, i32) = (stamp.x0 + stamp.r, stamp.y0 + stamp.r);
        let mut y: i64 = y0 as i64;
        let ghost mut n: nat = 0;
        proof {
            assert(0 * w == 0) by (nonlinear_arith);
        }
        while y <= y1 as i64
            invariant
                self.wf(),
                self.layout == lay,
                stamp.wf(),
                w == stamp.side(),
                x0 == stamp.x0 - stamp.r,
                x1 == stamp.x0 + stamp.r,
                y0 == stamp.y0 - stamp.r,
                y1 == stamp.y0 + stamp.r,
                y0 <= y <= y1 + 1,
                marked == (|x: int, y: int| stamp.covers(x, y)),
                n == (y - y0) * w,
                self.state() == scanned(lay, start, marked, x0 as int, y0 as int, w, kind, n),
            decreases y1 + 1 - y,
        {
            let mut x: i64 = x0 as i64;
            while x <= x1 as i64
                invariant
                    self.wf(),
                    self.layout == lay,
                    stamp.wf(),
                    w == stamp.side(),
                    x0 == stamp.x0 - stamp.r,
                    x1 == stamp.x0 + stamp.r,
                    y0 == stamp.y0 - stamp.r,
                    y1 == stamp.y0 + stamp.r,
                    y0 <= y <= y1,
                    x0 <= x <= x1 + 1,
                    marked == (|x: int, y: int| stamp.covers(x, y)),
                    n == (y - y0) * w + (x - x0),
                    self.state() == scanned(lay, start, marked, x0 as int, y0 as int, w, kind, n),
                decreases x1 + 1 - x,
            {
                proof {
                    lemma_at(y - y0, x - x0, y - y0 + 1, w);
                    n = n + 1;
                }
                if stamp.is_marked(x as i32, y as i32) {
                    let v: i32 = self.rng.cell(kind);
                    self.set(x as i32, y as i32, PAINT | v);
                }
                x += 1;
            }
            assert((y - y0) * w + w == (y - y0 + 1) * w) by (nonlinear_arith);
            y += 1;
        }
    }

    /// Paint the cells of a rectangle, its far sides excluded.
    pub fn rect(&mut self, x0: i32, y0: i32, x1: i32, y1: i32, kind: i32)
        requires
            old(self).wf(),
        ensures
            final(self).wf(),
            final(self)@ == (
                old(self).layout,
                boxed(
                    old(self).layout,
                    old(self)@.1,
                    x0 as int,
                    y0 as int,
                    x1 as int,
                    y1 as int,
                    kind,
                ),
            ),
    {
        let ghost lay = self.layout;
        let ghost start = self.state();
        let ghost marked = |x: int, y: int| true;
        let ghost w = x1 - x0;
        if x0 >= x1 || y0 >= y1 {
            return;
        }
        let mut y: i32 = y0;
        let ghost mut n: nat = 0;
        proof {
            assert(0 * w == 0) by (nonlinear_arith);
        }
        while y < y1
            invariant
                self.wf(),
                self.layout == lay,
                w == x1 - x0,
                x0 < x1,
                y0 <= y <= y1,
                marked == (|x: int, y: int| true),
                n == (y - y0) * w,
                self.state() == scanned(lay, start, marked, x0 as int, y0 as int, w, kind, n),
            decreases y1 - y,
        {
            let mut x: i32 = x0;
            while x < x1
                invariant
                    self.wf(),
                    self.layout == lay,
                    w == x1 - x0,
                    y0 <= y < y1,
                    x0 <= x <= x1,
                    marked == (|x: int, y: int| true),
                    n == (y - y0) * w + (x - x0),
                    self.state() == scanned(lay, start, marked, x0 as int, y0 as int, w, kind, n),
                decreases x1 - x,
            {
                proof {
                    lemma_at(y - y0, x - x0, y - y0 + 1, w);
                    n = n + 1;
                }
                let v: i32 = self.rng.cell(kind);
                self.set(x, y, PAINT | v);
                x += 1;
            }
            assert((y - y0) * w + w == (y - y0 + 1) * w) by (nonlinear_arith);
            y += 1;
        }
    }

    /// A brush stroke: one dab after the other.
    pub fn stroke(&mut self, stamps: &Vec<Stamp>, kind: i32)
        requires
            old(self).wf(),
            forall|i: int| 0 <= i < stamps@.len() ==> (#[trigger] stamps@[i]).wf(),
        ensures
            final(self).wf(),
            final(self)@ == (old(self).layout, stroked(old(self).layout, old(self)@.1, stamps@, kind)),
    {
        let ghost lay = self.layout;
        let ghost start = self.state();
        let mut i: usize = 0;
        assert(stamps@.take(0) =~= seq![]);
        while i < stamps.len()
            invariant
                self.wf(),
                self.layout == lay,
                forall|i: int| 0 <= i < stamps@.len() ==> (#[trigger] stamps@[i]).wf(),
                i <= stamps@.len(),
                self.state() == stroked(lay, start, stamps@.take(i as int), kind),
            decreases stamps.len() - i,
        {
            assert(stamps@.take(i + 1).drop_last() =~= stamps@.take(i as int));
            self.disc(&stamps[i], kind);
            i += 1;
        }
        assert(stamps@.take(i as int) =~= stamps@);
    }

    /// A disc centered on a cell.
    fn dot(&mut self, x: i32, y: i32, r: i32, kind: i32)
        requires
            old(self).wf(),
            -64 <= x <= MAX_WORLD,
            -64 <= y <= MAX_WORLD,
            0 <= r <= 32,
        ensures
            final(self).wf(),
            final(self)@ == (
                old(self).layout,
                dotted(
                    old(self).layout,
                    old(self)@.1,
                    x as int,
                    y as int,
                    r as int,
                    kind,
                ),
            ),
    {
        assert((2 * r + 1) * (2 * r + 1) <= 65 * 65) by (nonlinear_arith)
            requires
                0 <= r <= 32,
        ;
        let s = Stamp::round(x, y, r);
        proof {
            lemma_scanned_same(
                self.layout,
                self.state(),
                |a: int, b: int| s.covers(a, b),
                |a: int, b: int| in_disc(a - x, b - y, r as int),
                x - r,
                y - r,
                2 * r + 1,
                kind,
                ((2 * r + 1) * (2 * r + 1)) as nat,
            );
        }
        self.disc(&s, kind);
    }

    /// Paint values as plain cells (the `PAINT` flag stripped) over an empty
    /// world, to build a whole world from.
    pub fn into_world(self) -> (world: Vec<i32>)
        requires
            self.wf(),
        ensures
            world@ == painted(self.layout.blank_world(), self.cells@),
    {
        let base = self.layout.empty_buffer();
        paint(&base, &self.cells)
    }

    /// Shelves, a wooden hut, a pool, a dune and a slick of oil.
    pub fn demo(layout: Layout) -> (c: Canvas)
        requires
            layout.fits(),
            layout.rows <= MAX_WORLD,
            layout.cols <= MAX_WORLD,
            layout.rows % 2 == 0,
            layout.cols % 4 == 0,
        ensures
            c.wf(),
            c@ == (layout, demo_state(layout)),
    {
        let mut c = Canvas::blank(layout);
        let (w, h): (i32, i32) = (layout.cols as i32, layout.rows as i32);
        // Shelves.
        c.rect(w / 8, h * 3 / 8, w * 3 / 8, h * 3 / 8 + 4, WALL);
        c.rect(w * 5 / 8, h / 2, w * 7 / 8, h / 2 + 4, WALL);
        // A wooden hut on the floor.
        let (hx, hy): (i32, i32) = (w * 5 / 8, h - 1);
        c.rect(hx, hy - 40, hx + 4, hy, WOOD);
        c.rect(hx + 60, hy - 40, hx + 64, hy, WOOD);
        c.rect(hx - 4, hy - 44, hx + 68, hy - 40, WOOD);
        // A pool on the left shelf, a dune on the right, oil on the floor.
        c.rect(w / 8 + 4, h * 3 / 8 - 24, w * 3 / 8 - 4, h * 3 / 8, WATER);
        c.dot(w / 4 * 3, h / 2 - 20, 22, SAND);
        c.rect(w / 16, h - 12, w * 5 / 16, h, OIL);
        c
    }

    /// Random blobs of every element, to check against.
    pub fn random(layout: Layout, seed: u64) -> (c: Canvas)
        requires
            layout.fits(),
            0 < layout.rows <= MAX_WORLD,
            0 < layout.cols <= MAX_WORLD,
        ensures
            c.wf(),
            c@ == (layout, random_state(layout, seed, 120)),
    {
        let mut c = Canvas::blank(layout);
        c.rng = Rng(seed | 1);
        let (w, h): (u32, u32) = (layout.cols as u32, layout.rows as u32);
        let mut i: i32 = 0;
        while i < 120
            invariant
                0 <= i <= 120,
                w == layout.cols,
                h == layout.rows,
                0 < layout.rows <= MAX_WORLD,
                0 < layout.cols <= MAX_WORLD,
                c.wf(),
                c.layout == layout,
                c.state() == random_state(layout, seed, i as nat),
            decreases 120 - i,
        {
            let kind: i32 = 1 + i % 8;
            let (x, y): (u32, u32) = (c.rng.next() % w, c.rng.next() % h);
            let r: i32 = 2 + (c.rng.next() % 14) as i32;
            c.dot(x as i32, y as i32, r, kind);
            i += 1;
        }
        c
    }
}

/// Nothing painted, and generator state `rng`.
pub open spec fn blank_state(lay: Layout, rng: u64) -> (Seq<i32>, u64) {
    (Seq::new(lay.size() as nat, |i: int| 0i32), rng)
}

/// What a brush stroke leaves.
pub open spec fn stroked(lay: Layout, start: (Seq<i32>, u64), stamps: Seq<Stamp>, kind: i32) -> (
    Seq<i32>,
    u64,
)
    decreases stamps.len(),
{
    if stamps.len() == 0 {
        start
    } else {
        dabbed(lay, stroked(lay, start, stamps.drop_last(), kind), stamps.last(), kind)
    }
}

/// The demo scene.
pub open spec fn demo_state(lay: Layout) -> (Seq<i32>, u64) {
    let (w, h) = (lay.cols as int, lay.rows as int);
    let s = blank_state(lay, 0x9E37_79B9_7F4A_7C15);
    let s = boxed(lay, s, w / 8, h * 3 / 8, w * 3 / 8, h * 3 / 8 + 4, WALL);
    let s = boxed(lay, s, w * 5 / 8, h / 2, w * 7 / 8, h / 2 + 4, WALL);
    let (hx, hy) = (w * 5 / 8, h - 1);
    let s = boxed(lay, s, hx, hy - 40, hx + 4, hy, WOOD);
    let s = boxed(lay, s, hx + 60, hy - 40, hx + 64, hy, WOOD);
    let s = boxed(lay, s, hx - 4, hy - 44, hx + 68, hy - 40, WOOD);
    let s = boxed(lay, s, w / 8 + 4, h * 3 / 8 - 24, w * 3 / 8 - 4, h * 3 / 8, WATER);
    let s = dotted(lay, s, w * 3 / 4, h / 2 - 20, 22, SAND);
    boxed(lay, s, w / 16, h - 12, w * 5 / 16, h, OIL)
}

/// The first `n` blobs of a random scene. A blob draws its center and its
/// radius, and then the shades of its cells.
pub open spec fn random_state(lay: Layout, seed: u64, n: nat) -> (Seq<i32>, u64)
    decreases n,
{
    if n == 0 {
        blank_state(lay, seed | 1)
    } else {
        let i = n - 1;
        let (cells, s0) = random_state(lay, seed, i as nat);
        let s1 = next_state(s0);
        let s2 = next_state(s1);
        let s3 = next_state(s2);
        dotted(
            lay,
            (cells, s3),
            high31(s1) as int % lay.cols as int,
            high31(s2) as int % lay.rows as int,
            2 + high31(s3) as int % 14,
            (1 + i % 8) as i32,
        )
    }
}

/// Whether a value is paint: a flagged cell, or nothing.
pub open spec fn is_paint(v: i32) -> bool {
    v == 0 || (v & PAINT != 0 && is_cell(v & !PAINT))
}

/// Whether a buffer is a layer of paint over the world, the ghost ring bare.
pub open spec fn is_layer(lay: Layout, cells: Seq<i32>) -> bool {
    &&& cells.len() == lay.size()
    &&& forall|i: int| 0 <= i < cells.len() ==> is_paint(#[trigger] cells[i])
    &&& forall|i: int|
        0 <= i < cells.len() && !lay.inside(i / lay.width(), i % lay.width())
            ==> #[trigger] cells[i] == 0
}

/// Painting an element keeps a layer a layer, and every marked cell of the
/// world that was scanned is of that element while all others are untouched.
pub proof fn law_scanned(
    lay: Layout,
    start: (Seq<i32>, u64),
    marked: spec_fn(int, int) -> bool,
    x0: int,
    y0: int,
    w: int,
    kind: i32,
    n: nat,
)
    requires
        is_layer(lay, start.0),
        is_element(kind),
        w > 0,
    ensures
        is_layer(lay, scanned(lay, start, marked, x0, y0, w, kind, n).0),
        forall|x: int, y: int|
            in_world(lay, x, y) ==> {
                let before = start.0[#[trigger] spot(lay, x, y)];
                let after = scanned(lay, start, marked, x0, y0, w, kind, n).0[spot(lay, x, y)];
                if marked(x, y) && x0 <= x < x0 + w && y0 <= y && at(y - y0, x - x0, w) < n {
                    after & PAINT != 0 && kind_of(after & !PAINT) == kind
                } else {
                    after == before
                }
            },
    decreases n,
{
    if n > 0 {
        let m = (n - 1) as nat;
        law_scanned(lay, start, marked, x0, y0, w, kind, m);
        let (cells, state) = scanned(lay, start, marked, x0, y0, w, kind, m);
        let (x, y) = (x0 + m as int % w, y0 + m as int / w);
        lemma_cell_of(m as int, w);
        law_shaded(next_state(state), kind);
        if in_world(lay, x, y) {
            lemma_at(y + TILE, x + TILE, lay.height(), lay.width());
        }
        assert forall|a: int, b: int| in_world(lay, a, b) implies {
            let before = start.0[#[trigger] spot(lay, a, b)];
            let after = scanned(lay, start, marked, x0, y0, w, kind, n).0[spot(lay, a, b)];
            if marked(a, b) && x0 <= a < x0 + w && y0 <= b && at(b - y0, a - x0, w) < n {
                after & PAINT != 0 && kind_of(after & !PAINT) == kind
            } else {
                after == before
            }
        } by {
            lemma_at(b + TILE, a + TILE, lay.height(), lay.width());
            if x0 <= a < x0 + w && y0 <= b {
                lemma_at(b - y0, a - x0, b - y0 + 1, w);
            }
        }
    }
}

/// A layer of paint over an empty world is a world of cells with walls all
/// around it.
pub proof fn law_layer_is_world(lay: Layout, cells: Seq<i32>)
    requires
        is_layer(lay, cells),
    ensures
        is_walled(lay, painted(lay.blank_world(), cells)),
        forall|i: int|
            0 <= i < lay.size() ==> is_cell(#[trigger] painted(lay.blank_world(), cells)[i]),
{
    assert(EMPTY & 255 == EMPTY && WALL & 255 == WALL && 0i32 & 1048576 == 0) by (bit_vector);
}

/// A scene without paint is a layer.
proof fn lemma_blank_layer(lay: Layout, rng: u64)
    ensures
        is_layer(lay, blank_state(lay, rng).0),
{
    let (h, w) = (lay.height(), lay.width());
    assert(0 <= h * w) by (nonlinear_arith)
        requires
            0 <= h,
            0 <= w,
    ;
}

/// The demo scene is a layer, and so a world to step.
pub proof fn law_demo_is_layer(lay: Layout)
    ensures
        is_layer(lay, demo_state(lay).0),
{
    let (w, h) = (lay.cols as int, lay.rows as int);
    let s = blank_state(lay, 0x9E37_79B9_7F4A_7C15);
    lemma_blank_layer(lay, 0x9E37_79B9_7F4A_7C15);
    lemma_boxed(lay, s, w / 8, h * 3 / 8, w * 3 / 8, h * 3 / 8 + 4, WALL);
    let s = boxed(lay, s, w / 8, h * 3 / 8, w * 3 / 8, h * 3 / 8 + 4, WALL);
    lemma_boxed(lay, s, w * 5 / 8, h / 2, w * 7 / 8, h / 2 + 4, WALL);
    let s = boxed(lay, s, w * 5 / 8, h / 2, w * 7 / 8, h / 2 + 4, WALL);
    let (hx, hy) = (w * 5 / 8, h - 1);
    lemma_boxed(lay, s, hx, hy - 40, hx + 4, hy, WOOD);
    let s = boxed(lay, s, hx, hy - 40, hx + 4, hy, WOOD);
    lemma_boxed(lay, s, hx + 60, hy - 40, hx + 64, hy, WOOD);
    let s = boxed(lay, s, hx + 60, hy - 40, hx + 64, hy, WOOD);
    lemma_boxed(lay, s, hx - 4, hy - 44, hx + 68, hy - 40, WOOD);
    let s = boxed(lay, s, hx - 4, hy - 44, hx + 68, hy - 40, WOOD);
    lemma_boxed(lay, s, w / 8 + 4, h * 3 / 8 - 24, w * 3 / 8 - 4, h * 3 / 8, WATER);
    let s = boxed(lay, s, w / 8 + 4, h * 3 / 8 - 24, w * 3 / 8 - 4, h * 3 / 8, WATER);
    law_scanned(
        lay,
        s,
        |x: int, y: int| in_disc(x - w * 3 / 4, y - (h / 2 - 20), 22),
        w * 3 / 4 - 22,
        h / 2 - 20 - 22,
        45,
        SAND,
        2025,
    );
    let s = dotted(lay, s, w * 3 / 4, h / 2 - 20, 22, SAND);
    lemma_boxed(lay, s, w / 16, h - 12, w * 5 / 16, h, OIL);
}

proof fn lemma_boxed(
    lay: Layout,
    s: (Seq<i32>, u64),
    x0: int,
    y0: int,
    x1: int,
    y1: int,
    kind: i32,
)
    requires
        is_layer(lay, s.0),
        is_element(kind),
    ensures
        is_layer(lay, boxed(lay, s, x0, y0, x1, y1, kind).0),
{
    if x0 < x1 {
        law_scanned(
            lay,
            s,
            |x: int, y: int| true,
            x0,
            y0,
            x1 - x0,
            kind,
            area(x0, y0, x1, y1),
        );
    }
}

/// A random scene is a layer, and so a world to step.
pub proof fn law_random_is_layer(lay: Layout, seed: u64, n: nat)
    ensures
        is_layer(lay, random_state(lay, seed, n).0),
    decreases n,
{
    if n == 0 {
        lemma_blank_layer(lay, seed | 1);
    } else {
        let i = n - 1;
        law_random_is_layer(lay, seed, i as nat);
        let (cells, s0) = random_state(lay, seed, i as nat);
        let s1 = next_state(s0);
        let s2 = next_state(s1);
        let s3 = next_state(s2);
        let (x, y) = (high31(s1) as int % lay.cols as int, high31(s2) as int % lay.rows as int);
        let r = 2 + high31(s3) as int % 14;
        law_scanned(
            lay,
            (cells, s3),
            |a: int, b: int| in_disc(a - x, b - y, r),
            x - r,
            y - r,
            2 * r + 1,
            (1 + i % 8) as i32,
            ((2 * r + 1) * (2 * r + 1)) as nat,
        );
    }
}

/// What a rectangle leaves: the cells from `(x0, y0)` up to but not including `(x1, y1)`
/// hold paint of its element, all others what they held.
pub proof fn law_box_paints(
    lay: Layout,
    s: (Seq<i32>, u64),
    x0: int,
    y0: int,
    x1: int,
    y1: int,
    kind: i32,
    x: int,
    y: int,
)
    requires
        is_layer(lay, s.0),
        is_element(kind),
        0 <= x < lay.cols,
        0 <= y < lay.rows,
    ensures
        is_layer(lay, boxed(lay, s, x0, y0, x1, y1, kind).0),
        ({
            let i = (y + 32) * (lay.cols + 64) + (x + 32);
            let after = boxed(lay, s, x0, y0, x1, y1, kind).0[i];
            if x0 <= x < x1 && y0 <= y < y1 {
                after & 0x10_0000 != 0 && kind_of(after & !0x10_0000i32) == kind
            } else {
                after == s.0[i]
            }
        }),
{
    lemma_boxed(lay, s, x0, y0, x1, y1, kind);
    assert(spot(lay, x, y) == (y + 32) * (lay.cols + 64) + (x + 32));
    if x0 < x1 {
        let (w, n) = (x1 - x0, area(x0, y0, x1, y1));
        law_scanned(lay, s, |x: int, y: int| true, x0, y0, w, kind, n);
        if x0 <= x < x1 && y0 <= y {
            if y < y1 {
                lemma_at(y - y0, x - x0, y1 - y0, w);
                assert(n == (y1 - y0) * w);
            } else if y0 < y1 {
                assert((y - y0) * w >= (y1 - y0) * w) by (nonlinear_arith)
                    requires
                        y >= y1,
                        w > 0,
                ;
            } else {
                assert((y - y0) * w >= 0) by (nonlinear_arith)
                    requires
                        y >= y0,
                        w > 0,
                ;
            }
        }
    }
}

/// What a disc leaves: the cells no farther than `r` from `(x0, y0)` hold paint of its
/// element, all others what they held.
pub proof fn law_disc_paints(
    lay: Layout,
    s: (Seq<i32>, u64),
    x0: int,
    y0: int,
    r: int,
    kind: i32,
    x: int,
    y: int,
)
    requires
        is_layer(lay, s.0),
        is_element(kind),
        0 <= r,
        0 <= x < lay.cols,
        0 <= y < lay.rows,
    ensures
        is_layer(lay, dotted(lay, s, x0, y0, r, kind).0),
        ({
            let i = (y + 32) * (lay.cols + 64) + (x + 32);
            let after = dotted(lay, s, x0, y0, r, kind).0[i];
            if (x - x0) * (x - x0) + (y - y0) * (y - y0) <= r * r {
                after & 0x10_0000 != 0 && kind_of(after & !0x10_0000i32) == kind
            } else {
                after == s.0[i]
            }
        }),
{
    assert(spot(lay, x, y) == (y + 32) * (lay.cols + 64) + (x + 32));
    let side = 2 * r + 1;
    let marked = |a: int, b: int| in_disc(a - x0, b - y0, r);
    assert(side * side >= 0) by (nonlinear_arith);
    law_scanned(lay, s, marked, x0 - r, y0 - r, side, kind, (side * side) as nat);
    law_disc_is_round(x - x0, y - y0, x - x0, 0, r);
    law_disc_is_round(x - x0, y - y0, 0, y - y0, r);
    if in_disc(x - x0, y - y0, r) {
        assert((x - x0) * (x - x0) >= 0 && (y - y0) * (y - y0) >= 0 && 0 * 0 == 0) by (nonlinear_arith);
        assert(-r <= x - x0 <= r && -r <= y - y0 <= r);
        lemma_at(y - y0 + r, x - x0 + r, side, side);
    }
}

/// What a brush leaves: the cells that it covers hold paint of its element, all others
/// what they held.
pub proof fn law_dab_paints(lay: Layout, s: (Seq<i32>, u64), stamp: Stamp, kind: i32, x: int, y: int)
    requires
        is_layer(lay, s.0),
        is_element(kind),
        stamp.wf(),
        0 <= x < lay.cols,
        0 <= y < lay.rows,
    ensures
        is_layer(lay, dabbed(lay, s, stamp, kind).0),
        ({
            let i = (y + 32) * (lay.cols + 64) + (x + 32);
            let after = dabbed(lay, s, stamp, kind).0[i];
            if stamp.covers(x, y) {
                after & 0x10_0000 != 0 && kind_of(after & !0x10_0000i32) == kind
            } else {
                after == s.0[i]
            }
        }),
{
    assert(spot(lay, x, y) == (y + 32) * (lay.cols + 64) + (x + 32));
    let side = stamp.side();
    let marked = |a: int, b: int| stamp.covers(a, b);
    law_scanned(
        lay,
        s,
        marked,
        stamp.x0 - stamp.r,
        stamp.y0 - stamp.r,
        side,
        kind,
        (side * side) as nat,
    );
    if stamp.covers(x, y) {
        lemma_at(y - stamp.y0 + stamp.r, x - stamp.x0 + stamp.r, side, side);
    }
}

/// A stroke is its dabs, one after the other.
pub proof fn law_one_dab_more(
    lay: Layout,
    s: (Seq<i32>, u64),
    stamps: Seq<Stamp>,
    last: Stamp,
    kind: i32,
)
    ensures
        stroked(lay, s, seq![], kind) == s,
        stroked(lay, s, stamps.push(last), kind) == dabbed(
            lay,
            stroked(lay, s, stamps, kind),
            last,
            kind,
        ),
{
    assert(stamps.push(last).drop_last() =~= stamps);
}

/// What the demo scene shows at `(x, y)`: a pool of oil on the ground at the left, a heap
/// of sand over the shelf at the right, a pool of water on the one at the left, a hut of
/// wood with a roof and two posts, and the two shelves.
pub proof fn law_demo_scene(lay: Layout, x: int, y: int)
    requires
        0 <= x < lay.cols,
        0 <= y < lay.rows,
    ensures
        ({
            let (w, h) = (lay.cols as int, lay.rows as int);
            let v = demo_state(lay).0[(y + 32) * (lay.cols + 64) + (x + 32)];
            let within = |x0: int, y0: int, x1: int, y1: int| x0 <= x < x1 && y0 <= y < y1;
            let oil = within(w / 16, h - 12, w * 5 / 16, h);
            let (dx, dy) = (x - w * 3 / 4, y - (h / 2 - 20));
            let sand = dx * dx + dy * dy <= 22 * 22;
            let water = within(w / 8 + 4, h * 3 / 8 - 24, w * 3 / 8 - 4, h * 3 / 8);
            let hut = w * 5 / 8;
            let roof = within(hut - 4, h - 45, hut + 68, h - 41);
            let posts = within(hut, h - 41, hut + 4, h - 1) || within(
                hut + 60,
                h - 41,
                hut + 64,
                h - 1,
            );
            let shelves = within(w / 8, h * 3 / 8, w * 3 / 8, h * 3 / 8 + 4) || within(
                w * 5 / 8,
                h / 2,
                w * 7 / 8,
                h / 2 + 4,
            );
            let shown = if oil {
                3int
            } else if sand {
                1
            } else if water {
                2
            } else if roof || posts {
                4
            } else if shelves {
                5
            } else {
                0
            };
            if shown == 0 {
                v == 0
            } else {
                v & 0x10_0000 != 0 && kind_of(v & !0x10_0000i32) == shown
            }
        }),
{
    let (w, h) = (lay.cols as int, lay.rows as int);
    let s = blank_state(lay, 0x9E37_79B9_7F4A_7C15);
    lemma_blank_layer(lay, 0x9E37_79B9_7F4A_7C15);
    lemma_at(y + TILE, x + TILE, lay.height(), lay.width());
    law_box_paints(lay, s, w / 8, h * 3 / 8, w * 3 / 8, h * 3 / 8 + 4, WALL, x, y);
    let s = boxed(lay, s, w / 8, h * 3 / 8, w * 3 / 8, h * 3 / 8 + 4, WALL);
    law_box_paints(lay, s, w * 5 / 8, h / 2, w * 7 / 8, h / 2 + 4, WALL, x, y);
    let s = boxed(lay, s, w * 5 / 8, h / 2, w * 7 / 8, h / 2 + 4, WALL);
    let (hx, hy) = (w * 5 / 8, h - 1);
    law_box_paints(lay, s, hx, hy - 40, hx + 4, hy, WOOD, x, y);
    let s = boxed(lay, s, hx, hy - 40, hx + 4, hy, WOOD);
    law_box_paints(lay, s, hx + 60, hy - 40, hx + 64, hy, WOOD, x, y);
    let s = boxed(lay, s, hx + 60, hy - 40, hx + 64, hy, WOOD);
    law_box_paints(lay, s, hx - 4, hy - 44, hx + 68, hy - 40, WOOD, x, y);
    let s = boxed(lay, s, hx - 4, hy - 44, hx + 68, hy - 40, WOOD);
    law_box_paints(lay, s, w / 8 + 4, h * 3 / 8 - 24, w * 3 / 8 - 4, h * 3 / 8, WATER, x, y);
    let s = boxed(lay, s, w / 8 + 4, h * 3 / 8 - 24, w * 3 / 8 - 4, h * 3 / 8, WATER);
    law_disc_paints(lay, s, w * 3 / 4, h / 2 - 20, 22, SAND, x, y);
    let s = dotted(lay, s, w * 3 / 4, h / 2 - 20, 22, SAND);
    law_box_paints(lay, s, w / 16, h - 12, w * 5 / 16, h, OIL, x, y);
}

/// A random scene is its blobs, one after the other. A blob draws its column, its row and
/// its radius, from 2 to 15, and is of the element after the last one's, from sand to
/// embers and round again.
pub proof fn law_one_blob_more(lay: Layout, seed: u64, n: nat, x: int, y: int)
    requires
        0 <= x < lay.cols,
        0 <= y < lay.rows,
    ensures
        ({
            let (old, new) = (random_state(lay, seed, n), random_state(lay, seed, n + 1));
            let s1 = next_state(old.1);
            let s2 = next_state(s1);
            let s3 = next_state(s2);
            let dx = x - high31(s1) as int % lay.cols as int;
            let dy = y - high31(s2) as int % lay.rows as int;
            let r = 2 + high31(s3) as int % 14;
            let i = (y + 32) * (lay.cols + 64) + (x + 32);
            if dx * dx + dy * dy <= r * r {
                new.0[i] & 0x10_0000 != 0 && kind_of(new.0[i] & !0x10_0000i32) == 1 + n % 8
            } else {
                new.0[i] == old.0[i]
            }
        }),
        random_state(lay, seed, 0).1 == seed | 1,
        random_state(lay, seed, 0).0[(y + 32) * (lay.cols + 64) + (x + 32)] == 0,
{
    law_random_is_layer(lay, seed, n);
    lemma_at(y + TILE, x + TILE, lay.height(), lay.width());
    let (cells, s0) = random_state(lay, seed, n);
    let s1 = next_state(s0);
    let s2 = next_state(s1);
    let s3 = next_state(s2);
    law_disc_paints(
        lay,
        (cells, s3),
        high31(s1) as int % lay.cols as int,
        high31(s2) as int % lay.rows as int,
        2 + high31(s3) as int % 14,
        (1 + n % 8) as i32,
        x,
        y,
    );
}

/// Painting draws one number for every cell that is marked, whether it lies in the world
/// or not, and none for the others. Its shade and its direction are bits of that number.
pub proof fn law_one_cell_more(
    lay: Layout,
    start: (Seq<i32>, u64),
    marked: spec_fn(int, int) -> bool,
    x0: int,
    y0: int,
    w: int,
    kind: i32,
    n: nat,
)
    ensures
        ({
            let (old, new) = (
                scanned(lay, start, marked, x0, y0, w, kind, n),
                scanned(lay, start, marked, x0, y0, w, kind, n + 1),
            );
            let (x, y) = (x0 + n as int % w, y0 + n as int / w);
            let i = (y + 32) * (lay.cols + 64) + (x + 32);
            let inside = 0 <= x < lay.cols && 0 <= y < lay.rows;
            &&& !marked(x, y) ==> new == old
            &&& marked(x, y) ==> new.1 == next_state(old.1)
            &&& marked(x, y) && !inside ==> new.0 == old.0
            &&& marked(x, y) && inside ==> new.0 == old.0.update(
                i,
                0x10_0000i32 | shaded(new.1, kind),
            )
        }),
        scanned(lay, start, marked, x0, y0, w, kind, 0) == start,
{
}

/// What a canvas holds after painting on it: within the rectangle, or under the brush, paint
/// of that element, and elsewhere what it held.
pub proof fn law_canvas_paints(
    a: &mut Canvas,
    b: &mut Canvas,
    x0: i32,
    y0: i32,
    x1: i32,
    y1: i32,
    stamp: &Stamp,
    kind: i32,
    x: int,
    y: int,
)
    requires
        old(a).layout == old(b).layout,
        is_layer(old(a).layout, old(a).cells@),
        is_layer(old(b).layout, old(b).cells@),
        is_element(kind),
        stamp.wf(),
        call_ensures(Canvas::rect, (a, x0, y0, x1, y1, kind), ()),
        call_ensures(Canvas::disc, (b, stamp, kind), ()),
        0 <= x < old(a).layout.cols,
        0 <= y < old(a).layout.rows,
    ensures
        ({
            let i = (y + 32) * (old(a).layout.cols + 64) + (x + 32);
            let holds = |v: i32| v & 0x10_0000 != 0 && kind_of(v & !0x10_0000i32) == kind;
            &&& x0 <= x < x1 && y0 <= y < y1 ==> holds(final(a).cells@[i])
            &&& !(x0 <= x < x1 && y0 <= y < y1) ==> final(a).cells@[i] == old(a).cells@[i]
            &&& stamp.covers(x, y) ==> holds(final(b).cells@[i])
            &&& !stamp.covers(x, y) ==> final(b).cells@[i] == old(b).cells@[i]
        }),
{
    let lay = old(a).layout;
    law_box_paints(
        lay,
        old(a).state(),
        x0 as int,
        y0 as int,
        x1 as int,
        y1 as int,
        kind,
        x,
        y,
    );
    law_dab_paints(lay, old(b).state(), *stamp, kind, x, y);
}

} // verus!
