//! The scene: a grid of packed pixels to paint into.
//!
//! Each pixel is `kind << 24 | r << 16 | g << 8 | b`: kind 0 is empty space,
//! 1 a wall (blocks light, emits nothing), 2 a light (blocks and emits its
//! color). The grid is a whole buffer, ghost ring included.
use crate::brush::{in_disc, Stamp};
use crate::grid::{at, lemma_at, lemma_cell_of};
use crate::light2d::layout::{Layout, TILE};
use crate::random::{advance, draw31, high31, state_after};
use vstd::prelude::*;

verus! {

pub const WALL: i32 = 1;

pub const LIGHT: i32 = 2;

/// Sides up to this length have coordinates that a brush can be centered on
/// exactly.
pub const MAX_WORLD: usize = 0x100_0000;

/// The packed pixel of a kind and a color.
pub open spec fn packed(kind: i32, r: u8, g: u8, b: u8) -> i32 {
    (kind << 24) | ((r as i32) << 16) | ((g as i32) << 8) | b as i32
}

/// The packed pixel of a kind and a color.
pub fn pack(kind: i32, rgb: [u8; 3]) -> (v: i32)
    ensures
        v == packed(kind, rgb[0], rgb[1], rgb[2]),
{
    (kind << 24) | ((rgb[0] as i32) << 16) | ((rgb[1] as i32) << 8) | rgb[2] as i32
}

/// Kind and color can be read back from a packed pixel.
pub proof fn law_pack(kind: i32, r: u8, g: u8, b: u8)
    requires
        0 <= kind < 128,
    ensures
        packed(kind, r, g, b) >> 24 == kind,
        (packed(kind, r, g, b) >> 16) & 255 == r,
        (packed(kind, r, g, b) >> 8) & 255 == g,
        packed(kind, r, g, b) & 255 == b,
        kind != 0 ==> packed(kind, r, g, b) != 0,
{
    assert(0 <= kind < 128 ==> {
        let v = (kind << 24) | ((r as i32) << 16) | ((g as i32) << 8) | b as i32;
        &&& v >> 24 == kind
        &&& (v >> 16) & 255 == r
        &&& (v >> 8) & 255 == g
        &&& v & 255 == b
        &&& kind != 0 ==> v != 0
    }) by (bit_vector);
}

/// Whether world pixel `(x, y)` exists.
pub open spec fn in_world(lay: Layout, x: int, y: int) -> bool {
    &&& 0 <= x < lay.cols
    &&& 0 <= y < lay.rows
}

/// Buffer position of world pixel `(x, y)`.
pub open spec fn spot(lay: Layout, x: int, y: int) -> int {
    at(y + TILE, x + TILE, lay.width())
}

/// `cells` with `value` in every world pixel of a region.
pub open spec fn filled(
    lay: Layout,
    cells: Seq<i32>,
    region: spec_fn(int, int) -> bool,
    value: i32,
) -> Seq<i32> {
    Seq::new(
        cells.len(),
        |i: int|
            {
                let (x, y) = (i % lay.width() - TILE, i / lay.width() - TILE);
                if in_world(lay, x, y) && region(x, y) {
                    value
                } else {
                    cells[i]
                }
            },
    )
}

/// The region of a brush.
pub open spec fn under(stamp: Stamp) -> spec_fn(int, int) -> bool {
    |x: int, y: int| stamp.covers(x, y)
}

/// The region of a rectangle, its far sides excluded.
pub open spec fn box_of(x0: int, y0: int, x1: int, y1: int) -> spec_fn(int, int) -> bool {
    |x: int, y: int| x0 <= x < x1 && y0 <= y < y1
}

/// The region of a disc centered on a pixel.
pub open spec fn disc_of(x0: int, y0: int, r: int) -> spec_fn(int, int) -> bool {
    |x: int, y: int| in_disc(x - x0, y - y0, r)
}

/// One more pixel of a region filled.
proof fn lemma_filled_one(
    lay: Layout,
    cells: Seq<i32>,
    region: spec_fn(int, int) -> bool,
    more: spec_fn(int, int) -> bool,
    value: i32,
    x: int,
    y: int,
)
    requires
        cells.len() == lay.size(),
        forall|a: int, b: int| #[trigger] more(a, b) <==> region(a, b) || (a == x && b == y),
    ensures
        filled(lay, cells, more, value) == (if in_world(lay, x, y) {
            filled(lay, cells, region, value).update(spot(lay, x, y), value)
        } else {
            filled(lay, cells, region, value)
        }),
{
    let w = lay.width();
    let one = filled(lay, cells, region, value);
    let two = filled(lay, cells, more, value);
    if in_world(lay, x, y) {
        lemma_at(y + TILE, x + TILE, lay.height(), w);
        assert(two =~= one.update(spot(lay, x, y), value)) by {
            assert forall|i: int| 0 <= i < cells.len() implies two[i] == one.update(
                spot(lay, x, y),
                value,
            )[i] by {
                lemma_cell_of(i, w);
            }
        }
    } else {
        assert(two =~= one);
    }
}

/// A region without pixels changes nothing, and regions with the same pixels
/// are filled alike.
proof fn lemma_filled_same(
    lay: Layout,
    cells: Seq<i32>,
    region: spec_fn(int, int) -> bool,
    same: spec_fn(int, int) -> bool,
    value: i32,
)
    ensures
        (forall|a: int, b: int| #[trigger] region(a, b) <==> same(a, b)) ==> filled(lay, cells, region, value)
            == filled(lay, cells, same, value),
        (forall|a: int, b: int| !#[trigger] region(a, b)) ==> filled(lay, cells, region, value)
            == cells,
{
    if forall|a: int, b: int| #[trigger] region(a, b) <==> same(a, b) {
        assert(filled(lay, cells, region, value) =~= filled(lay, cells, same, value));
    }
    if forall|a: int, b: int| !#[trigger] region(a, b) {
        assert(filled(lay, cells, region, value) =~= cells);
    }
}

/// A scene to paint into.
#[derive(Clone)]
pub struct Canvas {
    pub layout: Layout,
    pub cells: Vec<i32>,
}

impl Canvas {
    /// Whether the cells are a whole buffer.
    pub open spec fn wf(self) -> bool {
        &&& self.layout.fits()
        &&& self.cells@.len() == self.layout.size()
    }

    /// An empty scene.
    pub fn new(layout: Layout) -> (c: Canvas)
        requires
            layout.fits(),
        ensures
            c.wf(),
            c.layout == layout,
            c.cells@ == Seq::new(layout.size() as nat, |i: int| 0i32),
    {
        proof {
            layout.lemma_fits();
        }
        let n: usize = layout.buf_rows() * layout.buf_cols();
        let cells: Vec<i32> = vec![0;n];
        assert(cells@ =~= Seq::new(layout.size() as nat, |i: int| 0i32));
        Canvas { layout, cells }
    }

    /// Empty every pixel.
    pub fn clear(&mut self)
        ensures
            final(self).layout == old(self).layout,
            final(self).cells@ == Seq::new(old(self).cells@.len(), |i: int| 0i32),
    {
        let n: usize = self.cells.len();
        self.cells = vec![0;n];
        assert(self.cells@ =~= Seq::new(n as nat, |i: int| 0i32));
    }

    /// Set a world pixel (the ghost ring is not paintable).
    fn set(&mut self, x: i32, y: i32, value: i32)
        requires
            old(self).wf(),
        ensures
            final(self).wf(),
            final(self).layout == old(self).layout,
            final(self).cells@ == (if in_world(old(self).layout, x as int, y as int) {
                old(self).cells@.update(spot(old(self).layout, x as int, y as int), value)
            } else {
                old(self).cells@
            }),
    {
        let lay: Layout = self.layout;
        proof {
            lay.lemma_fits();
        }
        if x >= 0 && y >= 0 && (x as usize) < lay.cols && (y as usize) < lay.rows {
            let (r, c): (usize, usize) = (y as usize + TILE, x as usize + TILE);
            let w: usize = lay.buf_cols();
            proof {
                lemma_at(r as int, c as int, lay.height(), w as int);
            }
            self.cells[r * w + c] = value;
        }
    }

    /// Fill the pixels under a brush.
    pub fn disc(&mut self, stamp: &Stamp, value: i32)
        requires
            old(self).wf(),
            stamp.wf(),
        ensures
            final(self).wf(),
            final(self).layout == old(self).layout,
            final(self).cells@ == filled(old(self).layout, old(self).cells@, under(*stamp), value),
    {
        let ghost lay = self.layout;
        let ghost before = self.cells@;
        let (x0, y0): (i32, i32) = (stamp.x0 - stamp.r, stamp.y0 - stamp.r);
        let (x1, y1): (i32, i32) = (stamp.x0 + stamp.r, stamp.y0 + stamp.r);
        let mut y: i64 = y0 as i64;
        proof {
            lemma_filled_same(
                lay,
                before,
                |a: int, b: int| stamp.covers(a, b) && b < y,
                under(*stamp),
                value,
            );
        }
        while y <= y1 as i64
            invariant
                self.wf(),
                self.layout == lay,
                lay == old(self).layout,
                before == old(self).cells@,
                before.len() == lay.size(),
                stamp.wf(),
                x0 == stamp.x0 - stamp.r,
                x1 == stamp.x0 + stamp.r,
                y0 == stamp.y0 - stamp.r,
                y1 == stamp.y0 + stamp.r,
                y0 <= y <= y1 + 1,
                self.cells@ == filled(
                    lay,
                    before,
                    |a: int, b: int| stamp.covers(a, b) && b < y,
                    value,
                ),
            decreases y1 + 1 - y,
        {
            let mut x: i64 = x0 as i64;
            proof {
                lemma_filled_same(
                    lay,
                    before,
                    |a: int, b: int| stamp.covers(a, b) && b < y,
                    |a: int, b: int| stamp.covers(a, b) && (b < y || (b == y && a < x)),
                    value,
                );
            }
            while x <= x1 as i64
                invariant
                    self.wf(),
                    self.layout == lay,
                    lay == old(self).layout,
                    before == old(self).cells@,
                    before.len() == lay.size(),
                    stamp.wf(),
                    x0 == stamp.x0 - stamp.r,
                    x1 == stamp.x0 + stamp.r,
                    y0 == stamp.y0 - stamp.r,
                    y1 == stamp.y0 + stamp.r,
                    y0 <= y <= y1,
                    x0 <= x <= x1 + 1,
                    self.cells@ == filled(
                        lay,
                        before,
                        |a: int, b: int| stamp.covers(a, b) && (b < y || (b == y && a < x)),
                        value,
                    ),
                decreases x1 + 1 - x,
            {
                let ghost region = |a: int, b: int|
                    stamp.covers(a, b) && (b < y || (b == y && a < x));
                let ghost more = |a: int, b: int|
                    stamp.covers(a, b) && (b < y || (b == y && a < x + 1));
                if stamp.is_marked(x as i32, y as i32) {
                    proof {
                        lemma_filled_one(lay, before, region, more, value, x as int, y as int);
                    }
                    self.set(x as i32, y as i32, value);
                } else {
                    proof {
                        lemma_filled_same(lay, before, region, more, value);
                    }
                }
                x += 1;
            }
            proof {
                lemma_filled_same(
                    lay,
                    before,
                    |a: int, b: int| stamp.covers(a, b) && (b < y || (b == y && a < x)),
                    |a: int, b: int| stamp.covers(a, b) && b < y + 1,
                    value,
                );
            }
            y += 1;
        }
        proof {
            lemma_filled_same(
                lay,
                before,
                |a: int, b: int| stamp.covers(a, b) && b < y,
                under(*stamp),
                value,
            );
        }
    }

    /// Fill the pixels of a rectangle, its far sides excluded.
    pub fn rect(&mut self, x0: i32, y0: i32, x1: i32, y1: i32, value: i32)
        requires
            old(self).wf(),
        ensures
            final(self).wf(),
            final(self).layout == old(self).layout,
            final(self).cells@ == filled(
                old(self).layout,
                old(self).cells@,
                box_of(x0 as int, y0 as int, x1 as int, y1 as int),
                value,
            ),
    {
        let ghost lay = self.layout;
        let ghost before = self.cells@;
        let ghost all = box_of(x0 as int, y0 as int, x1 as int, y1 as int);
        let mut y: i32 = y0;
        proof {
            lemma_filled_same(lay, before, |a: int, b: int| all(a, b) && b < y, all, value);
        }
        while y < y1
            invariant
                self.wf(),
                self.layout == lay,
                lay == old(self).layout,
                before == old(self).cells@,
                before.len() == lay.size(),
                all == box_of(x0 as int, y0 as int, x1 as int, y1 as int),
                y0 <= y,
                y <= y1 || y == y0,
                self.cells@ == filled(lay, before, |a: int, b: int| all(a, b) && b < y, value),
            decreases y1 - y,
        {
            let mut x: i32 = x0;
            proof {
                lemma_filled_same(
                    lay,
                    before,
                    |a: int, b: int| all(a, b) && b < y,
                    |a: int, b: int| all(a, b) && (b < y || (b == y && a < x)),
                    value,
                );
            }
            while x < x1
                invariant
                    self.wf(),
                    self.layout == lay,
                    lay == old(self).layout,
                    before == old(self).cells@,
                    before.len() == lay.size(),
                    all == box_of(x0 as int, y0 as int, x1 as int, y1 as int),
                    y0 <= y < y1,
                    x0 <= x,
                    x <= x1 || x == x0,
                    self.cells@ == filled(
                        lay,
                        before,
                        |a: int, b: int| all(a, b) && (b < y || (b == y && a < x)),
                        value,
                    ),
                decreases x1 - x,
            {
                proof {
                    lemma_filled_one(
                        lay,
                        before,
                        |a: int, b: int| all(a, b) && (b < y || (b == y && a < x)),
                        |a: int, b: int| all(a, b) && (b < y || (b == y && a < x + 1)),
                        value,
                        x as int,
                        y as int,
                    );
                }
                self.set(x, y, value);
                x += 1;
            }
            proof {
                lemma_filled_same(
                    lay,
                    before,
                    |a: int, b: int| all(a, b) && (b < y || (b == y && a < x)),
                    |a: int, b: int| all(a, b) && b < y + 1,
                    value,
                );
            }
            y += 1;
        }
        proof {
            lemma_filled_same(lay, before, |a: int, b: int| all(a, b) && b < y, all, value);
        }
    }

    /// A brush stroke: fill the pixels under each of `stamps`.
    pub fn stroke(&mut self, stamps: &Vec<Stamp>, value: i32)
        requires
            old(self).wf(),
            forall|i: int| 0 <= i < stamps@.len() ==> (#[trigger] stamps@[i]).wf(),
        ensures
            final(self).wf(),
            final(self).layout == old(self).layout,
            final(self).cells@ == filled(old(self).layout, old(self).cells@, swept(stamps@), value),
    {
        let ghost lay = self.layout;
        let ghost before = self.cells@;
        let mut i: usize = 0;
        proof {
            lemma_filled_same(lay, before, swept(stamps@.take(0)), swept(stamps@), value);
        }
        while i < stamps.len()
            invariant
                self.wf(),
                self.layout == lay,
                lay == old(self).layout,
                before == old(self).cells@,
                forall|i: int| 0 <= i < stamps@.len() ==> (#[trigger] stamps@[i]).wf(),
                i <= stamps@.len(),
                self.cells@ == filled(lay, before, swept(stamps@.take(i as int)), value),
            decreases stamps.len() - i,
        {
            proof {
                lemma_swept(lay, before, stamps@, i as int, value);
            }
            self.disc(&stamps[i], value);
            i += 1;
        }
        assert(stamps@.take(i as int) =~= stamps@);
    }

    /// A disc centered on a pixel.
    fn dot(&mut self, x: i32, y: i32, r: i32, value: i32)
        requires
            old(self).wf(),
            0 <= x <= MAX_WORLD,
            0 <= y <= MAX_WORLD,
            0 <= r <= 16,
        ensures
            final(self).wf(),
            final(self).layout == old(self).layout,
            final(self).cells@ == filled(
                old(self).layout,
                old(self).cells@,
                disc_of(x as int, y as int, r as int),
                value,
            ),
    {
        assert((2 * r + 1) * (2 * r + 1) <= 65 * 65) by (nonlinear_arith)
            requires
                0 <= r <= 32,
        ;
        let s = Stamp::round(x, y, r);
        proof {
            lemma_filled_same(
                self.layout,
                self.cells@,
                under(s),
                disc_of(x as int, y as int, r as int),
                value,
            );
        }
        self.disc(&s, value);
    }

    /// Walls and lamps to start from. The two round lamps sit between pixels,
    /// so their footprints come from outside.
    pub fn demo(layout: Layout, amber: &Stamp, blue: &Stamp) -> (c: Canvas)
        requires
            layout.fits(),
            layout.rows <= MAX_WORLD,
            layout.cols <= MAX_WORLD,
            layout.rows % 2 == 0,
            amber.wf(),
            blue.wf(),
        ensures
            c.wf(),
            c.layout == layout,
            c.cells@ == demo_scene(layout, *amber, *blue),
    {
        let mut c = Canvas::new(layout);
        let (w, h): (i32, i32) = (layout.cols as i32, layout.rows as i32);
        let wall: i32 = pack(WALL, [70, 70, 80]);
        // A room with doorways.
        c.rect(w / 5, h / 5, w * 4 / 5, h / 5 + 6, wall);
        c.rect(w / 5, h * 4 / 5 - 6, w * 2 / 5, h * 4 / 5, wall);
        c.rect(w * 3 / 5, h * 4 / 5 - 6, w * 4 / 5, h * 4 / 5, wall);
        c.rect(w / 5, h / 5, w / 5 + 6, h * 3 / 5, wall);
        c.rect(w * 4 / 5 - 6, h * 2 / 5, w * 4 / 5, h * 4 / 5, wall);
        assert(c.cells@ == demo_room(layout));
        // Pillars.
        let mut i: i32 = 0;
        while i < 4
            invariant
                0 <= i <= 4,
                w == layout.cols,
                h == layout.rows,
                layout.rows <= MAX_WORLD,
                layout.cols <= MAX_WORLD,
                wall == packed(WALL, 70, 70, 80),
                c.wf(),
                c.layout == layout,
                c.cells@ == demo_pillars(layout, i as nat),
            decreases 4 - i,
        {
            assert(0 <= w * (3 + 2 * i) <= 9 * MAX_WORLD) by (nonlinear_arith)
                requires
                    0 <= w <= MAX_WORLD,
                    0 <= i <= 3,
            ;
            let x: i32 = w * (3 + 2 * i) / 12;
            c.dot(x, h / 2, 7, wall);
            i += 1;
        }
        // Lamps.
        c.disc(amber, pack(LIGHT, [255, 190, 110]));
        c.disc(blue, pack(LIGHT, [90, 200, 255]));
        c.rect(w * 2 / 5 + 20, h * 4 / 5 - 4, w * 3 / 5 - 20, h * 4 / 5, pack(LIGHT, [255, 80, 180]));
        c
    }

    /// Random walls, lights and isolated dots, to check against.
    pub fn random(layout: Layout, seed: u64) -> (c: Canvas)
        requires
            layout.fits(),
            0 < layout.rows <= MAX_WORLD,
            0 < layout.cols <= MAX_WORLD,
        ensures
            c.wf(),
            c.layout == layout,
            c.cells@ == random_scene(layout, seed),
    {
        let mut c = Canvas::new(layout);
        let (w, h): (u32, u32) = (layout.cols as u32, layout.rows as u32);
        let mut rng: u64 = seed | 1;
        let ghost start = rng;
        let mut i: u32 = 0;
        while i < 40
            invariant
                i <= 40,
                start == seed | 1,
                rng == state_after(start, (6 * i) as nat),
                w == layout.cols,
                h == layout.rows,
                0 < layout.rows <= MAX_WORLD,
                0 < layout.cols <= MAX_WORLD,
                c.wf(),
                c.layout == layout,
                c.cells@ == random_discs(layout, seed, i as nat),
            decreases 40 - i,
        {
            let kind: i32 = if i % 3 == 0 {
                LIGHT
            } else {
                WALL
            };
            let ghost n = 6 * i;
            let s1 = advance(rng);
            let s2 = advance(s1);
            let s3 = advance(s2);
            let s4 = advance(s3);
            let s5 = advance(s4);
            let s6 = advance(s5);
            proof {
                reveal_with_fuel(state_after, 7);
                assert(s1 == state_after(start, (n + 1) as nat));
                assert(s2 == state_after(start, (n + 2) as nat));
                assert(s3 == state_after(start, (n + 3) as nat));
                assert(s4 == state_after(start, (n + 4) as nat));
                assert(s5 == state_after(start, (n + 5) as nat));
                assert(s6 == state_after(start, (n + 6) as nat));
            }
            let color: [u8; 3] = [draw31(s1) as u8, draw31(s2) as u8, draw31(s3) as u8];
            let (x, y): (u32, u32) = (draw31(s4) % w, draw31(s5) % h);
            c.dot(x as i32, y as i32, 2 + (draw31(s6) % 12) as i32, pack(kind, color));
            rng = s6;
            i += 1;
        }
        // Isolated dots make a Voronoi diagram, where plain jump flooding
        // makes mistakes.
        let mut j: u32 = 0;
        while j < 3000
            invariant
                j <= 3000,
                start == seed | 1,
                rng == state_after(start, (240 + 2 * j) as nat),
                w == layout.cols,
                h == layout.rows,
                0 < layout.rows <= MAX_WORLD,
                0 < layout.cols <= MAX_WORLD,
                c.wf(),
                c.layout == layout,
                c.cells@ == random_dots(layout, seed, j as nat),
            decreases 3000 - j,
        {
            let s1 = advance(rng);
            let s2 = advance(s1);
            proof {
                reveal_with_fuel(state_after, 3);
                assert(s1 == state_after(start, (240 + 2 * j + 1) as nat));
                assert(s2 == state_after(start, (240 + 2 * j + 2) as nat));
            }
            let (x, y): (u32, u32) = (draw31(s1) % w, draw31(s2) % h);
            c.set(x as i32, y as i32, pack(WALL, [200, 200, 200]));
            rng = s2;
            j += 1;
        }
        c
    }
}

/// The region of several brushes.
pub open spec fn swept(stamps: Seq<Stamp>) -> spec_fn(int, int) -> bool {
    |x: int, y: int|
        exists|i: int| 0 <= i < stamps.len() && (#[trigger] stamps[i]).covers(x, y)
}

/// One more brush of a stroke.
proof fn lemma_swept(lay: Layout, cells: Seq<i32>, stamps: Seq<Stamp>, n: int, value: i32)
    requires
        0 <= n < stamps.len(),
    ensures
        filled(lay, cells, swept(stamps.take(n + 1)), value) == filled(
            lay,
            filled(lay, cells, swept(stamps.take(n)), value),
            under(stamps[n]),
            value,
        ),
{
    assert forall|x: int, y: int| #[trigger]
        swept(stamps.take(n + 1))(x, y) <==> swept(stamps.take(n))(x, y) || under(stamps[n])(x, y) by {
        if swept(stamps.take(n + 1))(x, y) {
            let i = choose|i: int|
                0 <= i < n + 1 && (#[trigger] stamps.take(n + 1)[i]).covers(x, y);
            if i < n {
                assert(stamps.take(n)[i].covers(x, y));
            }
        }
        if swept(stamps.take(n))(x, y) {
            let i = choose|i: int| 0 <= i < n && (#[trigger] stamps.take(n)[i]).covers(x, y);
            assert(stamps.take(n + 1)[i].covers(x, y));
        }
        if stamps[n].covers(x, y) {
            assert(stamps.take(n + 1)[n].covers(x, y));
        }
    }
    assert(filled(lay, cells, swept(stamps.take(n + 1)), value) =~= filled(
        lay,
        filled(lay, cells, swept(stamps.take(n)), value),
        under(stamps[n]),
        value,
    ));
}

/// A room with doorways.
pub open spec fn demo_room(lay: Layout) -> Seq<i32> {
    let (w, h) = (lay.cols as int, lay.rows as int);
    let wall = packed(WALL, 70, 70, 80);
    let s = Seq::new(lay.size() as nat, |i: int| 0i32);
    let s = filled(lay, s, box_of(w / 5, h / 5, w * 4 / 5, h / 5 + 6), wall);
    let s = filled(lay, s, box_of(w / 5, h * 4 / 5 - 6, w * 2 / 5, h * 4 / 5), wall);
    let s = filled(lay, s, box_of(w * 3 / 5, h * 4 / 5 - 6, w * 4 / 5, h * 4 / 5), wall);
    let s = filled(lay, s, box_of(w / 5, h / 5, w / 5 + 6, h * 3 / 5), wall);
    filled(lay, s, box_of(w * 4 / 5 - 6, h * 2 / 5, w * 4 / 5, h * 4 / 5), wall)
}

/// The room with the first `n` pillars.
pub open spec fn demo_pillars(lay: Layout, n: nat) -> Seq<i32>
    decreases n,
{
    if n == 0 {
        demo_room(lay)
    } else {
        let x = lay.cols * (3 + 2 * (n - 1)) / 12;
        filled(
            lay,
            demo_pillars(lay, (n - 1) as nat),
            disc_of(x, lay.rows as int / 2, 7),
            packed(WALL, 70, 70, 80),
        )
    }
}

/// The room with its pillars and lamps.
pub open spec fn demo_scene(lay: Layout, amber: Stamp, blue: Stamp) -> Seq<i32> {
    let (w, h) = (lay.cols as int, lay.rows as int);
    let s = demo_pillars(lay, 4);
    let s = filled(lay, s, under(amber), packed(LIGHT, 255, 190, 110));
    let s = filled(lay, s, under(blue), packed(LIGHT, 90, 200, 255));
    filled(
        lay,
        s,
        box_of(w * 2 / 5 + 20, h * 4 / 5 - 4, w * 3 / 5 - 20, h * 4 / 5),
        packed(LIGHT, 255, 80, 180),
    )
}

/// The `n`th number drawn for a random scene.
pub open spec fn drawn(seed: u64, n: int) -> u32 {
    high31(state_after(seed | 1, n as nat))
}

/// The first `n` discs of a random scene, every third one a light. A disc
/// draws its color, its center and its radius.
pub open spec fn random_discs(lay: Layout, seed: u64, n: nat) -> Seq<i32>
    decreases n,
{
    if n == 0 {
        Seq::new(lay.size() as nat, |i: int| 0i32)
    } else {
        let i = n - 1;
        let kind = if i % 3 == 0 {
            LIGHT
        } else {
            WALL
        };
        let value = packed(
            kind,
            drawn(seed, 6 * i + 1) as u8,
            drawn(seed, 6 * i + 2) as u8,
            drawn(seed, 6 * i + 3) as u8,
        );
        filled(
            lay,
            random_discs(lay, seed, i as nat),
            disc_of(
                drawn(seed, 6 * i + 4) as int % lay.cols as int,
                drawn(seed, 6 * i + 5) as int % lay.rows as int,
                2 + drawn(seed, 6 * i + 6) as int % 12,
            ),
            value,
        )
    }
}

/// The discs and the first `n` dots of a random scene.
pub open spec fn random_dots(lay: Layout, seed: u64, n: nat) -> Seq<i32>
    decreases n,
{
    if n == 0 {
        random_discs(lay, seed, 40)
    } else {
        let j = n - 1;
        let x = drawn(seed, 240 + 2 * j + 1) as int % lay.cols as int;
        let y = drawn(seed, 240 + 2 * j + 2) as int % lay.rows as int;
        random_dots(lay, seed, j as nat).update(spot(lay, x, y), packed(WALL, 200, 200, 200))
    }
}

/// Forty discs and three thousand dots.
pub open spec fn random_scene(lay: Layout, seed: u64) -> Seq<i32> {
    random_dots(lay, seed, 3000)
}

/// Filling a region leaves the ghost ring alone.
pub proof fn law_ghosts_unpainted(
    lay: Layout,
    cells: Seq<i32>,
    region: spec_fn(int, int) -> bool,
    value: i32,
    i: int,
)
    requires
        0 <= i < cells.len(),
        !lay.inside(i / lay.width(), i % lay.width()),
        cells.len() == lay.size(),
    ensures
        filled(lay, cells, region, value)[i] == cells[i],
{
}

} // verus!
