//! The particle grid, its pins, and the batches of links.
//!
//! Buffers surround the grid with a ring of one ghost tile, so that every
//! neighbor of a particle is in bounds.
use crate::grid::{at, lemma_at, round_to_tiles, tiles_up};
use vstd::prelude::*;

verus! {

/// Edge of a tile, and width of the ghost ring.
pub const TILE: usize = 32;

/// Number of slots in the parameter buffer.
pub const PARAMS: usize = 64;

// Parameter slots. Physics first, and then the camera.
pub const P_DT: usize = 0;

pub const P_GRAVITY: usize = 1;

pub const P_DAMPING: usize = 2;

/// Three slots.
pub const P_WIND: usize = 3;

pub const P_TIME: usize = 6;

/// Four slots: center and radius.
pub const P_SPHERE: usize = 7;

pub const P_FLOOR: usize = 11;

/// Three slots: structural, shear, bend.
pub const P_STIFF: usize = 12;

pub const P_SPACING: usize = 15;

/// Nine slots, row by row.
pub const P_ROT: usize = 20;

/// Three slots.
pub const P_TARGET: usize = 29;

pub const P_DIST: usize = 32;

pub const P_FOCAL: usize = 33;

/// Two slots: the middle of the screen.
pub const P_CENTER: usize = 34;

/// Three slots.
pub const P_LIGHT: usize = 36;

/// Every parameter with the slot it starts at and the number it takes.
pub open spec fn slots() -> Seq<(int, int)> {
    seq![
        (P_DT as int, 1int),
        (P_GRAVITY as int, 1int),
        (P_DAMPING as int, 1int),
        (P_WIND as int, 3int),
        (P_TIME as int, 1int),
        (P_SPHERE as int, 4int),
        (P_FLOOR as int, 1int),
        (P_STIFF as int, 3int),
        (P_SPACING as int, 1int),
        (P_ROT as int, 9int),
        (P_TARGET as int, 3int),
        (P_DIST as int, 1int),
        (P_FOCAL as int, 1int),
        (P_CENTER as int, 2int),
        (P_LIGHT as int, 3int),
    ]
}

/// No two parameters share a slot, and all of them fit in the buffer.
pub proof fn law_slots_apart(i: int, j: int)
    requires
        0 <= i < j < slots().len(),
    ensures
        slots()[i].0 + slots()[i].1 <= slots()[j].0,
        slots()[j].0 + slots()[j].1 <= PARAMS,
{
}

/// Grid size in particles, rounded up to whole tiles. Buffers add a ring of
/// one ghost tile on every side.
#[derive(Clone, Copy, Debug)]
pub struct Layout {
    pub rows: usize,
    pub cols: usize,
}

impl Layout {
    /// Rows of a buffer, ghost ring included.
    pub open spec fn height(self) -> int {
        self.rows + 2 * TILE
    }

    /// Columns of a buffer, ghost ring included.
    pub open spec fn width(self) -> int {
        self.cols + 2 * TILE
    }

    /// Particles of a buffer.
    pub open spec fn size(self) -> int {
        self.height() * self.width()
    }

    /// Whether a buffer can be held in memory at all.
    pub open spec fn fits(self) -> bool {
        self.size() <= usize::MAX
    }

    /// Whether buffer place `(r, c)` is on the grid, not in the ghost ring.
    pub open spec fn inside(self, r: int, c: int) -> bool {
        &&& TILE <= r < TILE + self.rows
        &&& TILE <= c < TILE + self.cols
    }

    /// The layout of a grid of at least `rows` by `cols` particles.
    pub fn new(rows: usize, cols: usize) -> (lay: Layout)
        requires
            tiles_up(rows as int, TILE as int) <= usize::MAX,
            tiles_up(cols as int, TILE as int) <= usize::MAX,
        ensures
            lay.rows == tiles_up(rows as int, TILE as int),
            lay.cols == tiles_up(cols as int, TILE as int),
    {
        Layout { rows: round_to_tiles(rows, TILE), cols: round_to_tiles(cols, TILE) }
    }

    /// Rows of a buffer, ghost ring included.
    pub fn buf_rows(&self) -> (n: usize)
        requires
            self.height() <= usize::MAX,
        ensures
            n == self.height(),
    {
        self.rows + 2 * TILE
    }

    /// Columns of a buffer, ghost ring included.
    pub fn buf_cols(&self) -> (n: usize)
        requires
            self.width() <= usize::MAX,
        ensures
            n == self.width(),
    {
        self.cols + 2 * TILE
    }

    /// Particles of a buffer, ghosts included.
    pub fn len(&self) -> (n: usize)
        requires
            self.fits(),
        ensures
            n == self.size(),
    {
        proof {
            self.lemma_fits();
        }
        self.buf_rows() * self.buf_cols()
    }

    /// Buffer index of grid particle `(r, c)`.
    pub fn index(&self, r: usize, c: usize) -> (i: usize)
        requires
            at(r + TILE, c + TILE, self.width()) <= usize::MAX,
            self.width() <= usize::MAX,
            r + TILE <= usize::MAX,
        ensures
            i == at(r + TILE, c + TILE, self.width()),
    {
        proof {
            let w = self.width();
            assert(0 <= (r + TILE) * w) by (nonlinear_arith)
                requires
                    0 <= r + TILE,
                    0 <= w,
            ;
        }
        (r + TILE) * self.buf_cols() + c + TILE
    }

    /// True for buffer places on the grid (not the ghost ring).
    pub fn is_world(&self, r: usize, c: usize) -> (b: bool)
        requires
            self.height() <= usize::MAX,
            self.width() <= usize::MAX,
        ensures
            b == self.inside(r as int, c as int),
    {
        TILE <= r && r < TILE + self.rows && TILE <= c && c < TILE + self.cols
    }

    /// The sides of a layout that fits in memory fit too.
    pub proof fn lemma_fits(self)
        requires
            self.fits(),
        ensures
            self.height() <= usize::MAX,
            self.width() <= usize::MAX,
            self.rows * self.cols <= usize::MAX,
    {
        let (h, w) = (self.height(), self.width());
        assert(h <= h * w && w <= h * w) by (nonlinear_arith)
            requires
                h >= 64,
                w >= 64,
        ;
        let (r, c) = (self.rows as int, self.cols as int);
        assert(r * c <= (r + 64) * (c + 64)) by (nonlinear_arith)
            requires
                r >= 0,
                c >= 0,
        ;
    }
}

/// Which particles are held in place.
#[derive(Clone, Copy, Debug, PartialEq, Eq, Structural)]
pub enum Pins {
    /// The whole top row: a curtain.
    Top,
    /// Every 16th particle of the top row: a curtain on rings.
    Sparse,
    /// The two top corners: a flag held by its ends.
    Corners,
    /// Nothing: the cloth falls onto the sphere and the floor.
    Free,
}

impl Pins {
    /// Whether grid particle `(r, c)` of a cloth `cols` wide is pinned.
    pub open spec fn holds(self, r: int, c: int, cols: int) -> bool {
        r == 0 && match self {
            Pins::Top => true,
            Pins::Sparse => c % 16 == 0 || c == cols - 1,
            Pins::Corners => c == 0 || c == cols - 1,
            Pins::Free => false,
        }
    }

    /// What each pattern is called.
    pub open spec fn title(self) -> Seq<char> {
        match self {
            Pins::Top => "top row"@,
            Pins::Sparse => "sparse"@,
            Pins::Corners => "corners"@,
            Pins::Free => "free"@,
        }
    }

    /// What the pattern is called.
    pub fn name(self) -> (s: &'static str)
        ensures
            s@ == self.title(),
    {
        match self {
            Pins::Top => "top row",
            Pins::Sparse => "sparse",
            Pins::Corners => "corners",
            Pins::Free => "free",
        }
    }

    /// Inverse mass of grid particle `(r, c)`: none where it is pinned.
    pub fn weight(self, r: usize, c: usize, cols: usize) -> (w: u32)
        requires
            r == 0 && (self is Sparse || self is Corners) ==> cols > 0,
        ensures
            w == if self.holds(r as int, c as int, cols as int) {
                0u32
            } else {
                1u32
            },
    {
        let pinned = r == 0 && match self {
            Pins::Top => true,
            Pins::Sparse => c % 16 == 0 || c == cols - 1,
            Pins::Corners => c == 0 || c == cols - 1,
            Pins::Free => false,
        };
        if pinned {
            0
        } else {
            1
        }
    }
}

/// One batch of links, all solved in the same pass: every particle is in at
/// most one link of a batch, so both ends of a link can move by their share
/// without stepping on another link's result. `kind` picks the direction of
/// the links (0 vertical, 1 horizontal, 2 and 3 the two diagonals), `lg` the
/// stride (`1 << lg`: 1 for structural and shear, 2 for bend), and `b` which of
/// the two interleaved sets of links along that direction.
#[derive(Clone, Copy, Debug, PartialEq, Eq, Structural)]
pub struct Batch {
    pub b: i32,
    pub kind: i32,
    pub lg: i32,
    /// Stiffness slot: 0 structural, 1 shear, 2 bend.
    pub k: usize,
}

/// Direction, stride and stiffness of the six families of links: structural,
/// shear, bend.
pub open spec fn family(i: int) -> (int, int, int) {
    if i == 0 {
        (0, 0, 0)
    } else if i == 1 {
        (1, 0, 0)
    } else if i == 2 {
        (2, 0, 1)
    } else if i == 3 {
        (3, 0, 1)
    } else if i == 4 {
        (0, 1, 2)
    } else {
        (1, 1, 2)
    }
}

/// The `i`th batch of an iteration: the families in turn, both sets of each.
pub open spec fn batch_of(i: int) -> Batch {
    let f = family(i / 2);
    Batch { b: (i % 2) as i32, kind: f.0 as i32, lg: f.1 as i32, k: f.2 as usize }
}

/// Two to the `lg`.
pub open spec fn stride(lg: i32) -> i32 {
    1i32 << (lg as u32)
}

impl Batch {
    /// Whether the batch is one that pairs particles up: strides of one or
    /// two, and of one along the diagonals.
    pub open spec fn wf(self) -> bool {
        &&& 0 <= self.b <= 1
        &&& 0 <= self.kind <= 3
        &&& 0 <= self.lg <= 1
        &&& self.kind >= 2 ==> self.lg == 0
    }

    /// Unit step of the links, in rows and columns.
    pub open spec fn unit(self) -> (int, int) {
        if self.kind == 0 {
            (stride(self.lg) as int, 0)
        } else if self.kind == 1 {
            (0, stride(self.lg) as int)
        } else if self.kind == 2 {
            (1, 1)
        } else {
            (1, -1)
        }
    }

    /// The group of `1 << lg` rows (or columns) that place `(r, c)` is in.
    pub open spec fn group(self, r: int, c: int) -> i32 {
        (if self.kind == 1 {
            c as i32
        } else {
            r as i32
        }) >> (self.lg as u32)
    }

    /// Whether the partner of place `(r, c)` lies a step ahead of it, not
    /// behind: consecutive groups pair up.
    pub open spec fn is_ahead(self, r: int, c: int) -> bool {
        (self.group(r, c) + self.b) % 2 == 0
    }

    /// Where the partner of place `(r, c)` is, relative to it.
    pub open spec fn partner_of(self, r: int, c: int) -> (int, int) {
        let (sr, sc) = self.unit();
        if self.is_ahead(r, c) {
            (sr, sc)
        } else {
            (-sr, -sc)
        }
    }

    /// The twelve batches of one solver iteration: structural, shear, bend.
    pub fn iteration() -> (out: [Batch; 12])
        ensures
            forall|i: int| 0 <= i < 12 ==> #[trigger] out@[i] == batch_of(i),
    {
        let mut out = [Batch { b: 0, kind: 0, lg: 0, k: 0 };12];
        let families: [(i32, i32, usize); 6] = [
            (0, 0, 0),
            (1, 0, 0),
            (2, 0, 1),
            (3, 0, 1),
            (0, 1, 2),
            (1, 1, 2),
        ];
        let mut f: usize = 0;
        while f < 6
            invariant
                f <= 6,
                forall|j: int|
                    0 <= j < 6 ==> {
                        let t = #[trigger] families@[j];
                        &&& t.0 == family(j).0
                        &&& t.1 == family(j).1
                        &&& t.2 == family(j).2
                    },
                forall|i: int| 0 <= i < 2 * f ==> #[trigger] out@[i] == batch_of(i),
            decreases 6 - f,
        {
            let (kind, lg, k): (i32, i32, usize) = families[f];
            assert(families@[f as int].0 == family(f as int).0);
            out[2 * f] = Batch { b: 0, kind, lg, k };
            out[2 * f + 1] = Batch { b: 1, kind, lg, k };
            f += 1;
        }
        out
    }

    /// The pass table entry the kernel reads.
    pub fn entry(self) -> (e: [i32; 4])
        ensures
            e@ == seq![self.b, self.kind, self.lg, self.k as i32],
    {
        let e = [self.b, self.kind, self.lg, self.k as i32];
        assert(e@ =~= seq![self.b, self.kind, self.lg, self.k as i32]);
        e
    }

    /// Unit step of this batch's links.
    pub fn step(self) -> (s: (i32, i32))
        requires
            0 <= self.lg < 32,
        ensures
            s.0 == self.unit().0,
            s.1 == self.unit().1,
    {
        let s: i32 = 1i32 << (self.lg as u32);
        if self.kind == 0 {
            (s, 0)
        } else if self.kind == 1 {
            (0, s)
        } else if self.kind == 2 {
            (1, 1)
        } else {
            (1, -1)
        }
    }

    /// Row and column offset of the partner of buffer particle `(r, c)`.
    pub fn partner(self, r: usize, c: usize) -> (p: (i32, i32))
        requires
            0 <= self.lg < 31,
            i32::MIN <= self.group(r as int, c as int) + self.b <= i32::MAX,
        ensures
            p.0 == self.partner_of(r as int, c as int).0,
            p.1 == self.partner_of(r as int, c as int).1,
    {
        let (sr, sc): (i32, i32) = self.step();
        let coord: i32 = if self.kind == 1 {
            c as i32
        } else {
            r as i32
        };
        let y: i32 = (coord >> (self.lg as u32)) + self.b;
        proof {
            assert((y & 1 == 0) == (y % 2 == 0)) by (bit_vector);
            let n = self.lg as u32;
            assert(n < 31 ==> (1i32 << n) > 0) by (bit_vector);
        }
        let plus = y & 1 == 0;
        if plus {
            (sr, sc)
        } else {
            (-sr, -sc)
        }
    }
}

impl Batch {
    /// Steps are short, and a partner is never the particle itself.
    pub proof fn lemma_small(self, r: int, c: int)
        requires
            self.wf(),
            0 <= r < i32::MAX,
            0 <= c < i32::MAX,
        ensures
            self.partner_of(r, c) != (0int, 0int),
            -2 <= self.partner_of(r, c).0 <= 2,
            -2 <= self.partner_of(r, c).1 <= 2,
            0 <= self.group(r, c) < i32::MAX,
    {
        lemma_groups(r as i32, self.lg);
        lemma_groups(c as i32, self.lg);
    }
}

/// Strides and groups as numbers.
proof fn lemma_groups(x: i32, lg: i32)
    requires
        0 <= lg <= 1,
    ensures
        stride(lg) == lg + 1,
        lg == 0 ==> x >> (lg as u32) == x,
        lg == 1 ==> x >> (lg as u32) == x as int / 2,
{
    assert(1i32 << 0u32 == 1 && 1i32 << 1u32 == 2 && x >> 0u32 == x && x >> 1u32 == x / 2)
        by (bit_vector);
}

/// Partners are each other's: every particle is in one link of a batch at
/// most, and both ends agree on it.
pub proof fn law_partners_agree(batch: Batch, r: int, c: int)
    requires
        batch.wf(),
        0 <= r < i32::MAX - 1,
        0 <= c < i32::MAX - 1,
    ensures
        ({
            let (dr, dc) = batch.partner_of(r, c);
            batch.partner_of(r + dr, c + dc) == (-dr, -dc)
        }),
{
    let (dr, dc) = batch.partner_of(r, c);
    lemma_groups(r as i32, batch.lg);
    lemma_groups(c as i32, batch.lg);
    lemma_groups((r + dr) as i32, batch.lg);
    lemma_groups((c + dc) as i32, batch.lg);
}

/// Every link along a direction is in exactly one of the two sets.
pub proof fn law_links_split(batch: Batch, r: int, c: int)
    requires
        batch.wf(),
    ensures
        ({
            let other = Batch { b: (1 - batch.b) as i32, ..batch };
            &&& batch.is_ahead(r, c) != other.is_ahead(r, c)
            &&& batch.unit() == other.unit()
        }),
{
}

/// An iteration solves every family of links, both sets of it, with batches
/// that pair particles up.
pub proof fn law_iteration_complete(i: int)
    requires
        0 <= i < 12,
    ensures
        batch_of(i).wf(),
        batch_of(i).k < 3,
        exists|j: int|
            0 <= j < 12 && #[trigger] batch_of(j) == (Batch {
                b: (1 - batch_of(i).b) as i32,
                ..batch_of(i)
            }),
{
    let j = if i % 2 == 0 {
        i + 1
    } else {
        i - 1
    };
    assert(batch_of(j) == (Batch { b: (1 - batch_of(i).b) as i32, ..batch_of(i) }));
}

/// An iteration solves every link of the cloth exactly once. From any particle,
/// each of the twelve particles that it is linked to (one row or column away, one
/// step along a diagonal, or two rows or columns away, on either side) is its
/// partner in exactly one batch, with the stiffness of structural, shear and bend
/// links in this order, and no batch pairs it with any other.
pub proof fn law_every_link_once(r: int, c: int, dr: int, dc: int)
    requires
        0 <= r < 0x4000_0000,
        0 <= c < 0x4000_0000,
    ensures
        ({
            let structural = (dr == 0 && (dc == 1 || dc == -1)) || (dc == 0 && (dr == 1 || dr == -1));
            let shear = (dr == 1 || dr == -1) && (dc == 1 || dc == -1);
            let bend = (dr == 0 && (dc == 2 || dc == -2)) || (dc == 0 && (dr == 2 || dr == -2));
            &&& structural || shear || bend ==> exists|i: int|
                0 <= i < 12 && (#[trigger] batch_of(i)).partner_of(r, c) == (dr, dc)
            &&& forall|i: int|
                0 <= i < 12 && (#[trigger] batch_of(i)).partner_of(r, c) == (dr, dc) ==> {
                    &&& structural || shear || bend
                    &&& structural ==> batch_of(i).k == 0
                    &&& shear ==> batch_of(i).k == 1
                    &&& bend ==> batch_of(i).k == 2
                }
            &&& forall|i: int, j: int|
                0 <= i < 12 && 0 <= j < 12 && (#[trigger] batch_of(i)).partner_of(r, c) == (dr, dc)
                    && (#[trigger] batch_of(j)).partner_of(r, c) == (dr, dc) ==> i == j
        }),
{
    lemma_groups(r as i32, 0);
    lemma_groups(r as i32, 1);
    lemma_groups(c as i32, 0);
    lemma_groups(c as i32, 1);
    // Along a diagonal and up or down it is the row that says which of the two sets
    // a link is in, and from side to side the column.
    let by = if dr == 0 {
        c
    } else {
        r
    };
    let wide = dr == 2 || dr == -2 || dc == 2 || dc == -2;
    let group = if wide {
        by / 2
    } else {
        by
    };
    let family = if dc == 0 {
        0int
    } else if dr == 0 {
        1int
    } else if dr == dc {
        2int
    } else {
        3int
    };
    let ahead = if dr == 0 {
        dc > 0
    } else {
        dr > 0
    };
    let b = if ahead {
        group % 2
    } else {
        1 - group % 2
    };
    let i = 2 * (family + if wide {
        4int
    } else {
        0int
    }) + b;
    let named = batch_of(i);
    assert(batch_of(0).b == 0 && batch_of(1).b == 1);
    assert forall|i: int, j: int|
        0 <= i < 12 && 0 <= j < 12 && (#[trigger] batch_of(i)).partner_of(r, c) == (dr, dc) && (
        #[trigger] batch_of(j)).partner_of(r, c) == (dr, dc) implies i == j by {
        assert(i / 2 == j / 2);
    }
}

/// The pinned particles among the first `n` of the grid, row by row.
pub open spec fn pinned_among(lay: Layout, pins: Pins, n: nat) -> Seq<(usize, usize)>
    decreases n,
{
    if n == 0 {
        seq![]
    } else {
        let i = n - 1;
        let (r, c) = (i / lay.cols as int, i % lay.cols as int);
        let before = pinned_among(lay, pins, i as nat);
        if pins.holds(r, c, lay.cols as int) {
            before.push((r as usize, c as usize))
        } else {
            before
        }
    }
}

/// The pinned particles of a cloth, row by row.
pub fn pinned(lay: &Layout, pins: Pins) -> (out: Vec<(usize, usize)>)
    requires
        lay.rows * lay.cols <= usize::MAX,
    ensures
        out@ == pinned_among(*lay, pins, (lay.rows * lay.cols) as nat),
{
    let mut out: Vec<(usize, usize)> = Vec::new();
    let mut r: usize = 0;
    proof {
        assert(0 * lay.cols == 0) by (nonlinear_arith);
    }
    while r < lay.rows
        invariant
            r <= lay.rows,
            lay.rows * lay.cols <= usize::MAX,
            out@ == pinned_among(*lay, pins, (r * lay.cols) as nat),
        decreases lay.rows - r,
    {
        let mut c: usize = 0;
        while c < lay.cols
            invariant
                r < lay.rows,
                c <= lay.cols,
                out@ == pinned_among(*lay, pins, (r * lay.cols + c) as nat),
            decreases lay.cols - c,
        {
            proof {
                lemma_at(r as int, c as int, r + 1, lay.cols as int);
            }
            if pins.weight(r, c, lay.cols) == 0 {
                out.push((r, c));
            }
            c += 1;
        }
        assert(r * lay.cols + lay.cols == (r + 1) * lay.cols) by (nonlinear_arith);
        r += 1;
    }
    out
}

/// The squared distance between two grid places.
pub open spec fn apart2(r: int, c: int, p: (usize, usize)) -> int {
    (p.0 - r) * (p.0 - r) + (p.1 - c) * (p.1 - c)
}

/// The nearest of several pins, the first of those equally near.
pub fn nearest_pin(pins: &Vec<(usize, usize)>, r: usize, c: usize) -> (n: Option<usize>)
    requires
        r < 0x4000_0000,
        c < 0x4000_0000,
        forall|i: int|
            0 <= i < pins@.len() ==> (#[trigger] pins@[i]).0 < 0x4000_0000 && pins@[i].1
                < 0x4000_0000,
    ensures
        match n {
            Some(k) => {
                &&& k < pins@.len()
                &&& forall|i: int|
                    0 <= i < pins@.len() ==> apart2(r as int, c as int, pins@[k as int]) <= apart2(
                        r as int,
                        c as int,
                        #[trigger] pins@[i],
                    )
                &&& forall|i: int|
                    0 <= i < k ==> apart2(r as int, c as int, pins@[k as int]) < apart2(
                        r as int,
                        c as int,
                        #[trigger] pins@[i],
                    )
            },
            None => pins@.len() == 0,
        },
{
    if pins.len() == 0 {
        return None;
    }
    let mut k: usize = 0;
    let mut best: u64 = measure(r, c, pins[0]);
    let mut i: usize = 1;
    while i < pins.len()
        invariant
            r < 0x4000_0000,
            c < 0x4000_0000,
            forall|i: int|
                0 <= i < pins@.len() ==> (#[trigger] pins@[i]).0 < 0x4000_0000 && pins@[i].1
                    < 0x4000_0000,
            k < i <= pins@.len(),
            best == apart2(r as int, c as int, pins@[k as int]),
            forall|j: int|
                0 <= j < i ==> best <= apart2(r as int, c as int, #[trigger] pins@[j]),
            forall|j: int|
                0 <= j < k ==> best < apart2(r as int, c as int, #[trigger] pins@[j]),
        decreases pins.len() - i,
    {
        let d: u64 = measure(r, c, pins[i]);
        if d < best {
            k = i;
            best = d;
        }
        i += 1;
    }
    Some(k)
}

/// The squared distance between two grid places.
fn measure(r: usize, c: usize, p: (usize, usize)) -> (d: u64)
    requires
        r < 0x4000_0000,
        c < 0x4000_0000,
        p.0 < 0x4000_0000,
        p.1 < 0x4000_0000,
    ensures
        d == apart2(r as int, c as int, p),
{
    let dr: i64 = p.0 as i64 - r as i64;
    let dc: i64 = p.1 as i64 - c as i64;
    assert(0 <= dr * dr <= 0x1000_0000_0000_0000) by (nonlinear_arith)
        requires
            -0x4000_0000 <= dr <= 0x4000_0000,
    ;
    assert(0 <= dc * dc <= 0x1000_0000_0000_0000) by (nonlinear_arith)
        requires
            -0x4000_0000 <= dc <= 0x4000_0000,
    ;
    (dr * dr + dc * dc) as u64
}

/// Which of the two cloth colors a particle has: a checkerboard of squares of
/// 16 by 16 particles.
pub fn is_first_color(r: usize, c: usize) -> (b: bool)
    ensures
        b == ((r / 16 + c / 16) % 2 == 0),
{
    (r / 16 + c / 16) % 2 == 0
}

/// The order in which an iteration solves the links: down, across, along both diagonals,
/// and two steps down and across, first the links that start in even rows (or columns, or
/// pairs of them) and then the others.
pub proof fn law_batches_in_order(all: [Batch; 12], i: int, r: int, c: int)
    requires
        call_ensures(Batch::iteration, (), all),
        0 <= i < 12,
        0 <= r < 0x4000_0000,
        0 <= c < 0x4000_0000,
    ensures
        ({
            let way = seq![(1int, 0int), (0, 1), (1, 1), (1, -1), (2, 0), (0, 2)][i / 2];
            let place = if i / 2 == 0 || i / 2 == 2 || i / 2 == 3 {
                r
            } else if i / 2 == 1 {
                c
            } else if i / 2 == 4 {
                r / 2
            } else {
                c / 2
            };
            let partner = all@[i].partner_of(r, c);
            &&& place % 2 == i % 2 ==> partner == way
            &&& place % 2 != i % 2 ==> partner == (-way.0, -way.1)
            &&& all@[i].k == i / 2 / 2
        }),
{
    lemma_groups(r as i32, 0);
    lemma_groups(r as i32, 1);
    lemma_groups(c as i32, 0);
    lemma_groups(c as i32, 1);
    assert(all@[i] == batch_of(i));
    let ways = seq![(1int, 0int), (0, 1), (1, 1), (1, -1), (2, 0), (0, 2)];
    assert(ways[0] == (1int, 0int) && ways[1] == (0int, 1int) && ways[2] == (1int, 1int) && ways[3]
        == (1int, -1int) && ways[4] == (2int, 0int) && ways[5] == (0int, 2int));
}

/// Which particles a pattern pins: all of the top row, every sixteenth one and the last,
/// both ends of it, or none. Nothing below the top row is ever pinned.
pub proof fn law_pins(pins: Pins, r: usize, c: usize, cols: usize, w: u32)
    requires
        c < cols,
        call_ensures(Pins::weight, (pins, r, c, cols), w),
    ensures
        w == 0 || w == 1,
        w == 0 <==> pins.holds(r as int, c as int, cols as int),
        r > 0 ==> w == 1,
        r == 0 && pins is Top ==> w == 0,
        r == 0 && pins is Sparse ==> (w == 0 <==> c % 16 == 0 || c + 1 == cols),
        r == 0 && pins is Corners ==> (w == 0 <==> c == 0 || c + 1 == cols),
        pins is Free ==> w == 1,
        pins.title() == match pins {
            Pins::Top => "top row"@,
            Pins::Sparse => "sparse"@,
            Pins::Corners => "corners"@,
            Pins::Free => "free"@,
        },
{
}

/// The list of pins goes through the particles row by row, and takes up those that are
/// pinned.
pub proof fn law_one_pin_more(lay: Layout, pins: Pins, r: int, c: int)
    requires
        0 <= r < lay.rows,
        0 <= c < lay.cols,
    ensures
        ({
            let n = (r * lay.cols + c) as nat;
            let (old, new) = (pinned_among(lay, pins, n), pinned_among(lay, pins, n + 1));
            &&& pins.holds(r, c, lay.cols as int) ==> new == old.push((r as usize, c as usize))
            &&& !pins.holds(r, c, lay.cols as int) ==> new == old
        }),
        pinned_among(lay, pins, 0).len() == 0,
{
    lemma_at(r, c, lay.rows as int, lay.cols as int);
    let n = (r * lay.cols + c) as nat;
    assert(n as int == at(r, c, lay.cols as int));
    assert(n as int / lay.cols as int == r && n as int % lay.cols as int == c);
}

/// Distances to pins are straight ones.
pub proof fn law_pin_distance(r: int, c: int, p: (usize, usize))
    ensures
        apart2(r, c, p) == (r - p.0) * (r - p.0) + (c - p.1) * (c - p.1),
        apart2(r, c, p) >= 0,
        apart2(r, c, p) == 0 <==> r == p.0 && c == p.1,
{
    let (x, y) = (r - p.0, c - p.1);
    assert((p.0 - r) * (p.0 - r) == x * x && (p.1 - c) * (p.1 - c) == y * y) by (nonlinear_arith)
        requires
            x == r - p.0,
            y == c - p.1,
    ;
    assert(x * x >= 0 && y * y >= 0 && (x * x == 0 ==> x == 0) && (y * y == 0 ==> y == 0) && 0 * 0
        == 0) by (nonlinear_arith);
}

/// A buffer is a grid with one tile of ghosts on every side.
pub proof fn law_buffer_size(lay: Layout, r: int, c: int)
    ensures
        lay.height() == lay.rows + 64,
        lay.width() == lay.cols + 64,
        lay.size() == (lay.rows + 64) * (lay.cols + 64),
        lay.inside(r, c) <==> 32 <= r < lay.rows + 32 && 32 <= c < lay.cols + 32,
{
}

/// Strides double with every step of `lg`, and so do the groups that alternate: one
/// stride larger, two groups are one.
pub proof fn law_strides_double(batch: Batch, next: Batch, r: int, c: int)
    requires
        0 <= batch.lg < 29,
        next == (Batch { lg: (batch.lg + 1) as i32, ..batch }),
        0 <= r <= i32::MAX,
        0 <= c <= i32::MAX,
    ensures
        batch.lg == 0 ==> stride(batch.lg) == 1,
        stride(next.lg) == 2 * stride(batch.lg),
        batch.kind == 0 ==> batch.unit() == (stride(batch.lg) as int, 0int),
        batch.kind == 1 ==> batch.unit() == (0int, stride(batch.lg) as int),
        batch.kind == 2 ==> batch.unit() == (1int, 1int),
        batch.kind == 3 ==> batch.unit() == (1int, -1int),
        next.group(r, c) == batch.group(r, c) as int / 2,
        batch.lg == 0 ==> batch.group(r, c) == (if batch.kind == 1 {
            c
        } else {
            r
        }),
        batch.is_ahead(r, c) <==> (batch.group(r, c) + batch.b) % 2 == 0,
        batch.is_ahead(r, c) ==> batch.partner_of(r, c) == batch.unit(),
        !batch.is_ahead(r, c) ==> batch.partner_of(r, c) == (-batch.unit().0, -batch.unit().1),
{
    let n = batch.lg as u32;
    let m = next.lg as u32;
    let x = if batch.kind == 1 {
        c as i32
    } else {
        r as i32
    };
    assert({
        &&& n < 29 && m == n + 1 ==> (1i32 << m) == 2 * (1i32 << n)
        &&& 0 <= x && n < 29 && m == n + 1 ==> (x >> m) == (x >> n) / 2 && (x >> n) >= 0
        &&& (1i32 << 0u32) == 1
        &&& (x >> 0u32) == x
    }) by (bit_vector);
}

/// The parameters fill the buffer in their order, but for four slots that are free after
/// the spacing.
pub proof fn law_slots_in_order(i: int)
    requires
        0 <= i < slots().len() - 1,
    ensures
        slots()[0].0 == 0,
        i != 8 ==> slots()[i].0 + slots()[i].1 == slots()[i + 1].0,
        i == 8 ==> slots()[i].0 + slots()[i].1 + 4 == slots()[i + 1].0,
        slots().len() == 15,
        slots()[8].0 == P_SPACING,
{
}

} // verus!
