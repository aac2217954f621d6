//! The block rules, and one Margolus pass over a whole buffer.
//!
//! A cellular automaton where cells *move* can't be a plain stencil: two cells
//! would try to fall into the same spot. So the grid is cut into 2x2 blocks,
//! each block is updated on its own, and the cut shifts by one cell on
//! alternate passes so blocks talk to their neighbors.
use crate::grid::{at, crop, crop_fits, cropped, lemma_at, lemma_cell_of};
use crate::parallel::par_map;
use crate::sand::world::{
    Layout, cell, cell_of, kind, kind_of, DIR, EMBER, EMPTY, FIRE, OIL, PAINT, SAND, SMOKE, TILE,
    WALL, WATER, WOOD,
};
use vstd::prelude::*;

verus! {

/// How readily an element sinks. Solids never move; gases rise through empty
/// space because empty (2) is "heavier" than they are.
pub open spec fn weight_of(kind: i32) -> i32 {
    if kind == SMOKE {
        0
    } else if kind == FIRE {
        1
    } else if kind == EMPTY {
        2
    } else if kind == OIL {
        3
    } else if kind == WATER {
        4
    } else if kind == SAND {
        5
    } else {
        9
    }
}

pub open spec fn is_solid(kind: i32) -> bool {
    kind == WOOD || kind == WALL || kind == EMBER
}

pub open spec fn is_liquid(kind: i32) -> bool {
    kind == WATER || kind == OIL
}

/// Powders and liquids.
pub open spec fn is_falling(kind: i32) -> bool {
    kind == SAND || kind == WATER || kind == OIL
}

pub open spec fn is_rising(kind: i32) -> bool {
    kind == FIRE || kind == SMOKE
}

/// Fluids and empty space.
pub open spec fn is_spreading(kind: i32) -> bool {
    kind == EMPTY || kind == WATER || kind == OIL || kind == FIRE || kind == SMOKE
}

/// How readily a cell sinks.
pub fn density(kind: i32) -> (d: i32)
    ensures
        d == weight_of(kind),
{
    if kind == SMOKE {
        0
    } else if kind == FIRE {
        1
    } else if kind == EMPTY {
        2
    } else if kind == OIL {
        3
    } else if kind == WATER {
        4
    } else if kind == SAND {
        5
    } else {
        9
    }
}

pub fn solid(kind: i32) -> (b: bool)
    ensures
        b == is_solid(kind),
{
    kind == WOOD || kind == WALL || kind == EMBER
}

pub fn liquid(kind: i32) -> (b: bool)
    ensures
        b == is_liquid(kind),
{
    kind == WATER || kind == OIL
}

/// Falls straight down and slides diagonally: powders and liquids.
pub fn falls(kind: i32) -> (b: bool)
    ensures
        b == is_falling(kind),
{
    kind == SAND || kind == WATER || kind == OIL
}

/// Rises, the mirror image of `falls`.
pub fn rises(kind: i32) -> (b: bool)
    ensures
        b == is_rising(kind),
{
    kind == FIRE || kind == SMOKE
}

/// May trade places sideways: fluids and empty space, but not powders.
pub fn spreads(kind: i32) -> (b: bool)
    ensures
        b == is_spreading(kind),
{
    kind == EMPTY || kind == WATER || kind == OIL || kind == FIRE || kind == SMOKE
}

/// Multipliers of the hash.
pub const MIX_1: i32 = 0x7feb_352d;

pub const MIX_2: i32 = -2073254261;

/// The lowbias32 hash (Chris Wellons), with arithmetic shifts.
pub open spec fn hashed(x: i32) -> i32 {
    let x = x ^ (x >> 16);
    let x = x.wrapping_mul(MIX_1);
    let x = x ^ (x >> 15);
    let x = x.wrapping_mul(MIX_2);
    x ^ (x >> 16)
}

/// lowbias32 (Chris Wellons).
pub fn hash(x: i32) -> (h: i32)
    ensures
        h == hashed(x),
{
    let x = x ^ (x >> 16);
    let x = x.wrapping_mul(MIX_1);
    let x = x ^ (x >> 15);
    let x = x.wrapping_mul(MIX_2);
    x ^ (x >> 16)
}

/// The random word of block `(bx, by)` in the pass salted by `salt`.
pub open spec fn block_word(bx: i32, by: i32, salt: i32) -> i32 {
    hashed(bx ^ hashed(by ^ hashed(salt)))
}

/// One random word per block per pass.
pub fn block_random(bx: i32, by: i32, salt: i32) -> (r: i32)
    ensures
        r == block_word(bx, by, salt),
{
    hash(bx ^ hash(by ^ hash(salt)))
}

/// Whether one of three cells is of element `k`.
pub open spec fn touches(o1: i32, o2: i32, o3: i32, k: i32) -> bool {
    kind_of(o1) == k || kind_of(o2) == k || kind_of(o3) == k
}

/// What a cell turns into beside three others, by the chance `byte`. New
/// matter takes its shade from the upper half of the byte.
pub open spec fn reacted(x: i32, o1: i32, o2: i32, o3: i32, byte: i32) -> i32 {
    let k = kind_of(x);
    let wet = touches(o1, o2, o3, WATER);
    let embers = touches(o1, o2, o3, EMBER);
    let hot = touches(o1, o2, o3, FIRE) || embers;
    let shade = byte >> 4;
    if k == FIRE && (wet || byte < 16) {
        cell_of(SMOKE, shade)
    } else if k == FIRE && byte < 20 {
        EMPTY
    } else if k == EMPTY && embers && byte < 48 {
        cell_of(FIRE, shade)
    } else if k == OIL && hot && byte < 128 {
        cell_of(FIRE, shade)
    } else if k == WOOD && hot && byte < 40 {
        cell_of(EMBER, shade)
    } else if k == EMBER && wet {
        cell_of(WOOD, shade)
    } else if k == EMBER && byte < 6 {
        cell_of(SMOKE, shade)
    } else if k == SMOKE && byte < 4 {
        EMPTY
    } else {
        x
    }
}

/// What one cell turns into, given the other three cells of its block and a
/// random byte. `byte >> 4` is the shade of anything new.
pub fn react(x: i32, o1: i32, o2: i32, o3: i32, byte: i32) -> (v: i32)
    ensures
        v == reacted(x, o1, o2, o3, byte),
{
    let k = kind(x);
    let (k1, k2, k3): (i32, i32, i32) = (kind(o1), kind(o2), kind(o3));
    let near_fire = k1 == FIRE || k2 == FIRE || k3 == FIRE;
    let near_ember = k1 == EMBER || k2 == EMBER || k3 == EMBER;
    let near_water = k1 == WATER || k2 == WATER || k3 == WATER;
    let shade = byte >> 4;
    let fire = cell(FIRE, shade);
    let smoke = cell(SMOKE, shade);
    if k == FIRE {
        if near_water || byte < 16 {
            smoke
        } else if byte < 20 {
            EMPTY
        } else {
            x
        }
    } else if k == EMPTY {
        if near_ember && byte < 48 {
            fire
        } else {
            x
        }
    } else if k == OIL {
        if (near_fire || near_ember) && byte < 128 {
            fire
        } else {
            x
        }
    } else if k == WOOD {
        if (near_fire || near_ember) && byte < 40 {
            cell(EMBER, shade)
        } else {
            x
        }
    } else if k == EMBER {
        if near_water {
            cell(WOOD, shade)
        } else if byte < 6 {
            smoke
        } else {
            x
        }
    } else if k == SMOKE {
        if byte < 4 {
            EMPTY
        } else {
            x
        }
    } else {
        x
    }
}

/// Whether `top` is denser than `bottom` and neither is solid.
pub open spec fn sinking(top: i32, bottom: i32) -> bool {
    let (kt, kb) = (kind_of(top), kind_of(bottom));
    !is_solid(kt) && !is_solid(kb) && weight_of(kt) > weight_of(kb)
}

/// Whether a powder or liquid moves diagonally down into something lighter.
pub open spec fn sliding_down(x: i32, into: i32) -> bool {
    let (kx, ki) = (kind_of(x), kind_of(into));
    is_falling(kx) && !is_solid(ki) && weight_of(ki) < weight_of(kx)
}

/// Whether a gas moves diagonally up into something heavier.
pub open spec fn sliding_up(x: i32, into: i32) -> bool {
    let (kx, ki) = (kind_of(x), kind_of(into));
    is_rising(kx) && !is_solid(ki) && weight_of(ki) > weight_of(kx)
}

/// `top` sinks into `bottom`.
fn sinks(top: i32, bottom: i32) -> (b: bool)
    ensures
        b == sinking(top, bottom),
{
    let (kt, kb): (i32, i32) = (kind(top), kind(bottom));
    !solid(kt) && !solid(kb) && density(kt) > density(kb)
}

/// `x` slides diagonally into `into` (a powder or liquid moving down, or a gas
/// moving up: `up` says which).
fn slides(x: i32, into: i32, up: bool) -> (b: bool)
    ensures
        b == if up {
            sliding_up(x, into)
        } else {
            sliding_down(x, into)
        },
{
    let (kx, ki): (i32, i32) = (kind(x), kind(into));
    let moves = if up {
        rises(kx)
    } else {
        falls(kx)
    };
    let lighter = if up {
        density(ki) > density(kx)
    } else {
        density(ki) < density(kx)
    };
    moves && !solid(ki) && lighter
}

/// Whether `x` is a liquid that heads right and did not just fall.
pub open spec fn heads_right(x: i32, fell: bool) -> bool {
    is_liquid(kind_of(x)) && x & DIR != 0 && !fell
}

/// Whether `y` is a liquid that heads left and did not just fall.
pub open spec fn heads_left(y: i32, fell: bool) -> bool {
    is_liquid(kind_of(y)) && y & DIR == 0 && !fell
}

/// Whether a cell stays where it is because it has just moved vertically. Empty
/// space that was left behind does not.
pub open spec fn rests(x: i32, fell: bool) -> bool {
    fell && kind_of(x) != EMPTY
}

/// Whether the pair `x` (left), `y` (right) trades places.
pub open spec fn trades(x: i32, y: i32, x_fell: bool, y_fell: bool, bit: bool) -> bool {
    let (kx, ky) = (kind_of(x), kind_of(y));
    &&& is_spreading(kx) && is_spreading(ky) && kx != ky
    &&& !rests(x, x_fell) && !rests(y, y_fell)
    &&& heads_right(x, x_fell) || heads_left(y, y_fell) || (!is_liquid(kx) && !is_liquid(ky) && bit)
}

/// Sideways movement of a pair: liquids keep going in their direction while
/// they can and turn around when they can't; gases wander at random. Cells that
/// just moved vertically stay put.
pub open spec fn flowed(x: i32, y: i32, x_fell: bool, y_fell: bool, bit: bool) -> (i32, i32) {
    if trades(x, y, x_fell, y_fell, bit) {
        (y, x)
    } else {
        (
            if heads_right(x, x_fell) {
                x ^ DIR
            } else {
                x
            },
            if heads_left(y, y_fell) {
                y ^ DIR
            } else {
                y
            },
        )
    }
}

/// Sideways movement for the pair `x` (left), `y` (right). A liquid that
/// didn't just fall keeps going in its `DIR` direction while it can and turns
/// around when it can't. Gases wander at random. Cells that just moved
/// vertically stay put.
fn flow(x: i32, y: i32, x_fell: bool, y_fell: bool, bit: bool) -> (p: (i32, i32))
    ensures
        p == flowed(x, y, x_fell, y_fell, bit),
{
    let (kx, ky): (i32, i32) = (kind(x), kind(y));
    let open = spreads(kx) && spreads(ky) && kx != ky;
    let x_right = liquid(kx) && x & DIR != 0 && !x_fell;
    let y_left = liquid(ky) && y & DIR == 0 && !y_fell;
    let gas_pair = !liquid(kx) && !liquid(ky);
    let rested = (x_fell && kx != EMPTY) || (y_fell && ky != EMPTY);
    if open && !rested && (x_right || y_left || (gas_pair && bit)) {
        (y, x)
    } else {
        (
            if x_right {
                x ^ DIR
            } else {
                x
            },
            if y_left {
                y ^ DIR
            } else {
                y
            },
        )
    }
}

/// A 2x2 block, `a b` over `c d`, with a mark on each cell that moved
/// vertically in this pass.
#[derive(Clone, Copy, Debug)]
pub struct Block {
    pub a: i32,
    pub b: i32,
    pub c: i32,
    pub d: i32,
    pub fell_a: bool,
    pub fell_b: bool,
    pub fell_c: bool,
    pub fell_d: bool,
}

impl Block {
    /// The four cells, row by row.
    pub open spec fn cells(self) -> Seq<i32> {
        seq![self.a, self.b, self.c, self.d]
    }

    /// Reactions, one cell after the other, each with its own byte of `r`.
    pub open spec fn after_reactions(a: i32, b: i32, c: i32, d: i32, r: i32) -> Block {
        let a = reacted(a, b, c, d, r & 255);
        let b = reacted(b, a, c, d, (r >> 8) & 255);
        let c = reacted(c, a, b, d, (r >> 16) & 255);
        let d = reacted(d, a, b, c, (r >> 24) & 255);
        Block { a, b, c, d, fell_a: false, fell_b: false, fell_c: false, fell_d: false }
    }

    pub open spec fn swap_ac(self) -> Block {
        Block { a: self.c, c: self.a, fell_a: true, fell_c: true, ..self }
    }

    pub open spec fn swap_bd(self) -> Block {
        Block { b: self.d, d: self.b, fell_b: true, fell_d: true, ..self }
    }

    pub open spec fn swap_ad(self) -> Block {
        Block { a: self.d, d: self.a, fell_a: true, fell_d: true, ..self }
    }

    pub open spec fn swap_bc(self) -> Block {
        Block { b: self.c, c: self.b, fell_b: true, fell_c: true, ..self }
    }

    /// Gravity in the two columns.
    #[verifier::opaque]
    pub open spec fn after_gravity(self) -> Block {
        let s = if sinking(self.a, self.c) {
            self.swap_ac()
        } else {
            self
        };
        if sinking(s.b, s.d) {
            s.swap_bd()
        } else {
            s
        }
    }

    #[verifier::opaque]
    pub open spec fn slide_a(self) -> Block {
        if sliding_down(self.a, self.d) {
            self.swap_ad()
        } else {
            self
        }
    }

    #[verifier::opaque]
    pub open spec fn slide_b(self) -> Block {
        if sliding_down(self.b, self.c) {
            self.swap_bc()
        } else {
            self
        }
    }

    #[verifier::opaque]
    pub open spec fn slide_c(self) -> Block {
        if sliding_up(self.c, self.b) {
            self.swap_bc()
        } else {
            self
        }
    }

    #[verifier::opaque]
    pub open spec fn slide_d(self) -> Block {
        if sliding_up(self.d, self.a) {
            self.swap_ad()
        } else {
            self
        }
    }

    /// Diagonal slides, down and then up, the left cell first or second.
    pub open spec fn after_slides(self, left_first: bool) -> Block {
        if left_first {
            self.slide_a().slide_b().slide_c().slide_d()
        } else {
            self.slide_b().slide_a().slide_d().slide_c()
        }
    }

    /// Sideways flow of the top pair and of the bottom pair.
    #[verifier::opaque]
    pub open spec fn after_flow(self, top: bool, bottom: bool) -> Block {
        let t = flowed(self.a, self.b, self.fell_a, self.fell_b, top);
        let u = flowed(self.c, self.d, self.fell_c, self.fell_d, bottom);
        Block { a: t.0, b: t.1, c: u.0, d: u.1, ..self }
    }

    /// Trade `a` and `c`, and remember that they moved vertically.
    fn trade_ac(self) -> (s: Block)
        ensures
            s == self.swap_ac(),
    {
        Block { a: self.c, c: self.a, fell_a: true, fell_c: true, ..self }
    }

    /// Trade `b` and `d`, and remember that they moved vertically.
    fn trade_bd(self) -> (s: Block)
        ensures
            s == self.swap_bd(),
    {
        Block { b: self.d, d: self.b, fell_b: true, fell_d: true, ..self }
    }

    /// Trade `a` and `d`, and remember that they moved vertically.
    fn trade_ad(self) -> (s: Block)
        ensures
            s == self.swap_ad(),
    {
        Block { a: self.d, d: self.a, fell_a: true, fell_d: true, ..self }
    }

    /// Trade `b` and `c`, and remember that they moved vertically.
    fn trade_bc(self) -> (s: Block)
        ensures
            s == self.swap_bc(),
    {
        Block { b: self.c, c: self.b, fell_b: true, fell_c: true, ..self }
    }
}

/// One pass on a 2x2 block: reactions, gravity, slides, flow. The random word
/// drives the reactions, its hash the order of the slides and the gases.
#[verifier::opaque]
pub open spec fn updated(a: i32, b: i32, c: i32, d: i32, r: i32) -> Seq<i32> {
    let r2 = hashed(r);
    Block::after_reactions(a, b, c, d, r).after_gravity().after_slides(r2 & 1 == 0).after_flow(
        (r2 >> 1) & 1 == 1,
        (r2 >> 2) & 1 == 1,
    ).cells()
}

/// One pass on a 2x2 block: `[a, b]` over `[c, d]`. Reactions first, and then
/// gravity, diagonal slides, and sideways spreading.
pub fn update(a: i32, b: i32, c: i32, d: i32, r: i32) -> (out: [i32; 4])
    ensures
        out@ == updated(a, b, c, d, r),
{
    let a1 = react(a, b, c, d, r & 255);
    let b1 = react(b, a1, c, d, (r >> 8) & 255);
    let c1 = react(c, a1, b1, d, (r >> 16) & 255);
    let d1 = react(d, a1, b1, c1, (r >> 24) & 255);
    let r2 = hash(r);
    let s = Block {
        a: a1,
        b: b1,
        c: c1,
        d: d1,
        fell_a: false,
        fell_b: false,
        fell_c: false,
        fell_d: false,
    };
    // Gravity.
    let s = if sinks(s.a, s.c) {
        s.trade_ac()
    } else {
        s
    };
    let s = if sinks(s.b, s.d) {
        s.trade_bd()
    } else {
        s
    };
    // Diagonals, in a random order so piles don't lean.
    let left_first = r2 & 1 == 0;
    let s = if left_first && slides(s.a, s.d, false) {
        s.trade_ad()
    } else {
        s
    };
    let s = if slides(s.b, s.c, false) {
        s.trade_bc()
    } else {
        s
    };
    let s = if !left_first && slides(s.a, s.d, false) {
        s.trade_ad()
    } else {
        s
    };
    let s = if left_first && slides(s.c, s.b, true) {
        s.trade_bc()
    } else {
        s
    };
    let s = if slides(s.d, s.a, true) {
        s.trade_ad()
    } else {
        s
    };
    let s = if !left_first && slides(s.c, s.b, true) {
        s.trade_bc()
    } else {
        s
    };
    // Sideways.
    let top = flow(s.a, s.b, s.fell_a, s.fell_b, (r2 >> 1) & 1 == 1);
    let bottom = flow(s.c, s.d, s.fell_c, s.fell_d, (r2 >> 2) & 1 == 1);
    let out = [top.0, top.1, bottom.0, bottom.1];
    proof {
        reveal(updated);
        reveal(Block::after_gravity);
        reveal(Block::slide_a);
        reveal(Block::slide_b);
        reveal(Block::slide_c);
        reveal(Block::slide_d);
        reveal(Block::after_flow);
        assert(out@ =~= updated(a, b, c, d, r));
    }
    out
}

/// Where the blocks of a pass start: at even rows and columns, or at odd ones.
pub open spec fn offset(pass: i32) -> int {
    (pass & 1) as int
}

/// The first of the two rows (or columns) of the block that `x` falls in.
pub open spec fn corner(x: int, pass: i32) -> int {
    x - (x - offset(pass)) % 2
}

/// Whether cell `(r, c)` lies in a whole block of the pass.
pub open spec fn in_block(len: int, cols: int, pass: i32, r: int, c: int) -> bool {
    &&& offset(pass) <= r
    &&& offset(pass) <= c
    &&& at(corner(r, pass) + 2, 0, cols) <= len
    &&& corner(c, pass) + 2 <= cols
}

/// The block with corner `(r0, c0)` after a pass.
#[verifier::opaque]
pub open spec fn block_after(src: Seq<i32>, cols: int, salt: i32, r0: int, c0: int) -> Seq<i32> {
    updated(
        src[at(r0, c0, cols)],
        src[at(r0, c0 + 1, cols)],
        src[at(r0 + 1, c0, cols)],
        src[at(r0 + 1, c0 + 1, cols)],
        block_word((c0 / 2) as i32, (r0 / 2) as i32, salt),
    )
}

/// Cell `(r, c)` after a pass: its corner of its updated block inside the
/// world, what it was everywhere else.
#[verifier::opaque]
pub open spec fn cell_after(lay: Layout, src: Seq<i32>, pass: i32, salt: i32, r: int, c: int) -> i32 {
    let cols = lay.width();
    let (r0, c0) = (corner(r, pass), corner(c, pass));
    if in_block(src.len() as int, cols, pass, r, c) && lay.inside(r, c) {
        block_after(src, cols, salt, r0, c0)[2 * (r - r0) + (c - c0)]
    } else {
        src[at(r, c, cols)]
    }
}

/// Row `r` of a buffer after a pass.
pub open spec fn row_after(lay: Layout, src: Seq<i32>, pass: i32, salt: i32, r: int) -> Seq<i32> {
    Seq::new(lay.width() as nat, |c: int| cell_after(lay, src, pass, salt, r, c))
}

/// The two rows of a row of blocks.
pub struct Lines {
    pub top: Vec<i32>,
    pub bottom: Vec<i32>,
}

/// Whether a pair of lines holds rows `r` and `r + 1` after a pass.
pub open spec fn holds_rows(
    lines: Lines,
    lay: Layout,
    src: Seq<i32>,
    pass: i32,
    salt: i32,
    r: int,
) -> bool {
    &&& lines.top@ == row_after(lay, src, pass, salt, r)
    &&& lines.bottom@ == row_after(lay, src, pass, salt, r + 1)
}

/// A whole buffer after a pass.
pub open spec fn stepped(lay: Layout, src: Seq<i32>, pass: i32, salt: i32) -> Seq<i32> {
    Seq::new(
        src.len(),
        |i: int| cell_after(lay, src, pass, salt, i / lay.width(), i % lay.width()),
    )
}

proof fn lemma_parity(pass: i32)
    ensures
        0 <= pass & 1 <= 1,
{
    assert(0 <= (pass & 1) <= 1) by (bit_vector);
}

/// The four cells of the block with corner `(r0, c0)` after a pass.
proof fn lemma_block(lay: Layout, src: Seq<i32>, pass: i32, salt: i32, r0: int, c0: int, dr: int, dc: int)
    requires
        r0 >= offset(pass),
        c0 >= offset(pass),
        (r0 - offset(pass)) % 2 == 0,
        (c0 - offset(pass)) % 2 == 0,
        at(r0 + 2, 0, lay.width()) <= src.len(),
        c0 + 2 <= lay.width(),
        0 <= dr <= 1,
        0 <= dc <= 1,
    ensures
        cell_after(lay, src, pass, salt, r0 + dr, c0 + dc) == if lay.inside(r0 + dr, c0 + dc) {
            block_after(src, lay.width(), salt, r0, c0)[2 * dr + dc]
        } else {
            src[at(r0 + dr, c0 + dc, lay.width())]
        },
{
    reveal(cell_after);
    lemma_parity(pass);
    assert(corner(r0 + dr, pass) == r0);
    assert(corner(c0 + dc, pass) == c0);
}

/// Cells outside every whole block stay as they are.
proof fn lemma_leftover(lay: Layout, src: Seq<i32>, pass: i32, salt: i32, r: int, c: int)
    requires
        !in_block(src.len() as int, lay.width(), pass, r, c),
    ensures
        cell_after(lay, src, pass, salt, r, c) == src[at(r, c, lay.width())],
{
    reveal(cell_after);
}

/// The block with corner `(r0, c0)` after a pass; row `r0` starts at `base`.
fn new_block(src: &[i32], cols: usize, salt: i32, r0: usize, c0: usize, base: usize) -> (new: [i32; 4])
    requires
        base == at(r0 as int, 0, cols as int),
        base + 2 * cols <= src@.len(),
        c0 + 2 <= cols,
    ensures
        new@ == block_after(src@, cols as int, salt, r0 as int, c0 as int),
{
    let len: usize = src.len();
    let r = block_random((c0 / 2) as i32, (r0 / 2) as i32, salt);
    proof {
        reveal(block_after);
        assert((r0 + 1) * cols == r0 * cols + cols) by (nonlinear_arith);
    }
    update(
        src[base + c0],
        src[base + c0 + 1],
        src[base + cols + c0],
        src[base + cols + c0 + 1],
        r,
    )
}

/// The two rows of cells that start at row `r0`, after the pass.
fn block_row(lay: &Layout, src: &[i32], pass: i32, salt: i32, r0: usize) -> (lines: Lines)
    requires
        lay.height() <= usize::MAX,
        2 * lay.width() <= usize::MAX,
        r0 >= offset(pass),
        (r0 - offset(pass)) % 2 == 0,
        at(r0 + 2, 0, lay.width()) <= src@.len(),
    ensures
        holds_rows(lines, *lay, src@, pass, salt, r0 as int),
{
    let cols: usize = lay.buf_cols();
    let len: usize = src.len();
    let ghost w = lay.width();
    proof {
        lemma_parity(pass);
        assert((r0 + 2) * w == r0 * w + w + w) by (nonlinear_arith);
        assert((r0 + 1) * w == r0 * w + w) by (nonlinear_arith);
        assert(r0 <= r0 * w) by (nonlinear_arith)
            requires
                r0 >= 0,
                w >= 1,
        ;
    }
    let base: usize = r0 * cols;
    let mut top: Vec<i32> = Vec::with_capacity(cols);
    let mut bottom: Vec<i32> = Vec::with_capacity(cols);
    let mut j: usize = 0;
    while j < cols
        invariant
            base + 2 * cols <= len,
            len == src@.len(),
            j <= cols,
            top@.len() == j,
            bottom@.len() == j,
            forall|k: int| 0 <= k < j ==> #[trigger] top@[k] == src@[base + k],
            forall|k: int| 0 <= k < j ==> #[trigger] bottom@[k] == src@[base + cols + k],
        decreases cols - j,
    {
        top.push(src[base + j]);
        bottom.push(src[base + cols + j]);
        j += 1;
    }
    let parity: usize = (pass & 1) as usize;
    let mut c0: usize = parity;
    proof {
        if parity == 1 {
            lemma_leftover(*lay, src@, pass, salt, r0 as int, 0);
            lemma_leftover(*lay, src@, pass, salt, r0 + 1, 0);
        }
    }
    while c0 + 1 < cols
        invariant
            cols == w,
            w == lay.width(),
            2 * cols <= usize::MAX,
            lay.height() <= usize::MAX,
            base == at(r0 as int, 0, w),
            base + cols == at(r0 + 1, 0, w),
            at(r0 + 2, 0, w) == base + 2 * w,
            base + 2 * cols <= len,
            len == src@.len(),
            r0 + 1 <= usize::MAX,
            top@.len() == cols,
            bottom@.len() == cols,
            parity == offset(pass),
            0 <= parity <= 1,
            parity <= c0 <= cols,
            (c0 - parity) % 2 == 0,
            r0 >= offset(pass),
            (r0 - offset(pass)) % 2 == 0,
            forall|k: int|
                0 <= k < c0 ==> #[trigger] top@[k] == cell_after(*lay, src@, pass, salt, r0 as int, k),
            forall|k: int|
                0 <= k < c0 ==> #[trigger] bottom@[k] == cell_after(
                    *lay,
                    src@,
                    pass,
                    salt,
                    r0 + 1,
                    k,
                ),
            forall|k: int| c0 <= k < cols ==> #[trigger] top@[k] == src@[base + k],
            forall|k: int| c0 <= k < cols ==> #[trigger] bottom@[k] == src@[base + cols + k],
        decreases cols - c0,
    {
        let new = new_block(src, cols, salt, r0, c0, base);
        proof {
            lemma_block(*lay, src@, pass, salt, r0 as int, c0 as int, 0, 0);
            lemma_block(*lay, src@, pass, salt, r0 as int, c0 as int, 0, 1);
            lemma_block(*lay, src@, pass, salt, r0 as int, c0 as int, 1, 0);
            lemma_block(*lay, src@, pass, salt, r0 as int, c0 as int, 1, 1);
        }
        if lay.is_world(r0, c0) {
            top.set(c0, new[0]);
        }
        if lay.is_world(r0, c0 + 1) {
            top.set(c0 + 1, new[1]);
        }
        if lay.is_world(r0 + 1, c0) {
            bottom.set(c0, new[2]);
        }
        if lay.is_world(r0 + 1, c0 + 1) {
            bottom.set(c0 + 1, new[3]);
        }
        c0 += 2;
    }
    proof {
        // The column after the last whole block stays as it is.
        if c0 < w {
            lemma_leftover(*lay, src@, pass, salt, r0 as int, c0 as int);
            lemma_leftover(*lay, src@, pass, salt, r0 + 1, c0 as int);
        }
    }
    assert(top@ =~= row_after(*lay, src@, pass, salt, r0 as int));
    assert(bottom@ =~= row_after(*lay, src@, pass, salt, r0 + 1));
    Lines { top, bottom }
}

/// Every row of whole blocks lies inside the buffer.
proof fn lemma_block_rows(len: int, parity: int, n: int, w: int)
    requires
        0 <= parity,
        0 < w,
        0 <= n,
        len <= usize::MAX,
        n * (2 * w) <= len - parity * w,
    ensures
        forall|i: int|
            0 <= i < n ==> {
                &&& #[trigger] at(parity + 2 * i + 2, 0, w) <= len
                &&& parity + 2 * i + 2 <= usize::MAX
            },
{
    assert forall|i: int| 0 <= i < n implies {
        &&& #[trigger] at(parity + 2 * i + 2, 0, w) <= len
        &&& parity + 2 * i + 2 <= usize::MAX
    } by {
        assert((parity + 2 * i + 2) * w <= parity * w + n * (2 * w)) by (nonlinear_arith)
            requires
                i + 1 <= n,
                w > 0,
        ;
        assert(parity + 2 * i + 2 <= (parity + 2 * i + 2) * w) by (nonlinear_arith)
            requires
                w >= 1,
                parity + 2 * i + 2 >= 0,
        ;
    }
}

/// Add the cells of `row` to the end of `out`.
fn append_row(out: &mut Vec<i32>, row: &Vec<i32>)
    ensures
        final(out)@ == old(out)@ + row@,
{
    let n: usize = row.len();
    let mut k: usize = 0;
    while k < n
        invariant
            n == row@.len(),
            k <= n,
            out@ == old(out)@ + row@.take(k as int),
        decreases n - k,
    {
        assert(row@.take(k + 1) =~= row@.take(k as int).push(row@[k as int]));
        out.push(row[k]);
        k += 1;
    }
    assert(row@.take(n as int) =~= row@);
}

/// A row that holds what the pass makes of row `r` extends a result that is
/// right up to it.
proof fn lemma_append(lay: Layout, src: Seq<i32>, pass: i32, salt: i32, out: Seq<i32>, row: Seq<i32>, r: int)
    requires
        0 <= r,
        out.len() == at(r, 0, lay.width()),
        row == row_after(lay, src, pass, salt, r),
        out.len() + row.len() <= src.len(),
        forall|j: int| 0 <= j < out.len() ==> #[trigger] out[j] == stepped(lay, src, pass, salt)[j],
    ensures
        (out + row).len() == at(r + 1, 0, lay.width()),
        forall|j: int|
            0 <= j < out.len() + row.len() ==> #[trigger] (out + row)[j] == stepped(
                lay,
                src,
                pass,
                salt,
            )[j],
{
    let w = lay.width();
    assert((r + 1) * w == r * w + w) by (nonlinear_arith);
    assert forall|j: int| 0 <= j < out.len() + row.len() implies #[trigger] (out + row)[j]
        == stepped(lay, src, pass, salt)[j] by {
        if j >= out.len() {
            let k = j - out.len();
            lemma_at(r, k, r + 1, w);
            assert(at(r, k, w) == j);
            assert(row[k] == cell_after(lay, src, pass, salt, r, k));
        } else {
            assert(out[j] == stepped(lay, src, pass, salt)[j]);
        }
    }
}

/// One pass over the whole buffer. Blocks start at rows and columns with the
/// parity of `pass`; `salt` seeds the randomness. Ghost tiles keep their
/// cells. Block rows are independent of each other, and run in parallel.
pub fn step(lay: &Layout, src: &[i32], pass: i32, salt: i32) -> (out: Vec<i32>)
    requires
        lay.height() <= usize::MAX,
        2 * lay.width() <= usize::MAX,
        at(offset(pass), 0, lay.width()) <= src@.len(),
    ensures
        out@ == stepped(*lay, src@, pass, salt),
{
    let cols: usize = lay.buf_cols();
    let len: usize = src.len();
    let ghost w = lay.width();
    proof {
        lemma_parity(pass);
    }
    let parity: usize = (pass & 1) as usize;
    assert(parity * w <= len);
    let n: usize = (len - parity * cols) / (2 * cols);
    proof {
        assert(n * (2 * w) <= len - parity * w && (n + 1) * (2 * w) > len - parity * w) by (nonlinear_arith)
            requires
                n == (len - parity * w) / (2 * w),
                w > 0,
                len - parity * w >= 0,
        ;
    }
    proof {
        lemma_block_rows(len as int, parity as int, n as int, w);
    }
    let rows = par_map(
        n,
        |i: usize| -> (lines: Lines)
            requires
                n > i,
            ensures
                holds_rows(lines, *lay, src@, pass, salt, parity + 2 * i),
        {
            assert(at(parity + 2 * i + 2, 0, w) <= len);
            block_row(lay, src, pass, salt, parity + 2 * i)
        }
    );
    let ghost after = stepped(*lay, src@, pass, salt);
    let mut out: Vec<i32> = Vec::with_capacity(len);
    let mut j: usize = 0;
    while j < parity * cols
        invariant
            cols == w,
            w == lay.width(),
            parity == offset(pass),
            0 <= parity <= 1,
            parity * cols <= len,
            len == src@.len(),
            after == stepped(*lay, src@, pass, salt),
            j <= parity * cols,
            out@.len() == j,
            forall|k: int| 0 <= k < out@.len() ==> #[trigger] out@[k] == after[k],
        decreases parity * cols - j,
    {
        proof {
            assert(parity == 1 && j < w) by (nonlinear_arith)
                requires
                    j < parity * w,
                    0 <= j,
                    0 <= parity <= 1,
                    0 < w,
            ;
            lemma_at(0, j as int, 1, w);
            lemma_leftover(*lay, src@, pass, salt, 0, j as int);
        }
        out.push(src[j]);
        j += 1;
    }
    let mut i: usize = 0;
    while i < n
        invariant
            w == lay.width(),
            rows@.len() == n,
            i <= n,
            parity == offset(pass),
            after == stepped(*lay, src@, pass, salt),
            len == src@.len(),
            forall|i: usize|
                i < n ==> holds_rows(
                    #[trigger] rows@[i as int],
                    *lay,
                    src@,
                    pass,
                    salt,
                    parity + 2 * i,
                ),
            forall|i: int| 0 <= i < n ==> #[trigger] at(parity + 2 * i + 2, 0, w) <= len,
            out@.len() == at(parity + 2 * i, 0, w),
            forall|k: int| 0 <= k < out@.len() ==> #[trigger] out@[k] == after[k],
        decreases n - i,
    {
        let (top, bottom): (&Vec<i32>, &Vec<i32>) = (&rows[i].top, &rows[i].bottom);
        proof {
            let r = parity + 2 * i;
            assert(at(parity + 2 * i + 2, 0, w) <= len);
            assert((r + 2) * w == r * w + w + w) by (nonlinear_arith);
            lemma_append(*lay, src@, pass, salt, out@, top@, r);
            lemma_append(*lay, src@, pass, salt, out@ + top@, bottom@, r + 1);
        }
        append_row(&mut out, top);
        append_row(&mut out, bottom);
        i += 1;
    }
    let mut j: usize = out.len();
    proof {
        assert(at(parity + 2 * n, 0, w) == parity * w + n * (2 * w)) by (nonlinear_arith);
        assert(at(parity + 2 * n + 2, 0, w) == parity * w + (n + 1) * (2 * w)) by (nonlinear_arith);
    }
    while j < len
        invariant
            w == lay.width(),
            w > 0,
            parity == offset(pass),
            0 <= parity <= 1,
            after == stepped(*lay, src@, pass, salt),
            len == src@.len(),
            at(parity + 2 * n, 0, w) <= j <= len,
            at(parity + 2 * n + 2, 0, w) > len,
            out@.len() == j,
            forall|k: int| 0 <= k < out@.len() ==> #[trigger] out@[k] == after[k],
        decreases len - j,
    {
        proof {
            lemma_cell_of(j as int, w);
            let (r, c) = (j as int / w, j as int % w);
            let r1 = parity + 2 * n;
            assert(r >= r1) by (nonlinear_arith)
                requires
                    r1 * w <= j,
                    j == r * w + c,
                    0 <= c < w,
            ;
            let r0 = corner(r, pass);
            assert(r0 >= r1);
            assert((r0 + 2) * w >= (r1 + 2) * w) by (nonlinear_arith)
                requires
                    r0 >= r1,
                    w > 0,
            ;
            lemma_leftover(*lay, src@, pass, salt, r, c);
        }
        out.push(src[j]);
        j += 1;
    }
    assert(out@ =~= after);
    out
}

/// A frame of paint laid over a world: flagged values replace the cell.
pub open spec fn painted(src: Seq<i32>, paint: Seq<i32>) -> Seq<i32> {
    Seq::new(
        if src.len() <= paint.len() {
            src.len()
        } else {
            paint.len()
        },
        |i: int|
            if paint[i] & PAINT != 0 {
                paint[i] & !PAINT
            } else {
                src[i]
            },
    )
}

/// Apply a frame of paint (`PAINT | cell` where painted).
pub fn paint(src: &[i32], layer: &[i32]) -> (out: Vec<i32>)
    ensures
        out@ == painted(src@, layer@),
{
    let n: usize = if src.len() <= layer.len() {
        src.len()
    } else {
        layer.len()
    };
    let mut out: Vec<i32> = Vec::with_capacity(n);
    let mut i: usize = 0;
    while i < n
        invariant
            n == painted(src@, layer@).len(),
            i <= n,
            out@.len() == i,
            forall|k: int| 0 <= k < i ==> #[trigger] out@[k] == painted(src@, layer@)[k],
        decreases n - i,
    {
        let p = layer[i];
        out.push(
            if p & PAINT != 0 {
                p & !PAINT
            } else {
                src[i]
            },
        );
        i += 1;
    }
    assert(out@ =~= painted(src@, layer@));
    out
}

/// Cells outside the ghost ring, row by row.
pub fn world(lay: &Layout, buf: &[i32]) -> (out: Vec<i32>)
    requires
        lay.height() <= usize::MAX,
        lay.width() <= usize::MAX,
        lay.rows * lay.cols <= usize::MAX,
        crop_fits(buf@.len() as int, lay.width(), TILE as int, lay.rows as int, lay.cols as int),
    ensures
        out@ == cropped(buf@, lay.width(), TILE as int, lay.rows as int, lay.cols as int),
{
    crop(buf, lay.buf_cols(), TILE, lay.rows, lay.cols)
}

} // verus!
