//! Elements, the cell encoding, the buffer layout, and painting.
//!
//! A cell is an `i32`: the element in the low byte, a 4-bit shade in bits
//! 8-11 so a grain keeps its tint as it moves, and for liquids a direction
//! bit (`DIR`, bit 12: set means "flowing right"). The world is surrounded by
//! a ring of ghost tiles filled with `WALL`, so no rule ever has to ask "is
//! this the edge?".
use crate::grid::{at, lemma_at, round_to_tiles, tiles_up};
use vstd::prelude::*;

verus! {

/// Edge of a tile, and width of the ghost ring.
pub const TILE: usize = 32;

pub const EMPTY: i32 = 0;

pub const SAND: i32 = 1;

pub const WATER: i32 = 2;

pub const OIL: i32 = 3;

pub const WOOD: i32 = 4;

pub const WALL: i32 = 5;

pub const FIRE: i32 = 6;

pub const SMOKE: i32 = 7;

/// Wood that is on fire: stays put, throws off flames, burns out.
pub const EMBER: i32 = 8;

/// Liquids flow in one direction until blocked, and then turn around.
pub const DIR: i32 = 4096;

/// Set in a paint value to mean "replace the cell", so painting `EMPTY`
/// (erasing) is distinguishable from not painting.
pub const PAINT: i32 = 1048576;

/// The element of a cell.
pub open spec fn kind_of(cell: i32) -> i32 {
    cell & 255
}

/// The cell of element `kind` with tint `shade`.
pub open spec fn cell_of(kind: i32, shade: i32) -> i32 {
    kind | ((shade & 15) << 8)
}

/// Whether `kind` is one of the nine elements.
pub open spec fn is_element(kind: i32) -> bool {
    0 <= kind <= 8
}

/// Whether `cell` is an encoded cell: an element, a shade and a direction, no
/// other bit set.
pub open spec fn is_cell(cell: i32) -> bool {
    &&& 0 <= cell < 8192
    &&& is_element(kind_of(cell))
}

/// How the encoding packs: the element and the shade can be read back, and
/// turning the direction around touches neither.
pub proof fn law_encoding(kind: i32, shade: i32)
    requires
        0 <= kind < 256,
    ensures
        kind_of(cell_of(kind, shade)) == kind,
        (cell_of(kind, shade) >> 8) & 15 == shade & 15,
        cell_of(kind, shade) & DIR == 0,
        0 <= cell_of(kind, shade) < 4096,
        cell_of(kind, shade) == kind + 256 * (shade & 15),
{
    assert(0 <= kind < 256 ==> {
        let v = kind | ((shade & 15) << 8);
        &&& v & 255 == kind
        &&& (v >> 8) & 15 == shade & 15
        &&& v & 4096 == 0
        &&& 0 <= v < 4096
        &&& v == kind + 256 * (shade & 15)
    }) by (bit_vector);
}

/// What the low byte, the direction bit and the paint flag have to do with
/// each other.
pub proof fn lemma_bits(x: i32)
    ensures
        0 <= kind_of(x) <= 255,
        kind_of(x ^ DIR) == kind_of(x),
        is_cell(x) ==> is_cell(x ^ DIR),
        is_cell(x) ==> x & PAINT == 0,
        (x | PAINT) & PAINT != 0,
        x & PAINT == 0 ==> (PAINT | x) & !PAINT == x,
        0 <= x & 15 <= 15,
        (x & 15) & 15 == x & 15,
        0 <= x ==> kind_of(x) == x % 256,
{
    assert({
        &&& 0 <= (x & 255) <= 255
        &&& (x ^ 4096) & 255 == x & 255
        &&& 0 <= x < 8192 ==> 0 <= (x ^ 4096) < 8192
        &&& 0 <= x < 8192 ==> x & 1048576 == 0
        &&& (x | 1048576) & 1048576 != 0
        &&& x & 1048576 == 0 ==> (1048576 | x) & !1048576i32 == x
        &&& 0 <= (x & 15) <= 15
        &&& (x & 15) & 15 == x & 15
        &&& 0 <= x ==> x & 255 == x % 256
    }) by (bit_vector);
}

/// The cell of element `kind` with tint `shade`.
pub fn cell(kind: i32, shade: i32) -> (v: i32)
    ensures
        v == cell_of(kind, shade),
        0 <= kind < 256 ==> v == kind + 256 * (shade & 15),
{
    proof {
        if 0 <= kind < 256 {
            law_encoding(kind, shade);
        }
    }
    kind | ((shade & 15) << 8)
}

/// The element of a cell.
pub fn kind(cell: i32) -> (k: i32)
    ensures
        k == kind_of(cell),
        0 <= k <= 255,
{
    proof {
        lemma_bits(cell);
    }
    cell & 255
}

/// The name of an element.
pub fn name(kind: i32) -> (s: &'static str)
    requires
        is_element(kind),
    ensures
        s@ == name_of(kind),
{
    if kind == EMPTY {
        "empty"
    } else if kind == SAND {
        "sand"
    } else if kind == WATER {
        "water"
    } else if kind == OIL {
        "oil"
    } else if kind == WOOD {
        "wood"
    } else if kind == WALL {
        "wall"
    } else if kind == FIRE {
        "fire"
    } else if kind == SMOKE {
        "smoke"
    } else {
        "ember"
    }
}

/// What each element is called.
pub open spec fn name_of(kind: i32) -> Seq<char> {
    if kind == EMPTY {
        "empty"@
    } else if kind == SAND {
        "sand"@
    } else if kind == WATER {
        "water"@
    } else if kind == OIL {
        "oil"@
    } else if kind == WOOD {
        "wood"@
    } else if kind == WALL {
        "wall"@
    } else if kind == FIRE {
        "fire"@
    } else if kind == SMOKE {
        "smoke"@
    } else {
        "ember"@
    }
}

/// World size in cells, rounded up to whole tiles. Buffers add a ring of one
/// ghost tile on every side.
#[derive(Clone, Copy, Debug)]
pub struct Layout {
    pub rows: usize,
    pub cols: usize,
}

impl Layout {
    /// Rows of a buffer, ghost ring included.
    pub open spec fn height(self) -> int {
        self.rows + 2 * TILE
    }

    /// Columns of a buffer, ghost ring included.
    pub open spec fn width(self) -> int {
        self.cols + 2 * TILE
    }

    /// Cells of a buffer.
    pub open spec fn size(self) -> int {
        self.height() * self.width()
    }

    /// Whether a buffer can be held in memory at all.
    pub open spec fn fits(self) -> bool {
        self.size() <= usize::MAX
    }

    /// Whether buffer cell `(r, c)` belongs to the world, not the ghost ring.
    pub open spec fn inside(self, r: int, c: int) -> bool {
        &&& TILE <= r < TILE + self.rows
        &&& TILE <= c < TILE + self.cols
    }

    /// The ghost ring set to `WALL`, the world empty.
    pub open spec fn blank_world(self) -> Seq<i32> {
        Seq::new(
            self.size() as nat,
            |i: int|
                if self.inside(i / self.width(), i % self.width()) {
                    EMPTY
                } else {
                    WALL
                },
        )
    }

    /// The layout of a world of at least `height` by `width` cells.
    pub fn new(height: usize, width: usize) -> (lay: Layout)
        requires
            tiles_up(height as int, TILE as int) <= usize::MAX,
            tiles_up(width as int, TILE as int) <= usize::MAX,
        ensures
            lay.rows == tiles_up(height as int, TILE as int),
            lay.cols == tiles_up(width as int, TILE as int),
    {
        Layout { rows: round_to_tiles(height, TILE), cols: round_to_tiles(width, TILE) }
    }

    /// Rows of a buffer, ghost ring included.
    pub fn buf_rows(&self) -> (n: usize)
        requires
            self.height() <= usize::MAX,
        ensures
            n == self.height(),
    {
        self.rows + 2 * TILE
    }

    /// Columns of a buffer, ghost ring included.
    pub fn buf_cols(&self) -> (n: usize)
        requires
            self.width() <= usize::MAX,
        ensures
            n == self.width(),
    {
        self.cols + 2 * TILE
    }

    /// Buffer index of world cell `(x, y)`.
    pub fn index(&self, x: usize, y: usize) -> (i: usize)
        requires
            at(y + TILE, x + TILE, self.width()) <= usize::MAX,
            self.width() <= usize::MAX,
            y + TILE <= usize::MAX,
        ensures
            i == at(y + TILE, x + TILE, self.width()),
    {
        proof {
            let w = self.width();
            assert(0 <= (y + TILE) * w) by (nonlinear_arith)
                requires
                    0 <= y + TILE,
                    0 <= w,
            ;
        }
        (y + TILE) * self.buf_cols() + x + TILE
    }

    /// True for buffer cells inside the world (not the ghost ring).
    pub fn is_world(&self, r: usize, c: usize) -> (b: bool)
        requires
            self.height() <= usize::MAX,
            self.width() <= usize::MAX,
        ensures
            b == self.inside(r as int, c as int),
    {
        TILE <= r && r < TILE + self.rows && TILE <= c && c < TILE + self.cols
    }

    /// A buffer with the ghost ring set to `WALL` and the world empty.
    pub fn empty_buffer(&self) -> (buf: Vec<i32>)
        requires
            self.fits(),
        ensures
            buf@ == self.blank_world(),
    {
        proof {
            self.lemma_fits();
        }
        let (br, bc): (usize, usize) = (self.buf_rows(), self.buf_cols());
        let n: usize = br * bc;
        let mut buf: Vec<i32> = Vec::with_capacity(n);
        let mut i: usize = 0;
        while i < n
            invariant
                i <= n,
                n == self.size(),
                bc == self.width(),
                self.height() <= usize::MAX,
                self.width() <= usize::MAX,
                buf@.len() == i,
                forall|j: int| 0 <= j < i ==> #[trigger] buf@[j] == self.blank_world()[j],
            decreases n - i,
        {
            if self.is_world(i / bc, i % bc) {
                buf.push(EMPTY);
            } else {
                buf.push(WALL);
            }
            i += 1;
        }
        assert(buf@ =~= self.blank_world());
        buf
    }

    /// The sides of a layout that fits in memory fit too.
    pub proof fn lemma_fits(self)
        requires
            self.fits(),
        ensures
            self.height() <= usize::MAX,
            self.width() <= usize::MAX,
            self.height() * self.width() <= usize::MAX,
            self.rows * self.cols <= usize::MAX,
    {
        let (h, w) = (self.height(), self.width());
        assert(h <= h * w) by (nonlinear_arith)
            requires
                h >= 64,
                w >= 64,
        ;
        assert(w <= h * w) by (nonlinear_arith)
            requires
                h >= 64,
                w >= 64,
        ;
        let (r, c) = (self.rows as int, self.cols as int);
        assert(r * c <= (r + 64) * (c + 64)) by (nonlinear_arith)
            requires
                r >= 0,
                c >= 0,
        ;
    }
}

/// The element of a cell is its lowest byte, and the shade is worth 256 each.
pub proof fn law_element_is_low_byte(cell: i32, kind: i32, shade: i32)
    requires
        0 <= cell,
        0 <= kind < 256,
        0 <= shade < 16,
    ensures
        kind_of(cell) == cell as int % 256,
        cell_of(kind, shade) == kind + 256 * shade,
        is_cell(cell) <==> cell < 8192 && cell as int % 256 <= 8,
{
    lemma_bits(cell);
    law_encoding(kind, shade);
    assert(0 <= shade < 16 ==> shade & 15 == shade) by (bit_vector);
}

/// A blank world is empty, and surrounded by one tile of wall on every side.
pub proof fn law_blank_world(lay: Layout, r: int, c: int)
    requires
        0 <= r < lay.rows + 64,
        0 <= c < lay.cols + 64,
    ensures
        lay.blank_world().len() == (lay.rows + 64) * (lay.cols + 64),
        lay.blank_world()[r * (lay.cols + 64) + c] == (if 32 <= r < lay.rows + 32 && 32 <= c
            < lay.cols + 32 {
            0i32
        } else {
            5i32
        }),
{
    lemma_at(r, c, lay.height(), lay.width());
    assert(lay.blank_world()[at(r, c, lay.width())] == (if lay.inside(r, c) {
        EMPTY
    } else {
        WALL
    }));
}

} // verus!
