//! The buffer layout and the jump sizes of the flood.
use crate::grid::{round_to_tiles, tiles_up};
use vstd::prelude::*;

verus! {

/// Edge of a tile, and width of the ghost ring.
pub const TILE: usize = 32;

/// World size in pixels, rounded up to whole tiles. Buffers add one ghost
/// tile before the first row and column.
#[derive(Clone, Copy, Debug)]
pub struct Layout {
    pub rows: usize,
    pub cols: usize,
}

/// The largest power of two below `n`, for `n` above one.
pub open spec fn top_jump(n: int) -> int
    decreases n,
{
    if n <= 2 {
        1
    } else {
        2 * top_jump((n + 1) / 2)
    }
}

/// `k`, half of it, and so on down to one.
pub open spec fn halvings(k: int) -> Seq<int>
    decreases k,
{
    if k < 1 {
        seq![]
    } else {
        seq![k] + halvings(k / 2)
    }
}

/// The jump sizes of a flood over a buffer whose longer side is `n`: the
/// largest power of two below `n`, halving down to one, then one once more.
pub open spec fn jumps(n: int) -> Seq<int> {
    halvings(top_jump(n)).push(1)
}

impl Layout {
    /// Rows of a buffer, ghost ring included.
    pub open spec fn height(self) -> int {
        self.rows + TILE
    }

    /// Columns of a buffer, ghost ring included.
    pub open spec fn width(self) -> int {
        self.cols + TILE
    }

    /// Pixels of a buffer.
    pub open spec fn size(self) -> int {
        self.height() * self.width()
    }

    /// The longer side of a buffer.
    pub open spec fn side(self) -> int {
        if self.height() >= self.width() {
            self.height()
        } else {
            self.width()
        }
    }

    /// Whether a buffer can be held in memory at all.
    pub open spec fn fits(self) -> bool {
        self.size() <= usize::MAX
    }

    /// Whether buffer pixel `(r, c)` belongs to the world, not the ghost ring.
    pub open spec fn inside(self, r: int, c: int) -> bool {
        &&& TILE <= r < self.height()
        &&& TILE <= c < self.width()
    }

    /// The layout of a world of at least `height` by `width` pixels.
    pub fn new(height: usize, width: usize) -> (lay: Layout)
        requires
            tiles_up(height as int, TILE as int) <= usize::MAX,
            tiles_up(width as int, TILE as int) <= usize::MAX,
        ensures
            lay.rows == tiles_up(height as int, TILE as int),
            lay.cols == tiles_up(width as int, TILE as int),
    {
        Layout { rows: round_to_tiles(height, TILE), cols: round_to_tiles(width, TILE) }
    }

    /// Rows of a buffer, ghost ring included.
    pub fn buf_rows(&self) -> (n: usize)
        requires
            self.height() <= usize::MAX,
        ensures
            n == self.height(),
    {
        self.rows + TILE
    }

    /// Columns of a buffer, ghost ring included.
    pub fn buf_cols(&self) -> (n: usize)
        requires
            self.width() <= usize::MAX,
        ensures
            n == self.width(),
    {
        self.cols + TILE
    }

    /// Jump sizes: the largest power of two below the buffer size, halving
    /// down to one, then one more pass at one, which fixes most of the pixels
    /// a plain flood gets wrong.
    pub fn jfa_offsets(&self) -> (out: Vec<usize>)
        requires
            self.height() <= usize::MAX,
            self.width() <= usize::MAX,
        ensures
            out@.map_values(|k: usize| k as int) == jumps(self.side()),
    {
        let (rows, cols): (usize, usize) = (self.buf_rows(), self.buf_cols());
        let n: usize = if rows >= cols {
            rows
        } else {
            cols
        };
        let mut k: usize = 1;
        proof {
            lemma_top_jump(n as int, 0);
        }
        let ghost mut e: nat = 0;
        while k < n - k
            invariant
                n >= 32,
                1 <= k < n,
                k == power(e),
            decreases n - k,
        {
            k = k * 2;
            proof {
                e = e + 1;
            }
        }
        proof {
            lemma_top_jump(n as int, e);
        }
        let ghost top = k as int;
        let mut out: Vec<usize> = Vec::new();
        while k >= 1
            invariant
                out@.map_values(|k: usize| k as int) + halvings(k as int) == halvings(top),
            decreases k,
        {
            let ghost before = out@.map_values(|k: usize| k as int);
            out.push(k);
            proof {
                assert(out@.map_values(|k: usize| k as int) =~= before.push(k as int));
                assert(before + halvings(k as int) =~= before.push(k as int) + halvings(
                    k as int / 2,
                ));
            }
            k = k / 2;
        }
        proof {
            assert(halvings(k as int) =~= seq![]);
            assert(out@.map_values(|k: usize| k as int) =~= halvings(top));
        }
        out.push(1);
        assert(out@.map_values(|k: usize| k as int) =~= jumps(self.side()));
        out
    }

    /// The sides of a layout are no larger than its size.
    pub proof fn lemma_sides(self)
        ensures
            self.height() <= self.size(),
            self.width() <= self.size(),
    {
        let (h, w) = (self.height(), self.width());
        assert(h <= h * w && w <= h * w) by (nonlinear_arith)
            requires
                h >= 32,
                w >= 32,
        ;
    }

    /// The sides of a layout that fits in memory fit too.
    pub proof fn lemma_fits(self)
        requires
            self.fits(),
        ensures
            self.height() <= usize::MAX,
            self.width() <= usize::MAX,
            self.rows * self.cols <= usize::MAX,
    {
        let (h, w) = (self.height(), self.width());
        assert(h <= h * w && w <= h * w) by (nonlinear_arith)
            requires
                h >= 32,
                w >= 32,
        ;
        let (r, c) = (self.rows as int, self.cols as int);
        assert(r * c <= (r + 32) * (c + 32)) by (nonlinear_arith)
            requires
                r >= 0,
                c >= 0,
        ;
    }
}

/// Two to the `e`.
pub open spec fn power(e: nat) -> int
    decreases e,
{
    if e == 0 {
        1
    } else {
        2 * power((e - 1) as nat)
    }
}

/// A power of two below `n` whose double is not below it is the top jump.
proof fn lemma_top_jump(n: int, e: nat)
    requires
        n >= 2,
    ensures
        power(e) >= 1,
        power(e) < n <= 2 * power(e) ==> top_jump(n) == power(e),
    decreases e,
{
    if e > 0 {
        if n > 2 {
            lemma_top_jump((n + 1) / 2, (e - 1) as nat);
        } else {
            lemma_top_jump(2, (e - 1) as nat);
        }
    }
}

/// What the jump sizes are: a power of two below the longer side, at least
/// half of it, each half of the one before, down to one, and one once more.
pub proof fn law_jumps(n: int)
    requires
        n >= 2,
    ensures
        top_jump(n) < n <= 2 * top_jump(n),
        exists|e: nat| top_jump(n) == #[trigger] power(e),
        jumps(n).len() >= 2,
        jumps(n)[0] == top_jump(n),
        jumps(n)[jumps(n).len() - 1] == 1,
        jumps(n)[jumps(n).len() - 2] == 1,
        forall|i: int|
            0 <= i < jumps(n).len() - 2 ==> #[trigger] jumps(n)[i] == 2 * jumps(n)[i + 1],
{
    lemma_top(n);
    let e = choose|e: nat| top_jump(n) == power(e);
    lemma_halvings(e);
}

proof fn lemma_top(n: int)
    requires
        n >= 2,
    ensures
        top_jump(n) < n <= 2 * top_jump(n),
        exists|e: nat| top_jump(n) == #[trigger] power(e),
    decreases n,
{
    if n > 2 {
        lemma_top((n + 1) / 2);
        let e = choose|e: nat| top_jump((n + 1) / 2) == power(e);
        assert(power(e + 1) == 2 * power(e));
    } else {
        assert(power(0) == 1);
    }
}

pub proof fn lemma_halvings(e: nat)
    ensures
        power(e) >= 1,
        halvings(power(e)).len() == e + 1,
        forall|i: int| 0 <= i <= e ==> #[trigger] halvings(power(e))[i] == power((e - i) as nat),
    decreases e,
{
    if e > 0 {
        lemma_halvings((e - 1) as nat);
        assert(power(e) / 2 == power((e - 1) as nat));
        let rest = halvings(power((e - 1) as nat));
        assert(halvings(power(e)) == seq![power(e)] + rest);
        assert forall|i: int| 0 <= i <= e implies #[trigger] halvings(power(e))[i] == power(
            (e - i) as nat,
        ) by {
            if i > 0 {
                assert(halvings(power(e))[i] == rest[i - 1]);
                assert((e - 1) as nat - (i - 1) == e - i);
            }
        }
    } else {
        reveal_with_fuel(halvings, 2);
    }
}

} // verus!
