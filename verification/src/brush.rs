//! The footprint of a round brush.
//!
//! A brush may sit anywhere between cells, so which cells it covers is worked
//! out in floating point, once, and handed over as a square of marks around
//! the cell nearest to its center. Brushes centered on a cell are worked out
//! here.
use crate::grid::{at, lemma_at};
use vstd::prelude::*;

verus! {

/// The cells a brush covers: those marked in the square of `2 * r + 1` cells
/// around `(x0, y0)`.
#[derive(Clone, Debug)]
pub struct Stamp {
    pub x0: i32,
    pub y0: i32,
    pub r: i32,
    pub marks: Vec<bool>,
}

impl Stamp {
    /// Cells on a side of the square.
    pub open spec fn side(self) -> int {
        2 * self.r + 1
    }

    /// Whether the square is whole and every cell of it has coordinates.
    pub open spec fn wf(self) -> bool {
        &&& 0 <= self.r
        &&& i32::MIN <= self.x0 - self.r
        &&& self.x0 + self.r <= i32::MAX
        &&& i32::MIN <= self.y0 - self.r
        &&& self.y0 + self.r <= i32::MAX
        &&& self.marks@.len() == self.side() * self.side()
    }

    /// Whether cell `(x, y)` lies in the square.
    pub open spec fn frames(self, x: int, y: int) -> bool {
        &&& self.x0 - self.r <= x <= self.x0 + self.r
        &&& self.y0 - self.r <= y <= self.y0 + self.r
    }

    /// Position of cell `(x, y)` in the square.
    pub open spec fn spot(self, x: int, y: int) -> int {
        at(y - self.y0 + self.r, x - self.x0 + self.r, self.side())
    }

    /// Whether the brush covers cell `(x, y)`.
    pub open spec fn covers(self, x: int, y: int) -> bool {
        self.frames(x, y) && self.marks@[self.spot(x, y)]
    }

    /// Whether the brush covers cell `(x, y)` of its square.
    pub fn is_marked(&self, x: i32, y: i32) -> (b: bool)
        requires
            self.wf(),
            self.frames(x as int, y as int),
        ensures
            b == self.covers(x as int, y as int),
    {
        let len: usize = self.marks.len();
        proof {
            let (i, j, side) = (y - self.y0 + self.r, x - self.x0 + self.r, self.side());
            lemma_at(i, j, side, side);
            assert(side * side == len);
            assert(side <= side * side && 0 <= i * side) by (nonlinear_arith)
                requires
                    side >= 1,
                    i >= 0,
            ;
        }
        let dy: usize = (y as i64 - (self.y0 - self.r) as i64) as usize;
        let dx: usize = (x as i64 - (self.x0 - self.r) as i64) as usize;
        let side: usize = (2 * self.r as i64 + 1) as usize;
        self.marks[dy * side + dx]
    }

    /// A brush of radius `r` centered on cell `(x0, y0)`: it covers the cells
    /// no farther than `r` from there.
    pub fn round(x0: i32, y0: i32, r: i32) -> (s: Stamp)
        requires
            0 <= r,
            i32::MIN <= x0 - r,
            x0 + r <= i32::MAX,
            i32::MIN <= y0 - r,
            y0 + r <= i32::MAX,
            (2 * r + 1) * (2 * r + 1) <= usize::MAX,
        ensures
            s.wf(),
            s.x0 == x0,
            s.y0 == y0,
            s.r == r,
            forall|x: int, y: int|
                #[trigger] s.covers(x, y) <==> in_disc(x - x0, y - y0, r as int),
    {
        let radius: i32 = r;
        let r: i64 = radius as i64;
        let ghost side = 2 * r + 1;
        let mut marks: Vec<bool> = Vec::new();
        let mut dy: i64 = -r;
        proof {
            assert(0 * side == 0) by (nonlinear_arith);
        }
        while dy <= r
            invariant
                0 <= r <= i32::MAX,
                -r <= dy <= r + 1,
                side == 2 * r + 1,
                marks@.len() == (dy + r) * side,
                forall|i: int, j: int|
                    #![trigger at(i, j, side)]
                    0 <= i < dy + r && 0 <= j < side ==> marks@[at(i, j, side)] == in_disc(
                        j - r,
                        i - r,
                        r as int,
                    ),
            decreases r + 1 - dy,
        {
            let ghost row = dy + r;
            let mut dx: i64 = -r;
            while dx <= r
                invariant
                    0 <= r <= i32::MAX,
                    -r <= dy <= r,
                    -r <= dx <= r + 1,
                    side == 2 * r + 1,
                    row == dy + r,
                    marks@.len() == row * side + (dx + r),
                    forall|i: int, j: int|
                        #![trigger at(i, j, side)]
                        0 <= i <= row && 0 <= j < side && (i < row || j < dx + r) ==> marks@[at(
                            i,
                            j,
                            side,
                        )] == in_disc(j - r, i - r, r as int),
                decreases r + 1 - dx,
            {
                proof {
                    lemma_products(dx as int, dy as int, r as int);
                    assert forall|i: int, j: int|
                        #![trigger at(i, j, side)]
                        0 <= i <= row && 0 <= j < side && (i < row || j < dx + r) implies at(
                        i,
                        j,
                        side,
                    ) < row * side + (dx + r) by {
                        lemma_at(i, j, i + 1, side);
                        assert(i < row ==> (i + 1) * side <= row * side) by (nonlinear_arith)
                            requires
                                side > 0,
                        ;
                        assert((i + 1) * side == i * side + side) by (nonlinear_arith);
                    }
                }
                let ghost before = marks@;
                marks.push(dx * dx + dy * dy <= r * r);
                proof {
                    assert forall|i: int, j: int|
                        #![trigger at(i, j, side)]
                        0 <= i <= row && 0 <= j < side && (i < row || j < dx + 1 + r) implies marks@[at(
                        i,
                        j,
                        side,
                    )] == in_disc(j - r, i - r, r as int) by {
                        if i == row && j == dx + r {
                            assert(at(i, j, side) == before.len());
                        } else {
                            lemma_at(i, j, i + 1, side);
                        }
                    }
                }
                dx += 1;
            }
            assert(row * side + side == (row + 1) * side) by (nonlinear_arith);
            dy += 1;
        }
        let s = Stamp { x0, y0, r: radius, marks };
        proof {
            assert forall|x: int, y: int|
                #[trigger] s.covers(x, y) <==> in_disc(x - x0, y - y0, r as int) by {
                let (i, j) = (y - y0 + r, x - x0 + r);
                if s.frames(x, y) {
                    assert(marks@[at(i, j, side)] == in_disc(j - r, i - r, r as int));
                } else {
                    lemma_far(x - x0, y - y0, r as int);
                }
            }
        }
        s
    }
}

/// Whether an offset is no longer than `r`.
pub open spec fn in_disc(dx: int, dy: int, r: int) -> bool {
    dx * dx + dy * dy <= r * r
}

proof fn lemma_products(dx: int, dy: int, r: int)
    requires
        -r <= dx <= r,
        -r <= dy <= r,
        0 <= r <= i32::MAX,
    ensures
        0 <= dx * dx <= 0x3fff_ffff_ffff_ffff,
        0 <= dy * dy <= 0x3fff_ffff_ffff_ffff,
        0 <= r * r <= 0x3fff_ffff_ffff_ffff,
{
    assert(0 <= dx * dx <= r * r && 0 <= dy * dy <= r * r && 0 <= r * r <= 0x7fff_ffff * 0x7fff_ffff)
        by (nonlinear_arith)
        requires
            -r <= dx <= r,
            -r <= dy <= r,
            0 <= r <= 0x7fff_ffff,
    ;
}

proof fn lemma_far(dx: int, dy: int, r: int)
    requires
        0 <= r,
        dx < -r || dx > r || dy < -r || dy > r,
    ensures
        !in_disc(dx, dy, r),
{
    assert(0 <= dx * dx && 0 <= dy * dy) by (nonlinear_arith);
    if dx < -r || dx > r {
        assert(dx * dx > r * r) by (nonlinear_arith)
            requires
                0 <= r,
                dx < -r || dx > r,
        ;
    } else {
        assert(dy * dy > r * r) by (nonlinear_arith)
            requires
                0 <= r,
                dy < -r || dy > r,
        ;
    }
}

/// A round brush reaches as far as its radius, in every direction, and covers what
/// lies closer to its center than a cell that it covers.
pub proof fn law_disc_is_round(dx: int, dy: int, ex: int, ey: int, r: int)
    requires
        0 <= r,
    ensures
        in_disc(dx, 0, r) <==> -r <= dx <= r,
        in_disc(0, dy, r) <==> -r <= dy <= r,
        in_disc(dx, dy, r) <==> in_disc(dy, dx, r),
        in_disc(dx, dy, r) <==> in_disc(-dx, dy, r),
        in_disc(dx, dy, r) && ex * ex + ey * ey <= dx * dx + dy * dy ==> in_disc(ex, ey, r),
        in_disc(dx, dy, r) ==> dx * dx + dy * dy <= r * r,
        dx * dx + dy * dy <= r * r ==> in_disc(dx, dy, r),
{
    assert((-dx) * (-dx) == dx * dx) by (nonlinear_arith);
    assert(0 * 0 == 0);
    if -r <= dx <= r {
        assert(dx * dx <= r * r) by (nonlinear_arith)
            requires
                -r <= dx <= r,
        ;
    } else {
        lemma_far(dx, 0, r);
    }
    if -r <= dy <= r {
        assert(dy * dy <= r * r) by (nonlinear_arith)
            requires
                -r <= dy <= r,
        ;
    } else {
        lemma_far(0, dy, r);
    }
}

/// A stamp covers just the cells that are marked, row by row from its upper left
/// corner, and none outside its square.
pub proof fn law_stamp_reads_marks(s: Stamp, i: int, j: int, x: int, y: int)
    requires
        s.wf(),
        0 <= i < 2 * s.r + 1,
        0 <= j < 2 * s.r + 1,
    ensures
        s.covers(s.x0 - s.r + j, s.y0 - s.r + i) == s.marks@[i * (2 * s.r + 1) + j],
        s.covers(x, y) ==> s.x0 - s.r <= x <= s.x0 + s.r && s.y0 - s.r <= y <= s.y0 + s.r,
{
}

} // verus!
