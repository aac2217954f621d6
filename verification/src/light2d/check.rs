//! How often the flood misses the nearest pixel.
use crate::grid::{at, lemma_at, lemma_cell_of, lemma_row_bound};
use crate::light2d::cpu::{dist2, far2, reaches};
use crate::light2d::layout::{Layout, TILE};
use vstd::prelude::*;

verus! {

/// A pixel whose seed is not the nearest one: its squared distance by the
/// flood, and the exact one.
pub type Miss = (i32, Option<u64>);

/// Buffer position of world pixel number `n`, row by row.
pub open spec fn world_pixel(lay: Layout, n: int) -> int {
    at(n / lay.cols as int + TILE, n % lay.cols as int + TILE, lay.width())
}

/// Squared distance by the flood of world pixel number `n`.
pub open spec fn reached2(lay: Layout, seeds: Seq<i32>, n: int) -> int {
    far2(
        seeds[world_pixel(lay, n)],
        n / lay.cols as int + TILE,
        n % lay.cols as int + TILE,
    )
}

/// Whether world pixel number `n` is off.
pub open spec fn is_off(lay: Layout, seeds: Seq<i32>, exact: Seq<Option<u64>>, n: int) -> bool {
    match exact[world_pixel(lay, n)] {
        Some(d) => reached2(lay, seeds, n) != d,
        None => true,
    }
}

/// The misses among the first `n` world pixels, in order.
pub open spec fn missed(lay: Layout, seeds: Seq<i32>, exact: Seq<Option<u64>>, n: nat) -> Seq<Miss>
    decreases n,
{
    if n == 0 {
        seq![]
    } else {
        let before = missed(lay, seeds, exact, (n - 1) as nat);
        if is_off(lay, seeds, exact, n - 1) {
            before.push(
                (reached2(lay, seeds, n - 1) as i32, exact[world_pixel(lay, n - 1)]),
            )
        } else {
            before
        }
    }
}

/// The world pixels at which the flooded distance is not the exact one.
pub fn misses(lay: &Layout, seeds: &[i32], exact: &[Option<u64>]) -> (out: Vec<Miss>)
    requires
        lay.fits(),
        lay.height() <= i32::MAX,
        lay.width() <= i32::MAX,
        seeds@.len() == lay.size(),
        exact@.len() == lay.size(),
        forall|i: int|
            0 <= i < seeds@.len() ==> reaches(
                #[trigger] seeds@[i],
                i / lay.width(),
                i % lay.width(),
            ),
    ensures
        out@ == missed(*lay, seeds@, exact@, (lay.rows * lay.cols) as nat),
{
    proof {
        lay.lemma_fits();
    }
    let cols: usize = lay.buf_cols();
    let total: usize = lay.rows * lay.cols;
    let mut out: Vec<Miss> = Vec::new();
    let mut n: usize = 0;
    while n < total
        invariant
            n <= total,
            total == lay.rows * lay.cols,
            cols == lay.width(),
            lay.fits(),
            lay.height() <= i32::MAX,
            lay.width() <= i32::MAX,
            seeds@.len() == lay.size(),
            exact@.len() == lay.size(),
            forall|i: int|
                0 <= i < seeds@.len() ==> reaches(
                    #[trigger] seeds@[i],
                    i / lay.width(),
                    i % lay.width(),
                ),
            out@ == missed(*lay, seeds@, exact@, n as nat),
        decreases total - n,
    {
        proof {
            assert(lay.cols > 0) by (nonlinear_arith)
                requires
                    n < lay.rows * lay.cols,
                    n >= 0,
            ;
            lemma_row_bound(n as int, lay.rows as int, lay.cols as int);
            lemma_cell_of(n as int, lay.cols as int);
            lemma_at(
                n as int / lay.cols as int + TILE,
                n as int % lay.cols as int + TILE,
                lay.height(),
                lay.width(),
            );
        }
        let r: usize = n / lay.cols + TILE;
        let c: usize = n % lay.cols + TILE;
        assert(0 <= r * cols) by (nonlinear_arith);
        let i: usize = r * cols + c;
        assert(i == world_pixel(*lay, n as int));
        assert(reaches(seeds@[i as int], i as int / lay.width(), i as int % lay.width()));
        let d: i32 = dist2(seeds[i], r as i32, c as i32);
        let off: bool = match exact[i] {
            Some(e) => d < 0 || d as u64 != e,
            None => true,
        };
        proof {
            crate::light2d::cpu::lemma_square(
                crate::light2d::cpu::seed_row(seeds@[i as int]) - r,
            );
            crate::light2d::cpu::lemma_square(
                crate::light2d::cpu::seed_col(seeds@[i as int]) - c,
            );
        }
        if off {
            out.push((d, exact[i]));
        }
        n = n + 1;
    }
    out
}

} // verus!
