//! What to render, and how the work is split up.
use crate::grid::div_ceil;
use vstd::prelude::*;

verus! {

/// How a tile decides when it is done: after a fixed number of iterations, or
/// as soon as all of its pixels have escaped.
#[derive(Clone, Copy, Debug, PartialEq, Eq, Structural)]
pub enum Kernel {
    Fixed,
    EarlyExit,
}

/// Size of the picture and effort per pixel.
#[derive(Clone, Copy, Debug, PartialEq, Eq, Structural)]
pub struct View {
    pub width: usize,
    pub height: usize,
    pub max_iter: u32,
    /// Iterations between two looks at whether any pixel is still iterating.
    pub check_every: i32,
}

impl View {
    /// A tile has to look at least after every iteration.
    pub open spec fn wf(self) -> bool {
        self.check_every >= 1
    }

    pub fn new(width: usize, height: usize, iters: u32, check_every: i32) -> (v: View)
        ensures
            v.wf(),
            v.width == width,
            v.height == height,
            v.max_iter == iters,
            v.check_every == if check_every < 1 { 1 } else { check_every },
    {
        View {
            width,
            height,
            max_iter: iters,
            check_every: if check_every < 1 {
                1
            } else {
                check_every
            },
        }
    }

    /// Iterations between two looks with the given kernel. The fixed kernel
    /// looks only when it has taken all iterations.
    pub fn looks_every(&self, kernel: Kernel) -> (n: u32)
        requires
            self.wf(),
        ensures
            n >= 1,
            kernel is EarlyExit ==> n == self.check_every,
            kernel is Fixed ==> n == if self.max_iter == 0 { 1 } else { self.max_iter },
    {
        match kernel {
            Kernel::Fixed => if self.max_iter == 0 {
                1
            } else {
                self.max_iter
            },
            Kernel::EarlyExit => self.check_every as u32,
        }
    }

    /// Rows and columns of tile programs that cover the picture, and how many
    /// there are.
    pub fn programs(&self, tile: usize) -> (g: (usize, usize, usize))
        requires
            tile >= 1,
            self.height * self.width <= usize::MAX,
        ensures
            g.0 == ceil(self.height as int, tile as int),
            g.1 == ceil(self.width as int, tile as int),
            g.2 == g.0 * g.1,
    {
        let rows: usize = div_ceil(self.height, tile);
        let cols: usize = div_ceil(self.width, tile);
        proof {
            lemma_ceil(self.height as int, tile as int);
            lemma_ceil(self.width as int, tile as int);
            assert(rows * cols <= self.height * self.width) by (nonlinear_arith)
                requires
                    0 <= rows <= self.height,
                    0 <= cols <= self.width,
            ;
        }
        (rows, cols, rows * cols)
    }
}

/// `a / b` rounded up.
pub open spec fn ceil(a: int, b: int) -> int {
    if a == 0 {
        0
    } else {
        (a - 1) / b + 1
    }
}

/// The programs cover the picture, and none of them is left without a pixel.
pub proof fn law_programs_cover(n: int, tile: int)
    requires
        n >= 0,
        tile >= 1,
    ensures
        n <= ceil(n, tile) * tile,
        n > 0 ==> (ceil(n, tile) - 1) * tile < n,
        n == 0 ==> ceil(n, tile) == 0,
{
    if n > 0 {
        let q = (n - 1) / tile;
        assert(q * tile <= n - 1 < q * tile + tile) by (nonlinear_arith)
            requires
                q == (n - 1) / tile,
                tile >= 1,
                n > 0,
        ;
        assert((q + 1) * tile == q * tile + tile) by (nonlinear_arith);
    }
}

proof fn lemma_ceil(n: int, tile: int)
    requires
        n >= 0,
        tile >= 1,
    ensures
        0 <= ceil(n, tile) <= n,
{
    if n > 0 {
        assert(0 <= (n - 1) / tile <= n - 1) by (nonlinear_arith)
            requires
                n > 0,
                tile >= 1,
        ;
    }
}

/// How often a tile looks is what was asked for, at least after every iteration, and once
/// at the end where it has no early exit.
pub proof fn law_looks(w: usize, h: usize, iters: u32, every: i32, view: View, fixed: u32, early: u32)
    requires
        call_ensures(View::new, (w, h, iters, every), view),
        call_ensures(View::looks_every, (&view, Kernel::Fixed), fixed),
        call_ensures(View::looks_every, (&view, Kernel::EarlyExit), early),
    ensures
        view.width == w && view.height == h && view.max_iter == iters,
        every >= 1 ==> early == every,
        every < 1 ==> early == 1,
        iters >= 1 ==> fixed == iters,
        iters == 0 ==> fixed == 1,
{
}

} // verus!
