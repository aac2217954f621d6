//! The links whose length says how far the cloth is stretched.
use crate::cloth::world::{Layout, TILE};
use crate::grid::{at, lemma_at, lemma_cell_of, lemma_row_bound};
use vstd::arithmetic::div_mod::lemma_fundamental_div_mod_converse;
use vstd::prelude::*;

verus! {

/// Buffer index of grid particle `(r, c)`.
pub open spec fn particle(lay: Layout, r: int, c: int) -> usize {
    at(r + TILE, c + TILE, lay.width()) as usize
}

/// The links of particle `(r, c)` to the right and down, where there are such
/// neighbors.
pub open spec fn links_at(lay: Layout, r: int, c: int) -> Seq<(usize, usize)> {
    let here = particle(lay, r, c);
    (if c + 1 < lay.cols {
        seq![(here, particle(lay, r, c + 1))]
    } else {
        seq![]
    }) + (if r + 1 < lay.rows {
        seq![(here, particle(lay, r + 1, c))]
    } else {
        seq![]
    })
}

/// The structural links of the first `n` particles, row by row.
pub open spec fn links_among(lay: Layout, n: nat) -> Seq<(usize, usize)>
    decreases n,
{
    if n == 0 {
        seq![]
    } else {
        links_among(lay, (n - 1) as nat) + links_at(
            lay,
            (n - 1) / lay.cols as int,
            (n - 1) % lay.cols as int,
        )
    }
}

/// All structural links, as pairs of buffer indices.
pub fn structural(lay: &Layout) -> (out: Vec<(usize, usize)>)
    requires
        lay.fits(),
    ensures
        out@ == links_among(*lay, (lay.rows * lay.cols) as nat),
{
    proof {
        lay.lemma_fits();
    }
    let total: usize = lay.rows * lay.cols;
    let mut out: Vec<(usize, usize)> = Vec::new();
    let mut n: usize = 0;
    while n < total
        invariant
            n <= total,
            total == lay.rows * lay.cols,
            lay.fits(),
            lay.height() <= usize::MAX,
            lay.width() <= usize::MAX,
            out@ == links_among(*lay, n as nat),
        decreases total - n,
    {
        proof {
            assert(lay.cols > 0) by (nonlinear_arith)
                requires
                    n < lay.rows * lay.cols,
                    n >= 0,
            ;
            lemma_row_bound(n as int, lay.rows as int, lay.cols as int);
            lemma_cell_of(n as int, lay.cols as int);
        }
        let r: usize = n / lay.cols;
        let c: usize = n % lay.cols;
        let ghost before = out@;
        proof {
            lemma_at(r + TILE, c + TILE, lay.height(), lay.width());
            if c + 1 < lay.cols {
                lemma_at(r + TILE, c + 1 + TILE, lay.height(), lay.width());
            }
            if r + 1 < lay.rows {
                lemma_at(r + 1 + TILE, c + TILE, lay.height(), lay.width());
            }
        }
        let here: usize = lay.index(r, c);
        if c + 1 < lay.cols {
            out.push((here, lay.index(r, c + 1)));
        }
        if r + 1 < lay.rows {
            out.push((here, lay.index(r + 1, c)));
        }
        proof {
            assert(out@ =~= before + links_at(*lay, r as int, c as int));
        }
        n = n + 1;
    }
    out
}

/// Every particle but those of the last column is linked to the right, and
/// every particle but those of the last row is linked down.
pub proof fn law_link_count(lay: Layout, n: nat)
    requires
        lay.rows >= 1,
        lay.cols >= 1,
        n <= lay.rows * lay.cols,
    ensures
        links_among(lay, n).len() == n - n / lay.cols as nat + if n <= (lay.rows - 1) * lay.cols {
            n as int
        } else {
            (lay.rows - 1) * lay.cols
        },
    decreases n,
{
    if n > 0 {
        law_link_count(lay, (n - 1) as nat);
        let m = n - 1;
        let w = lay.cols as int;
        lemma_row_bound(m, lay.rows as int, w);
        lemma_cell_of(m, w);
        let (r, c) = (m / w, m % w);
        if c + 1 < w {
            lemma_fundamental_div_mod_converse(m + 1, w, r, c + 1);
        } else {
            assert(m + 1 == (r + 1) * w) by (nonlinear_arith)
                requires
                    m == r * w + c,
                    c + 1 == w,
            ;
            lemma_fundamental_div_mod_converse(m + 1, w, r + 1, 0);
        }
        assert(r + 1 < lay.rows <==> m < (lay.rows - 1) * w) by (nonlinear_arith)
            requires
                m == r * w + c,
                0 <= c < w,
                0 <= r < lay.rows,
        ;
    } else {
        assert(0 <= (lay.rows - 1) * lay.cols) by (nonlinear_arith)
            requires
                lay.rows >= 1,
                lay.cols >= 1,
        ;
        lemma_fundamental_div_mod_converse(0, lay.cols as int, 0, 0);
    }
}

/// The links of a particle: to the one on its right first and then to the one below it,
/// where the grid goes on. The particles come row by row.
pub proof fn law_one_particle_more(lay: Layout, r: int, c: int)
    requires
        lay.fits(),
        0 <= r < lay.rows,
        0 <= c < lay.cols,
    ensures
        ({
            let w = lay.cols + 64;
            let n = (r * lay.cols + c) as nat;
            let (old, new) = (links_among(lay, n), links_among(lay, n + 1));
            let here = ((r + 32) * w + (c + 32)) as usize;
            let right = ((r + 32) * w + (c + 33)) as usize;
            let below = ((r + 33) * w + (c + 32)) as usize;
            &&& c + 1 < lay.cols && r + 1 < lay.rows ==> new == old + seq![
                (here, right),
                (here, below),
            ]
            &&& c + 1 < lay.cols && r + 1 == lay.rows ==> new == old + seq![(here, right)]
            &&& c + 1 == lay.cols && r + 1 < lay.rows ==> new == old + seq![(here, below)]
            &&& c + 1 == lay.cols && r + 1 == lay.rows ==> new == old
        }),
        links_among(lay, 0).len() == 0,
{
    lemma_at(r, c, lay.rows as int, lay.cols as int);
    let n = (r * lay.cols + c) as nat;
    assert(n as int == at(r, c, lay.cols as int));
    let old = links_among(lay, n);
    let new = links_among(lay, n + 1);
    assert(new =~= old + links_at(lay, r, c));
    let (here, right, below) = (
        particle(lay, r, c),
        particle(lay, r, c + 1),
        particle(lay, r + 1, c),
    );
    if c + 1 < lay.cols && r + 1 < lay.rows {
        assert(links_at(lay, r, c) =~= seq![(here, right), (here, below)]);
    } else if c + 1 < lay.cols {
        assert(links_at(lay, r, c) =~= seq![(here, right)]);
    } else if r + 1 < lay.rows {
        assert(links_at(lay, r, c) =~= seq![(here, below)]);
    } else {
        assert(links_at(lay, r, c) =~= seq![]);
        assert(new =~= old);
    }
}

} // verus!
