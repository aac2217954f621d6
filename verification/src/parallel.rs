//! Work spread over threads.
use crate::grid::{at, lemma_at, lemma_cell_of, lemma_row_bound};
use rayon::iter::{IntoParallelIterator, ParallelIterator};
use vstd::prelude::*;

verus! {

/// `rayon`'s `into_par_iter` over a range of indices, its `map`, and its
/// `collect` into a vector. Trusted of them: the result has one item for every
/// index, in order, and item `i` is what `f` returned when it was called with
/// `i`. On which threads the calls run, and in what order, is left open.
#[verifier::external_body]
pub(crate) fn par_map<T: Send, F: Fn(usize) -> T + Sync + Send>(n: usize, f: F) -> (out: Vec<T>)
    requires
        forall|i: usize| i < n ==> call_requires(f, (i,)),
    ensures
        out@.len() == n,
        forall|i: usize| i < n ==> call_ensures(f, (i,), #[trigger] out@[i as int]),
{
    (0..n).into_par_iter().map(f).collect()
}

/// `rayon`'s `current_num_threads`. Trusted of it: a pool has at least one
/// thread and at most 65535. How many there are depends on the machine and on
/// how the pool was built, so two calls may differ.
#[verifier::external_body]
pub(crate) fn threads() -> (n: usize)
    ensures
        1 <= n <= 65535,
{
    rayon::current_num_threads()
}

/// An image of `rows x cols` pixels, row by row: `f` makes pixel `(r, c)`, and
/// the pixels are made in parallel.
pub fn map_grid<T: Send, F: Fn(usize, usize) -> T + Sync + Send>(rows: usize, cols: usize, f: F) -> (out:
    Vec<T>)
    requires
        rows * cols <= usize::MAX,
        forall|r: usize, c: usize| r < rows && c < cols ==> #[trigger] call_requires(f, (r, c)),
    ensures
        out@.len() == rows * cols,
        forall|r: usize, c: usize|
            #![trigger at(r as int, c as int, cols as int)]
            r < rows && c < cols ==> call_ensures(
                f,
                (r, c),
                out@[at(r as int, c as int, cols as int)],
            ),
{
    let n: usize = rows * cols;
    let out = par_map(
        n,
        |i: usize| -> (p: T)
            requires
                n > i,
                n == rows * cols,
                forall|r: usize, c: usize| r < rows && c < cols ==> #[trigger] call_requires(f, (r, c)),
            ensures
                cols > 0,
                call_ensures(f, ((i / cols) as usize, (i % cols) as usize), p),
            {
                proof {
                    assert(cols > 0) by (nonlinear_arith)
                        requires
                            n == rows * cols,
                            n > i,
                    ;
                    lemma_row_bound(i as int, rows as int, cols as int);
                    lemma_cell_of(i as int, cols as int);
                }
                f(i / cols, i % cols)
            });
    proof {
        assert forall|r: usize, c: usize|
            #![trigger at(r as int, c as int, cols as int)]
            r < rows && c < cols implies call_ensures(
            f,
            (r, c),
            out@[at(r as int, c as int, cols as int)],
        ) by {
            lemma_at(r as int, c as int, rows as int, cols as int);
            let i = at(r as int, c as int, cols as int) as usize;
            assert(i / cols == r && i % cols == c);
            assert(call_ensures(f, ((i / cols) as usize, (i % cols) as usize), out@[i as int]));
        }
    }
    out
}

} // verus!
