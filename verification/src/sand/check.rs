//! Comparing two worlds, and counting what is in one.
use crate::sand::laws::population;
use crate::sand::world::{kind, kind_of};
use vstd::prelude::*;

verus! {

/// How many elements there are.
pub const ELEMENTS: usize = 9;

/// The positions among the first `n` at which two worlds differ, in order.
pub open spec fn apart(a: Seq<i32>, b: Seq<i32>, n: nat) -> Seq<usize>
    decreases n,
{
    if n == 0 {
        seq![]
    } else if a[n - 1] != b[n - 1] {
        apart(a, b, (n - 1) as nat).push((n - 1) as usize)
    } else {
        apart(a, b, (n - 1) as nat)
    }
}

/// The positions at which two worlds differ, as far as both go.
pub fn differing(a: &[i32], b: &[i32]) -> (out: Vec<usize>)
    ensures
        out@ == apart(
            a@,
            b@,
            if a@.len() <= b@.len() {
                a@.len()
            } else {
                b@.len()
            },
        ),
{
    let n: usize = if a.len() <= b.len() {
        a.len()
    } else {
        b.len()
    };
    let mut out: Vec<usize> = Vec::new();
    let mut i: usize = 0;
    while i < n
        invariant
            i <= n,
            n <= a@.len(),
            n <= b@.len(),
            out@ == apart(a@, b@, i as nat),
        decreases n - i,
    {
        if a[i] != b[i] {
            out.push(i);
        }
        i = i + 1;
    }
    out
}

/// Two worlds of one size differ nowhere just when they are the same.
pub proof fn law_apart(a: Seq<i32>, b: Seq<i32>, n: nat)
    requires
        n <= a.len(),
        n <= b.len(),
    ensures
        apart(a, b, n).len() <= n,
        apart(a, b, n).len() == 0 <==> a.take(n as int) == b.take(n as int),
    decreases n,
{
    if n > 0 {
        law_apart(a, b, (n - 1) as nat);
        if apart(a, b, n).len() == 0 {
            assert forall|i: int| 0 <= i < n implies a.take(n as int)[i] == b.take(n as int)[i] by {
                if i < n - 1 {
                    assert(a.take(n - 1)[i] == b.take(n - 1)[i]);
                }
            }
            assert(a.take(n as int) =~= b.take(n as int));
        }
        if a.take(n as int) == b.take(n as int) {
            assert(a.take(n as int)[n - 1] == b.take(n as int)[n - 1]);
            assert forall|i: int|
                #![trigger a[i]]
                0 <= i < n - 1 implies a[i] == b[i] by {
                assert(a.take(n as int)[i] == b.take(n as int)[i]);
            }
            assert(a.take(n - 1) =~= b.take(n - 1));
        }
    } else {
        assert(a.take(0) =~= b.take(0));
    }
}

/// Count the cells of each element, on top of what was counted before.
pub fn tally(counts: &mut Vec<usize>, cells: &[i32])
    requires
        old(counts)@.len() == ELEMENTS,
        forall|i: int| 0 <= i < cells@.len() ==> 0 <= kind_of(#[trigger] cells@[i]) < ELEMENTS,
        forall|k: int|
            0 <= k < ELEMENTS ==> #[trigger] old(counts)@[k] + cells@.len() <= usize::MAX,
    ensures
        final(counts)@.len() == ELEMENTS,
        forall|k: int|
            0 <= k < ELEMENTS ==> #[trigger] final(counts)@[k] == old(counts)@[k] + population(
                cells@,
                k as i32,
            ),
{
    let mut i: usize = 0;
    assert(cells@.take(0).len() == 0);
    while i < cells.len()
        invariant
            i <= cells@.len(),
            counts@.len() == ELEMENTS,
            old(counts)@.len() == ELEMENTS,
            forall|j: int| 0 <= j < cells@.len() ==> 0 <= kind_of(#[trigger] cells@[j]) < ELEMENTS,
            forall|k: int|
                0 <= k < ELEMENTS ==> #[trigger] old(counts)@[k] + cells@.len() <= usize::MAX,
            forall|k: int|
                0 <= k < ELEMENTS ==> #[trigger] counts@[k] == old(counts)@[k] + population(
                    cells@.take(i as int),
                    k as i32,
                ),
            forall|k: int| 0 <= k < ELEMENTS ==> #[trigger] counts@[k] <= old(counts)@[k] + i,
        decreases cells@.len() - i,
    {
        assert(0 <= kind_of(cells@[i as int]) < ELEMENTS);
        let k: usize = kind(cells[i]) as usize;
        assert(old(counts)@[k as int] + cells@.len() <= usize::MAX);
        assert(counts@[k as int] <= old(counts)@[k as int] + i);
        let n: usize = counts[k] + 1;
        let ghost before = counts@;
        counts.set(k, n);
        proof {
            let had = cells@.take(i as int);
            let has = cells@.take(i + 1);
            assert(has.drop_last() =~= had);
            assert(has.last() == cells@[i as int]);
            assert forall|j: int| 0 <= j < ELEMENTS implies #[trigger] counts@[j] == old(counts)@[j]
                + population(has, j as i32) by {
                assert(before[j] == old(counts)@[j] + population(had, j as i32));
            }
        }
        i = i + 1;
    }
    assert(cells@.take(cells@.len() as int) == cells@);
}

/// The positions that are listed are just those at which two worlds differ, from the
/// first to the last.
pub proof fn law_apart_lists_differences(a: Seq<i32>, b: Seq<i32>, n: nat, i: int, j: int)
    requires
        n <= a.len(),
        n <= b.len(),
        n <= usize::MAX,
    ensures
        0 <= i < n && a[i] != b[i] ==> apart(a, b, n).contains(i as usize),
        0 <= j < apart(a, b, n).len() ==> apart(a, b, n)[j] < n && a[apart(a, b, n)[j] as int]
            != b[apart(a, b, n)[j] as int],
        0 <= i < j < apart(a, b, n).len() ==> apart(a, b, n)[i] < apart(a, b, n)[j],
    decreases n,
{
    if n > 0 {
        let m = (n - 1) as nat;
        law_apart_lists_differences(a, b, m, i, j);
        law_apart_lists_differences(a, b, m, j, i);
        let (had, has) = (apart(a, b, m), apart(a, b, n));
        if 0 <= i < m && a[i] != b[i] {
            let k = choose|k: int| 0 <= k < had.len() && had[k] == i as usize;
            assert(has[k] == i as usize);
        }
        if i == m && a[i] != b[i] {
            assert(has[has.len() - 1] == i as usize);
        }
    }
}

} // verus!
