//! Timing of repeated runs.
use vstd::prelude::*;

verus! {

/// `s` goes up.
pub open spec fn is_sorted(s: Seq<u64>) -> bool {
    forall|i: int, j: int| 0 <= i <= j < s.len() ==> s[i] <= s[j]
}

/// The times in order.
pub open spec fn is_sorted_copy(times: Seq<u64>, s: Seq<u64>) -> bool {
    is_sorted(s) && s.to_multiset() == times.to_multiset() && s.len() == times.len()
}

/// The time in the middle of several runs: the one at position `len / 2` when
/// they are sorted.
pub fn median(times: &Vec<u64>) -> (m: u64)
    requires
        times@.len() > 0,
    ensures
        exists|s: Seq<u64>| #[trigger] is_sorted_copy(times@, s) && m == s[times@.len() as int / 2],
{
    let mut sorted: Vec<u64> = Vec::new();
    let mut k: usize = 0;
    assert(times@.take(0) == Seq::<u64>::empty());
    while k < times.len()
        invariant
            k <= times@.len(),
            is_sorted_copy(times@.take(k as int), sorted@),
        decreases times@.len() - k,
    {
        let x: u64 = times[k];
        let mut i: usize = sorted.len();
        while i > 0 && sorted[i - 1] > x
            invariant
                i <= sorted@.len(),
                is_sorted(sorted@),
                forall|j: int| i <= j < sorted@.len() ==> x < #[trigger] sorted@[j],
            decreases i,
        {
            i = i - 1;
        }
        let ghost before = sorted@;
        sorted.insert(i, x);
        proof {
            assert(is_sorted(sorted@)) by {
                assert forall|a: int, b: int| 0 <= a <= b < sorted@.len() implies sorted@[a]
                    <= sorted@[b] by {
                    let a0 = if a < i {
                        a
                    } else {
                        a - 1
                    };
                    let b0 = if b < i {
                        b
                    } else {
                        b - 1
                    };
                    if a != i && b != i {
                        assert(before[a0] <= before[b0]);
                    } else if a == i && b != i {
                        assert(x < before[b0]);
                    } else if b == i && a != i {
                        assert(before[i - 1] <= x);
                        assert(before[a0] <= before[i - 1]);
                    }
                }
            }
            sorted@.to_multiset_ensures();
            times@.take(k as int).to_multiset_ensures();
            assert(sorted@.remove(i as int) == before);
            assert(sorted@[i as int] == x);
            assert(sorted@.contains(x));
            assert(sorted@.to_multiset() =~= before.to_multiset().insert(x));
            assert(times@.take(k + 1) == times@.take(k as int).push(x));
        }
        k = k + 1;
    }
    assert(times@.take(times@.len() as int) == times@);
    sorted[times.len() / 2]
}

/// Sorting keeps every time as often as it was measured, none after a larger one.
/// So at most half of the times lie on either side of the one in the middle.
pub proof fn law_middle_of_times(times: Seq<u64>, s: Seq<u64>, i: int)
    requires
        is_sorted_copy(times, s),
        0 <= i < s.len(),
    ensures
        s.len() == times.len(),
        forall|t: u64| #[trigger] s.to_multiset().count(t) == times.to_multiset().count(t),
        i <= s.len() / 2 ==> s[i] <= s[s.len() as int / 2],
        i >= s.len() / 2 ==> s[i] >= s[s.len() as int / 2],
{
}

} // verus!
