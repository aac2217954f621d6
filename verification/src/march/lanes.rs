//! Loops that many lanes run side by side, each until its own rule stops it.
//!
//! A rule says where a lane goes next, or that it has stopped. One lane on its
//! own is a loop with a `break`. A tile of lanes has no such loop: all of its
//! lanes take every step together, lanes that have stopped are held in place,
//! and only between whole groups of steps does the tile look whether any lane
//! is still moving.
use vstd::prelude::*;

verus! {

/// `trace` is what `rule` makes of its first item in at most `max` steps: each
/// item follows from the one before it, and the last is where the steps ran out
/// or the rule stopped.
pub open spec fn is_run<P, F: Fn(P) -> Option<P>>(rule: F, trace: Seq<P>, max: nat) -> bool {
    &&& 1 <= trace.len() <= max + 1
    &&& goes_on(rule, trace)
    &&& trace.len() == max + 1 || call_ensures(rule, (trace.last(),), None)
}

/// Each item of `trace` but the first is what `rule` made of the one before it.
pub open spec fn goes_on<P, F: Fn(P) -> Option<P>>(rule: F, trace: Seq<P>) -> bool {
    forall|i: int|
        #![trigger trace[i]]
        0 < i < trace.len() ==> call_ensures(rule, (trace[i - 1],), Some(trace[i]))
}

/// A lane that starts at `start` and may take `max` steps ends at `end` after
/// `n` of them.
pub open spec fn ended<P, F: Fn(P) -> Option<P>>(
    rule: F,
    start: P,
    max: nat,
    end: P,
    n: nat,
) -> bool {
    exists|trace: Seq<P>| #[trigger]
        is_run(rule, trace, max) && trace[0] == start && trace.last() == end && trace.len() == n + 1
}

/// What the rule says of the same place is always the same.
pub open spec fn is_steady<P, F: Fn(P) -> Option<P>>(rule: F) -> bool {
    forall|p: P, a: Option<P>, b: Option<P>| #[trigger]
        call_ensures(rule, (p,), a) && #[trigger] call_ensures(rule, (p,), b) ==> a == b
}

/// One lane: take steps until the rule stops it, `max` at most. Returns where
/// it ended and how many steps it took.
pub fn lane<P: Copy, F: Fn(P) -> Option<P>>(start: P, max: u32, rule: F) -> (out: (P, u32))
    requires
        forall|p: P| call_requires(rule, (p,)),
    ensures
        out.1 <= max,
        ended(rule, start, max as nat, out.0, out.1 as nat),
{
    run_lane(start, max, &rule)
}

/// One lane whose rule is needed further.
pub(crate) fn run_lane<P: Copy, F: Fn(P) -> Option<P>>(start: P, max: u32, rule: &F) -> (out: (
    P,
    u32,
))
    requires
        forall|p: P| call_requires(*rule, (p,)),
    ensures
        out.1 <= max,
        ended(*rule, start, max as nat, out.0, out.1 as nat),
{
    let mut p = start;
    let mut n: u32 = 0;
    let ghost mut trace: Seq<P> = seq![start];
    while n < max
        invariant
            n <= max,
            forall|q: P| call_requires(*rule, (q,)),
            trace.len() == n + 1,
            trace[0] == start,
            trace.last() == p,
            goes_on(*rule, trace),
        decreases max - n,
    {
        match rule(p) {
            Some(next) => {
                proof {
                    let longer = trace.push(next);
                    assert(goes_on(*rule, longer)) by {
                        assert forall|i: int|
                            #![trigger longer[i]]
                            0 < i < longer.len() implies call_ensures(
                            *rule,
                            (longer[i - 1],),
                            Some(longer[i]),
                        ) by {
                            if i < trace.len() {
                                assert(longer[i] == trace[i] && longer[i - 1] == trace[i - 1]);
                            }
                        }
                    }
                    trace = longer;
                }
                p = next;
                n = n + 1;
            },
            None => {
                assert(is_run(*rule, trace, max as nat));
                return (p, n);
            },
        }
    }
    assert(is_run(*rule, trace, max as nat));
    (p, n)
}

/// Where a lane that started at `start` is when its tile has taken `steps`
/// steps: still moving and at the last of them, or stopped before it.
spec fn in_flight<P, F: Fn(P) -> Option<P>>(
    rule: F,
    start: P,
    steps: nat,
    at: (P, u32),
    active: bool,
) -> bool {
    exists|trace: Seq<P>| #[trigger]
        goes_on(rule, trace) && trace.len() == at.1 + 1 && trace[0] == start && trace.last() == at.0
            && (if active {
            at.1 == steps
        } else {
            at.1 < steps && call_ensures(rule, (at.0,), None)
        })
}

proof fn lemma_moved<P, F: Fn(P) -> Option<P>>(
    rule: F,
    start: P,
    steps: nat,
    at: (P, u32),
    next: P,
)
    requires
        in_flight(rule, start, steps, at, true),
        call_ensures(rule, (at.0,), Some(next)),
        at.1 < u32::MAX,
    ensures
        in_flight(rule, start, steps + 1, (next, (at.1 + 1) as u32), true),
{
    let trace = choose|trace: Seq<P>| #[trigger]
        goes_on(rule, trace) && trace.len() == at.1 + 1 && trace[0] == start && trace.last() == at.0;
    let longer = trace.push(next);
    assert forall|i: int|
        #![trigger longer[i]]
        0 < i < longer.len() implies call_ensures(rule, (longer[i - 1],), Some(longer[i])) by {
        if i < trace.len() {
            assert(longer[i] == trace[i] && longer[i - 1] == trace[i - 1]);
        }
    }
    assert(goes_on(rule, longer));
}

proof fn lemma_landed<P, F: Fn(P) -> Option<P>>(
    rule: F,
    start: P,
    steps: nat,
    max: nat,
    at: (P, u32),
    active: bool,
)
    requires
        in_flight(rule, start, steps, at, active),
        steps <= max,
        active ==> steps == max,
    ensures
        ended(rule, start, max, at.0, at.1 as nat),
{
    let trace = choose|trace: Seq<P>| #[trigger]
        goes_on(rule, trace) && trace.len() == at.1 + 1 && trace[0] == start && trace.last() == at.0
            && (if active {
            at.1 == steps
        } else {
            at.1 < steps && call_ensures(rule, (at.0,), None)
        });
    assert(is_run(rule, trace, max));
}

/// One step of every lane of a tile. A lane that has stopped stays where it is.
fn step_lanes<P: Copy, F: Fn(P) -> Option<P>>(
    lanes: &mut Vec<(P, u32)>,
    active: &mut Vec<bool>,
    starts: &Vec<P>,
    steps: u32,
    rule: &F,
)
    requires
        forall|p: P| call_requires(*rule, (p,)),
        steps < u32::MAX,
        old(lanes)@.len() == starts@.len(),
        old(active)@.len() == starts@.len(),
        forall|i: int|
            #![trigger old(lanes)@[i]]
            0 <= i < starts@.len() ==> in_flight(
                *rule,
                starts@[i],
                steps as nat,
                old(lanes)@[i],
                old(active)@[i],
            ),
    ensures
        final(lanes)@.len() == starts@.len(),
        final(active)@.len() == starts@.len(),
        forall|i: int|
            #![trigger final(lanes)@[i]]
            0 <= i < starts@.len() ==> in_flight(
                *rule,
                starts@[i],
                (steps + 1) as nat,
                final(lanes)@[i],
                final(active)@[i],
            ),
        forall|i: int|
            #![trigger final(lanes)@[i]]
            0 <= i < starts@.len() ==> final(lanes)@[i].1 >= old(lanes)@[i].1,
{
    let mut k: usize = 0;
    while k < starts.len()
        invariant
            k <= starts@.len(),
            steps < u32::MAX,
            lanes@.len() == starts@.len(),
            active@.len() == starts@.len(),
            old(lanes)@.len() == starts@.len(),
            old(active)@.len() == starts@.len(),
            forall|p: P| call_requires(*rule, (p,)),
            forall|i: int|
                #![trigger lanes@[i]]
                0 <= i < k ==> in_flight(
                    *rule,
                    starts@[i],
                    (steps + 1) as nat,
                    lanes@[i],
                    active@[i],
                ),
            forall|i: int|
                #![trigger lanes@[i]]
                k <= i < starts@.len() ==> in_flight(
                    *rule,
                    starts@[i],
                    steps as nat,
                    lanes@[i],
                    active@[i],
                ),
            forall|i: int|
                #![trigger lanes@[i]]
                0 <= i < starts@.len() ==> lanes@[i].1 >= old(lanes)@[i].1,
        decreases starts@.len() - k,
    {
        proof {
            assert(in_flight(*rule, starts@[k as int], steps as nat, lanes@[k as int], active@[k as int]));
        }
        if active[k] {
            let (p, n) = lanes[k];
            match rule(p) {
                Some(next) => {
                    proof {
                        lemma_moved(*rule, starts@[k as int], steps as nat, (p, n), next);
                    }
                    lanes[k] = (next, n + 1);
                },
                None => {
                    active[k] = false;
                },
            }
        }
        k = k + 1;
    }
}

/// Whether any lane is still moving.
fn any(active: &Vec<bool>) -> (b: bool)
    ensures
        b <==> exists|i: int| 0 <= i < active@.len() && #[trigger] active@[i],
{
    let mut k: usize = 0;
    while k < active.len()
        invariant
            k <= active@.len(),
            forall|i: int| 0 <= i < k ==> !#[trigger] active@[i],
        decreases active@.len() - k,
    {
        if active[k] {
            return true;
        }
        k = k + 1;
    }
    false
}

/// Every lane stopped before step `bound`.
pub open spec fn all_below(counts: Seq<nat>, bound: nat) -> bool {
    forall|i: int| 0 <= i < counts.len() ==> #[trigger] counts[i] < bound
}

/// How many steps a tile takes whose lanes take `counts` steps: from `done` on
/// it goes in groups of `every`, up to `max`, and stops after the first group
/// at whose end no lane is moving.
pub open spec fn tile_steps(counts: Seq<nat>, done: nat, max: nat, every: nat) -> nat
    decreases max - done,
{
    if done >= max || every == 0 {
        done
    } else {
        let next: nat = if done + every < max {
            done + every
        } else {
            max
        };
        if all_below(counts, next) {
            next
        } else {
            tile_steps(counts, next, max, every)
        }
    }
}

/// The steps that each lane of a tile took.
pub open spec fn counts<P>(lanes: Seq<(P, u32)>) -> Seq<nat> {
    Seq::new(lanes.len(), |i: int| lanes[i].1 as nat)
}

/// Lane for lane at least as many steps as `lanes` has taken.
spec fn later<P>(c: Seq<nat>, lanes: Seq<(P, u32)>) -> bool {
    c.len() == lanes.len() && forall|i: int| 0 <= i < c.len() ==> #[trigger] c[i] >= lanes[i].1
}

/// All lanes of a tile. Returns where each ended with the steps that it took,
/// and the steps that the tile took as a whole. Each lane ends as it would on
/// its own.
pub fn tile<P: Copy, F: Fn(P) -> Option<P>>(
    starts: &Vec<P>,
    max: u32,
    check_every: u32,
    rule: &F,
) -> (out: (Vec<(P, u32)>, u32))
    requires
        check_every >= 1,
        forall|p: P| call_requires(*rule, (p,)),
    ensures
        out.0@.len() == starts@.len(),
        forall|i: int|
            0 <= i < starts@.len() ==> ended(
                *rule,
                starts@[i],
                max as nat,
                (#[trigger] out.0@[i]).0,
                out.0@[i].1 as nat,
            ),
        out.1 == tile_steps(counts(out.0@), 0, max as nat, check_every as nat),
{
    let mut lanes: Vec<(P, u32)> = Vec::new();
    let mut active: Vec<bool> = Vec::new();
    let mut k: usize = 0;
    while k < starts.len()
        invariant
            k <= starts@.len(),
            lanes@.len() == k,
            active@.len() == k,
            forall|i: int|
                #![trigger lanes@[i]]
                0 <= i < k ==> in_flight(*rule, starts@[i], 0, lanes@[i], active@[i]),
        decreases starts@.len() - k,
    {
        lanes.push((starts[k], 0));
        active.push(true);
        proof {
            let trace: Seq<P> = seq![starts@[k as int]];
            assert(goes_on(*rule, trace));
            assert(in_flight(*rule, starts@[k as int], 0, lanes@[k as int], active@[k as int]));
        }
        k = k + 1;
    }
    let mut done: u32 = 0;
    let mut moving: bool = true;
    while moving && done < max
        invariant
            done <= max,
            check_every >= 1,
            lanes@.len() == starts@.len(),
            active@.len() == starts@.len(),
            forall|p: P| call_requires(*rule, (p,)),
            forall|i: int|
                #![trigger lanes@[i]]
                0 <= i < starts@.len() ==> in_flight(
                    *rule,
                    starts@[i],
                    done as nat,
                    lanes@[i],
                    active@[i],
                ),
            moving ==> forall|c: Seq<nat>|
                later(c, lanes@) ==> #[trigger] tile_steps(c, 0, max as nat, check_every as nat)
                    == tile_steps(c, done as nat, max as nat, check_every as nat),
            !moving ==> forall|i: int| 0 <= i < starts@.len() ==> !#[trigger] active@[i],
            !moving ==> tile_steps(counts(lanes@), 0, max as nat, check_every as nat) == done,
        decreases max - done, (if moving {
            1int
        } else {
            0int
        }),
    {
        let chunk: u32 = if check_every < max - done {
            check_every
        } else {
            max - done
        };
        let ghost before = lanes@;
        let ghost first = done;
        let mut s: u32 = 0;
        while s < chunk
            invariant
                s <= chunk,
                first + chunk <= max,
                lanes@.len() == starts@.len(),
                active@.len() == starts@.len(),
                before.len() == starts@.len(),
                forall|p: P| call_requires(*rule, (p,)),
                forall|i: int|
                    #![trigger lanes@[i]]
                    0 <= i < starts@.len() ==> in_flight(
                        *rule,
                        starts@[i],
                        (first + s) as nat,
                        lanes@[i],
                        active@[i],
                    ),
                forall|i: int|
                    #![trigger lanes@[i]]
                    0 <= i < starts@.len() ==> lanes@[i].1 >= before[i].1,
                first == done,
            decreases chunk - s,
        {
            step_lanes(&mut lanes, &mut active, starts, done + s, rule);
            s = s + 1;
        }
        done = done + chunk;
        moving = any(&active);
        proof {
            assert forall|i: int| 0 <= i < starts@.len() implies (active@[i] ==> lanes@[i].1 == done)
                && (!active@[i] ==> #[trigger] lanes@[i].1 < done) by {
                assert(in_flight(*rule, starts@[i], done as nat, lanes@[i], active@[i]));
            }
            if moving {
                let j = choose|j: int| 0 <= j < active@.len() && #[trigger] active@[j];
                assert(lanes@[j].1 == done);
                assert forall|c: Seq<nat>| later(c, lanes@) implies #[trigger] tile_steps(
                    c,
                    0,
                    max as nat,
                    check_every as nat,
                ) == tile_steps(c, done as nat, max as nat, check_every as nat) by {
                    assert(later(c, before)) by {
                        assert forall|i: int| 0 <= i < c.len() implies #[trigger] c[i] >= before[i].1 by {
                            assert(c[i] >= lanes@[i].1);
                        }
                    }
                    assert(c[j] >= done);
                    assert(!all_below(c, done as nat));
                }
            } else {
                let c = counts(lanes@);
                assert(later(c, before)) by {
                    assert forall|i: int| 0 <= i < c.len() implies #[trigger] c[i] >= before[i].1 by {
                        assert(c[i] == lanes@[i].1);
                    }
                }
                assert(all_below(c, done as nat)) by {
                    assert forall|i: int| 0 <= i < c.len() implies #[trigger] c[i] < done by {
                        assert(!active@[i]);
                        assert(lanes@[i].1 < done);
                    }
                }
                assert(tile_steps(c, 0, max as nat, check_every as nat) == tile_steps(
                    c,
                    first as nat,
                    max as nat,
                    check_every as nat,
                ));
            }
        }
    }
    proof {
        assert forall|i: int| 0 <= i < starts@.len() implies ended(
            *rule,
            starts@[i],
            max as nat,
            (#[trigger] lanes@[i]).0,
            lanes@[i].1 as nat,
        ) by {
            assert(in_flight(*rule, starts@[i], done as nat, lanes@[i], active@[i]));
            lemma_landed(*rule, starts@[i], done as nat, max as nat, lanes@[i], active@[i]);
        }
        if moving {
            assert(later(counts(lanes@), lanes@));
        }
    }
    (lanes, done)
}

/// Where a lane ends does not depend on how it is run: whether alone or in a
/// tile, and however seldom the tile looks, the same start and the same rule
/// give the same end after the same number of steps.
pub proof fn law_one_end<P, F: Fn(P) -> Option<P>>(
    rule: F,
    start: P,
    max: nat,
    end_a: P,
    n_a: nat,
    end_b: P,
    n_b: nat,
)
    requires
        is_steady(rule),
        ended(rule, start, max, end_a, n_a),
        ended(rule, start, max, end_b, n_b),
    ensures
        end_a == end_b,
        n_a == n_b,
{
    let a = choose|trace: Seq<P>| #[trigger]
        is_run(rule, trace, max) && trace[0] == start && trace.last() == end_a && trace.len() == n_a
            + 1;
    let b = choose|trace: Seq<P>| #[trigger]
        is_run(rule, trace, max) && trace[0] == start && trace.last() == end_b && trace.len() == n_b
            + 1;
    let shorter = if a.len() <= b.len() {
        a.len()
    } else {
        b.len()
    };
    lemma_same_way(rule, a, b, (shorter - 1) as nat);
    if a.len() < b.len() {
        assert(b[a.len() as int - 1] == a.last());
        assert(call_ensures(rule, (a.last(),), None::<P>));
        assert(call_ensures(rule, (b[a.len() - 1],), Some(b[a.len() as int])));
    }
    if b.len() < a.len() {
        assert(a[b.len() as int - 1] == b.last());
        assert(call_ensures(rule, (b.last(),), None::<P>));
        assert(call_ensures(rule, (a[b.len() - 1],), Some(a[b.len() as int])));
    }
}

/// A larger budget changes nothing for a lane that stopped within a smaller one:
/// it ends at the same place after the same number of steps.
pub proof fn law_larger_budget<P, F: Fn(P) -> Option<P>>(
    rule: F,
    start: P,
    max: nat,
    end: P,
    n: nat,
    larger: nat,
    end_larger: P,
    n_larger: nat,
)
    requires
        is_steady(rule),
        ended(rule, start, max, end, n),
        n < max <= larger,
        ended(rule, start, larger, end_larger, n_larger),
    ensures
        end_larger == end,
        n_larger == n,
{
    let trace = choose|trace: Seq<P>| #[trigger]
        is_run(rule, trace, max) && trace[0] == start && trace.last() == end && trace.len() == n + 1;
    assert(is_run(rule, trace, larger));
    law_one_end(rule, start, larger, end, n, end_larger, n_larger);
}

/// Where a lane ends, step by step: let each of `pts` be what the rule makes of the
/// one before it. If the rule stops at the last of them and the budget reaches that
/// far, the lane ends there, after so many steps. If there are more of them than the
/// budget allows, it ends where the budget runs out.
pub proof fn law_lane_follows_its_points<P, F: Fn(P) -> Option<P>>(
    rule: F,
    pts: Seq<P>,
    max: nat,
    end: P,
    n: nat,
)
    requires
        is_steady(rule),
        pts.len() >= 1,
        forall|i: int|
            #![trigger pts[i]]
            0 < i < pts.len() ==> call_ensures(rule, (pts[i - 1],), Some(pts[i])),
        ended(rule, pts[0], max, end, n),
    ensures
        pts.len() <= max + 1 && call_ensures(rule, (pts.last(),), None) ==> end == pts.last() && n
            == pts.len() - 1,
        pts.len() >= max + 1 ==> end == pts[max as int] && n == max,
{
    let start = pts[0];
    if pts.len() <= max + 1 && call_ensures(rule, (pts.last(),), None) {
        assert(is_run(rule, pts, max));
        assert(ended(rule, start, max, pts.last(), (pts.len() - 1) as nat));
        law_one_end(rule, start, max, end, n, pts.last(), (pts.len() - 1) as nat);
    }
    if pts.len() >= max + 1 {
        let first = pts.take(max as int + 1);
        assert forall|i: int| #![trigger first[i]] 0 < i < first.len() implies call_ensures(
            rule,
            (first[i - 1],),
            Some(first[i]),
        ) by {
            assert(first[i] == pts[i] && first[i - 1] == pts[i - 1]);
        }
        assert(is_run(rule, first, max));
        assert(ended(rule, start, max, first.last(), max));
        law_one_end(rule, start, max, end, n, first.last(), max);
    }
}

proof fn lemma_same_way<P, F: Fn(P) -> Option<P>>(rule: F, a: Seq<P>, b: Seq<P>, k: nat)
    requires
        is_steady(rule),
        goes_on(rule, a),
        goes_on(rule, b),
        k < a.len(),
        k < b.len(),
        a[0] == b[0],
    ensures
        a[k as int] == b[k as int],
    decreases k,
{
    if k > 0 {
        lemma_same_way(rule, a, b, (k - 1) as nat);
        assert(call_ensures(rule, (a[k - 1],), Some(a[k as int])));
        assert(call_ensures(rule, (b[k - 1],), Some(b[k as int])));
    }
}

/// A tile takes at least the steps of each of its lanes, no more than `max`,
/// and where its lanes take at most `most` steps it stops no later than
/// `every` steps after that.
pub proof fn law_tile_follows_lanes(counts: Seq<nat>, max: nat, every: nat, most: nat)
    requires
        every >= 1,
        forall|i: int| 0 <= i < counts.len() ==> #[trigger] counts[i] <= most,
        most <= max,
    ensures
        tile_steps(counts, 0, max, every) <= max,
        tile_steps(counts, 0, max, every) <= most + every,
        forall|i: int|
            0 <= i < counts.len() ==> #[trigger] counts[i] <= tile_steps(counts, 0, max, every),
{
    lemma_tile_bounds(counts, 0, max, every, most);
}

proof fn lemma_tile_bounds(counts: Seq<nat>, done: nat, max: nat, every: nat, most: nat)
    requires
        every >= 1,
        done <= max,
        done <= most,
        most <= max,
        forall|i: int| 0 <= i < counts.len() ==> #[trigger] counts[i] <= most,
    ensures
        tile_steps(counts, done, max, every) <= max,
        tile_steps(counts, done, max, every) <= most + every,
        forall|i: int|
            0 <= i < counts.len() ==> #[trigger] counts[i] <= tile_steps(counts, done, max, every),
    decreases max - done,
{
    if done < max {
        let next: nat = if done + every < max {
            done + every
        } else {
            max
        };
        if !all_below(counts, next) {
            assert(next <= most);
            lemma_tile_bounds(counts, next, max, every, most);
        }
    }
}

/// A tile that looks only after `max` steps or later takes them all, as if it
/// had no early exit.
pub proof fn law_no_early_exit(counts: Seq<nat>, max: nat, every: nat)
    requires
        every >= max,
    ensures
        tile_steps(counts, 0, max, every) == max,
{
    if max > 0 {
        let next: nat = if 0 + every < max {
            0 + every
        } else {
            max
        };
        assert(tile_steps(counts, next, max, every) == max);
    }
}

/// When a tile stops: it looks every `every` steps, and stops at the first look that
/// finds no lane moving, or when its budget runs out, whichever comes first.
pub proof fn law_tile_stops_at_first_look(counts: Seq<nat>, max: nat, every: nat, k: nat)
    requires
        every >= 1,
    ensures
        ({
            let s = tile_steps(counts, 0, max, every);
            let look = k * every;
            let moving = exists|i: int| 0 <= i < counts.len() && #[trigger] counts[i] >= look;
            &&& s <= max
            &&& s == max || s % every == 0
            &&& 0 < look < s ==> moving
            &&& 0 < look < max && s > look ==> moving
            &&& 0 < look < max && !moving ==> s <= look
            &&& 0 < s < max ==> forall|i: int|
                0 <= i < counts.len() ==> #[trigger] counts[i] < s
            &&& max > 0 ==> s > 0
        }),
{
    lemma_looks(counts, 0, max, every, 0, k);
}

proof fn lemma_looks(counts: Seq<nat>, done: nat, max: nat, every: nat, j: nat, k: nat)
    requires
        every >= 1,
        done == j * every,
        done <= max,
    ensures
        ({
            let s = tile_steps(counts, done, max, every);
            let look = k * every;
            &&& done <= s <= max
            &&& done < max ==> s > done
            &&& s == max || s % every == 0
            &&& done < look < s ==> !all_below(counts, look)
            &&& done < s < max ==> all_below(counts, s)
        }),
    decreases max - done,
{
    vstd::arithmetic::div_mod::lemma_mod_multiples_basic(j as int, every as int);
    if done < max {
        let next: nat = if done + every < max {
            done + every
        } else {
            max
        };
        vstd::arithmetic::div_mod::lemma_mod_multiples_basic((j + 1) as int, every as int);
        assert((j + 1) * every == j * every + every) by (nonlinear_arith);
        if done < k * every < next {
            assert(false) by (nonlinear_arith)
                requires
                    j * every < k * every,
                    k * every < (j + 1) * every,
                    every >= 1,
            ;
        }
        if !all_below(counts, next) {
            if next < max {
                lemma_looks(counts, next, max, every, j + 1, k);
            } else {
                assert(tile_steps(counts, next, max, every) == max);
            }
        }
    }
}

} // verus!
