//! Rays through the distance field, and what they see.
//!
//! Where a ray is and how far it goes is a matter of real numbers, and is
//! handed in: `look` says which pixel a ray is over and whether that pixel
//! exists, `advance` moves the ray on, given the squared distance it has found
//! there.
use crate::grid::{at, lemma_at, lemma_cell_of};
use crate::light2d::cpu::{far2, flood_of, seed_col, seed_row, square, squared_distances};
use crate::light2d::laws::{law_seeds_are_occupied, packs};
use crate::light2d::layout::Layout;
use crate::light2d::scene::{packed, LIGHT};
use crate::parallel::par_map;
use vstd::prelude::*;

verus! {

/// `v`, or the end of `0..=last` that is nearest to it.
pub open spec fn pulled(v: int, last: int) -> int {
    if v < 0 {
        0
    } else if v > last {
        last
    } else {
        v
    }
}

/// Buffer position that a ray reads over pixel `(row, col)`: that pixel, pulled
/// to the nearest edge of the buffer where it lies outside.
pub open spec fn read_at(lay: Layout, row: int, col: int) -> int {
    at(pulled(row, lay.height() - 1), pulled(col, lay.width() - 1), lay.width())
}

/// Whatever pixel a ray is over, it reads inside the buffer, and over a pixel of
/// the buffer it reads that pixel.
pub proof fn law_reads_inside(lay: Layout, row: int, col: int)
    ensures
        0 <= read_at(lay, row, col) < lay.size(),
        0 <= row < lay.height() && 0 <= col < lay.width() ==> read_at(lay, row, col) == at(
            row,
            col,
            lay.width(),
        ),
{
    lemma_at(
        pulled(row, lay.height() - 1),
        pulled(col, lay.width() - 1),
        lay.height(),
        lay.width(),
    );
}

fn pull(v: i32, n: usize) -> (p: usize)
    requires
        n > 0,
    ensures
        p == pulled(v as int, n - 1),
{
    if v < 0 {
        0
    } else if v as usize > n - 1 {
        n - 1
    } else {
        v as usize
    }
}

/// Buffer position that a ray reads over pixel `(row, col)`.
pub fn read_index(lay: &Layout, row: i32, col: i32) -> (i: usize)
    requires
        lay.fits(),
    ensures
        i == read_at(*lay, row as int, col as int),
        i < lay.size(),
{
    proof {
        lay.lemma_fits();
        law_reads_inside(*lay, row as int, col as int);
        lemma_at(
            pulled(row as int, lay.height() - 1),
            pulled(col as int, lay.width() - 1),
            lay.height(),
            lay.width(),
        );
    }
    let cols: usize = lay.buf_cols();
    let r: usize = pull(row, lay.buf_rows());
    let c: usize = pull(col, cols);
    assert(0 <= r * cols) by (nonlinear_arith);
    r * cols + c
}

/// From `p` a ray goes on to `q`: it is over a pixel that exists and is not a
/// surface.
pub open spec fn goes_on<P, L: Fn(P) -> (bool, i32, i32), A: Fn(P, i32) -> P>(
    lay: Layout,
    dist2: Seq<i32>,
    look: L,
    advance: A,
    p: P,
    q: P,
) -> bool {
    exists|o: (bool, i32, i32)| #[trigger]
        call_ensures(look, (p,), o) && o.0 && dist2[read_at(lay, o.1 as int, o.2 as int)] != 0
            && call_ensures(advance, (p, dist2[read_at(lay, o.1 as int, o.2 as int)]), q)
}

/// From `p` a ray leaves the buffer.
pub open spec fn leaves<P, L: Fn(P) -> (bool, i32, i32)>(look: L, p: P) -> bool {
    exists|o: (bool, i32, i32)| #[trigger] call_ensures(look, (p,), o) && !o.0
}

/// At `p` a ray is over the surface at position `i`.
pub open spec fn lands<P, L: Fn(P) -> (bool, i32, i32)>(
    lay: Layout,
    dist2: Seq<i32>,
    look: L,
    p: P,
    i: int,
) -> bool {
    exists|o: (bool, i32, i32)| #[trigger]
        call_ensures(look, (p,), o) && o.0 && i == read_at(lay, o.1 as int, o.2 as int) && dist2[i]
            == 0
}

/// A ray that has been at the points of `way` in turn, and what became of it:
/// the position of the surface it landed on, or nothing where it left the
/// buffer or took all of its steps.
pub open spec fn is_cast<P, L: Fn(P) -> (bool, i32, i32), A: Fn(P, i32) -> P>(
    lay: Layout,
    dist2: Seq<i32>,
    steps: nat,
    look: L,
    advance: A,
    way: Seq<P>,
    hit: Option<usize>,
) -> bool {
    &&& 1 <= way.len() <= steps + 1
    &&& forall|i: int|
        #![trigger way[i]]
        0 < i < way.len() ==> goes_on(lay, dist2, look, advance, way[i - 1], way[i])
    &&& match hit {
        Some(i) => way.len() <= steps && lands(lay, dist2, look, way.last(), i as int),
        None => way.len() == steps + 1 || leaves(look, way.last()),
    }
}

/// One ray from `start`: it goes on, `steps` steps at most, until it is over a
/// surface or leaves the buffer. Returns the position of the surface.
pub fn cast<P: Copy, L: Fn(P) -> (bool, i32, i32), A: Fn(P, i32) -> P>(
    lay: &Layout,
    dist2: &[i32],
    start: P,
    steps: u32,
    look: &L,
    advance: &A,
) -> (hit: Option<usize>)
    requires
        lay.fits(),
        dist2@.len() == lay.size(),
        forall|p: P| call_requires(*look, (p,)),
        forall|p: P, d: i32| call_requires(*advance, (p, d)),
    ensures
        exists|way: Seq<P>| #[trigger]
            is_cast(*lay, dist2@, steps as nat, *look, *advance, way, hit) && way[0] == start,
        hit is Some ==> hit->0 < dist2@.len() && dist2@[hit->0 as int] == 0,
{
    let mut p = start;
    let mut n: u32 = 0;
    let ghost mut way: Seq<P> = seq![start];
    while n < steps
        invariant
            n <= steps,
            lay.fits(),
            dist2@.len() == lay.size(),
            forall|q: P| call_requires(*look, (q,)),
            forall|q: P, d: i32| call_requires(*advance, (q, d)),
            way.len() == n + 1,
            way[0] == start,
            way.last() == p,
            forall|i: int|
                #![trigger way[i]]
                0 < i < way.len() ==> goes_on(*lay, dist2@, *look, *advance, way[i - 1], way[i]),
        decreases steps - n,
    {
        let (inside, row, col) = look(p);
        if !inside {
            proof {
                assert(call_ensures(*look, (p,), (inside, row, col)));
                assert(leaves(*look, p));
                assert(is_cast(*lay, dist2@, steps as nat, *look, *advance, way, None));
            }
            return None;
        }
        let here: usize = read_index(lay, row, col);
        let d: i32 = dist2[here];
        if d == 0 {
            proof {
                assert(call_ensures(*look, (p,), (inside, row, col)));
                assert(lands(*lay, dist2@, *look, p, here as int));
                assert(is_cast(*lay, dist2@, steps as nat, *look, *advance, way, Some(here)));
            }
            return Some(here);
        }
        let q = advance(p, d);
        proof {
            assert(call_ensures(*look, (p,), (inside, row, col)));
            assert(goes_on(*lay, dist2@, *look, *advance, p, q));
            let longer = way.push(q);
            assert forall|i: int|
                #![trigger longer[i]]
                0 < i < longer.len() implies goes_on(
                *lay,
                dist2@,
                *look,
                *advance,
                longer[i - 1],
                longer[i],
            ) by {
                if i < way.len() {
                    assert(longer[i] == way[i] && longer[i - 1] == way[i - 1]);
                }
            }
            way = longer;
        }
        p = q;
        n = n + 1;
    }
    assert(is_cast(*lay, dist2@, steps as nat, *look, *advance, way, None));
    None
}

/// What `look` and `advance` say of the same ray is always the same.
pub open spec fn are_steady<P, L: Fn(P) -> (bool, i32, i32), A: Fn(P, i32) -> P>(
    look: L,
    advance: A,
) -> bool {
    &&& forall|p: P, a: (bool, i32, i32), b: (bool, i32, i32)| #[trigger]
        call_ensures(look, (p,), a) && #[trigger] call_ensures(look, (p,), b) ==> a == b
    &&& forall|p: P, d: i32, a: P, b: P| #[trigger]
        call_ensures(advance, (p, d), a) && #[trigger] call_ensures(advance, (p, d), b) ==> a == b
}

/// Where a ray goes on to is settled by where it is.
proof fn lemma_one_way_on<P, L: Fn(P) -> (bool, i32, i32), A: Fn(P, i32) -> P>(
    lay: Layout,
    dist2: Seq<i32>,
    look: L,
    advance: A,
    p: P,
    o: (bool, i32, i32),
    spot: int,
    q: P,
)
    requires
        are_steady(look, advance),
        call_ensures(look, (p,), o),
        spot == read_at(lay, o.1 as int, o.2 as int),
        goes_on(lay, dist2, look, advance, p, q),
    ensures
        o.0,
        dist2[spot] != 0,
        call_ensures(advance, (p, dist2[spot]), q),
{
    let other = choose|other: (bool, i32, i32)| #[trigger]
        call_ensures(look, (p,), other) && other.0 && dist2[read_at(
            lay,
            other.1 as int,
            other.2 as int,
        )] != 0 && call_ensures(
            advance,
            (p, dist2[read_at(lay, other.1 as int, other.2 as int)]),
            q,
        );
    assert(other == o);
}

/// A ray that goes on through the points of `pts` is at each of them in turn, as
/// far as its steps take it.
proof fn lemma_same_way<P, L: Fn(P) -> (bool, i32, i32), A: Fn(P, i32) -> P>(
    lay: Layout,
    dist2: Seq<i32>,
    look: L,
    advance: A,
    way: Seq<P>,
    pts: Seq<P>,
    over: Seq<(bool, i32, i32)>,
    spots: Seq<int>,
    k: int,
)
    requires
        are_steady(look, advance),
        forall|i: int|
            #![trigger way[i]]
            0 < i < way.len() ==> goes_on(lay, dist2, look, advance, way[i - 1], way[i]),
        forall|i: int|
            #![trigger pts[i]]
            0 <= i < pts.len() ==> call_ensures(look, (pts[i],), over[i]) && spots[i] == read_at(
                lay,
                over[i].1 as int,
                over[i].2 as int,
            ),
        forall|i: int|
            #![trigger pts[i]]
            0 < i < pts.len() ==> call_ensures(advance, (pts[i - 1], dist2[spots[i - 1]]), pts[i]),
        0 <= k < way.len(),
        k < pts.len(),
        way[0] == pts[0],
    ensures
        way[k] == pts[k],
    decreases k,
{
    if k > 0 {
        lemma_same_way(lay, dist2, look, advance, way, pts, over, spots, k - 1);
        let (p, q) = (pts[k - 1], pts[k]);
        assert(goes_on(lay, dist2, look, advance, way[k - 1], way[k]));
        lemma_one_way_on(lay, dist2, look, advance, p, over[k - 1], spots[k - 1], way[k]);
        assert(call_ensures(advance, (p, dist2[spots[k - 1]]), q));
    }
}

/// Where a ray ends, point by point. Let it be at `pts` in turn, each point over
/// the pixel of the buffer whose row and column `look` gives, at position `spots`
/// of the buffer, and each made of the one before it by `advance` with the squared
/// distance found there. Let no point but the last be over a surface. If the last
/// is over a surface and the ray has a step left to find that out, the ray lands
/// there. If the ray has taken all of its steps before, or if it leaves the buffer
/// from there, it lands nowhere.
pub proof fn law_ray_follows_its_points<P: Copy, L: Fn(P) -> (bool, i32, i32), A: Fn(P, i32) -> P>(
    lay: Layout,
    dist2: &[i32],
    steps: u32,
    look: L,
    advance: A,
    pts: Seq<P>,
    over: Seq<(bool, i32, i32)>,
    spots: Seq<int>,
    hit: Option<usize>,
)
    requires
        are_steady(look, advance),
        lay.fits(),
        pts.len() >= 1,
        over.len() == pts.len(),
        spots.len() == pts.len(),
        forall|i: int|
            #![trigger pts[i]]
            0 <= i < pts.len() ==> {
                &&& call_ensures(look, (pts[i],), over[i])
                &&& over[i].0
                &&& 0 <= over[i].1 < lay.height()
                &&& 0 <= over[i].2 < lay.width()
                &&& spots[i] == over[i].1 * lay.width() + over[i].2
            },
        forall|i: int|
            #![trigger pts[i]]
            0 < i < pts.len() ==> {
                &&& dist2@[spots[i - 1]] != 0
                &&& call_ensures(advance, (pts[i - 1], dist2@[spots[i - 1]]), pts[i])
            },
        call_ensures(
            cast::<P, L, A>,
            (&lay, dist2, pts[0], steps, &look, &advance),
            hit,
        ),
    ensures
        pts.len() <= steps && dist2@[spots.last()] == 0 ==> hit == Some(spots.last() as usize),
        pts.len() > steps ==> hit is None,
        forall|gone: P, out: (bool, i32, i32)|
            dist2@[spots.last()] != 0 && #[trigger] call_ensures(
                advance,
                (pts.last(), dist2@[spots.last()]),
                gone,
            ) && #[trigger] call_ensures(look, (gone,), out) && !out.0 ==> hit is None,
{
    let n = pts.len() as int;
    let (dist2, steps) = (dist2@, steps as nat);
    let way = choose|way: Seq<P>| #[trigger]
        is_cast(lay, dist2, steps, look, advance, way, hit) && way[0] == pts[0];
    let m = way.len() as int;
    assert forall|i: int| #![trigger pts[i]] 0 <= i < pts.len() implies call_ensures(
        look,
        (pts[i],),
        over[i],
    ) && spots[i] == read_at(lay, over[i].1 as int, over[i].2 as int) && 0 <= spots[i]
        < lay.size() by {
        let (row, col) = (over[i].1 as int, over[i].2 as int);
        law_reads_inside(lay, row, col);
        assert(call_ensures(look, (pts[i],), over[i]));
        assert(0 <= row < lay.height() && 0 <= col < lay.width());
        assert(spots[i] == at(row, col, lay.width()));
    }
    let k = if m <= n {
        m - 1
    } else {
        n - 1
    };
    lemma_same_way(lay, dist2, look, advance, way, pts, over, spots, k);
    let p = pts[k];
    let o = over[k];
    if m <= n {
        if m < n {
            let next = pts[m];
            assert(dist2[spots[m - 1]] != 0);
        }
        if hit is Some {
            lemma_lands(lay, dist2, look, advance, p, o, spots[k], hit->0 as int);
        } else {
            if leaves(look, p) {
                let other = choose|other: (bool, i32, i32)| #[trigger]
                    call_ensures(look, (p,), other) && !other.0;
                assert(other == o);
            }
        }
    } else {
        let q = way[n];
        assert(goes_on(lay, dist2, look, advance, way[n - 1], q));
        lemma_one_way_on(lay, dist2, look, advance, p, o, spots[k], q);
        assert forall|gone: P, out: (bool, i32, i32)|
            dist2[spots.last()] != 0 && #[trigger] call_ensures(
                advance,
                (pts.last(), dist2[spots.last()]),
                gone,
            ) && #[trigger] call_ensures(look, (gone,), out) && !out.0 implies hit is None by {
            assert(gone == q);
            let spot = read_at(lay, out.1 as int, out.2 as int);
            if m > n + 1 {
                let after = way[n + 1];
                lemma_one_way_on(lay, dist2, look, advance, q, out, spot, after);
            } else if hit is Some {
                lemma_lands(lay, dist2, look, advance, q, out, spot, hit->0 as int);
            }
        }
    }
}

/// Where a ray lands is settled by where it is.
proof fn lemma_lands<P, L: Fn(P) -> (bool, i32, i32), A: Fn(P, i32) -> P>(
    lay: Layout,
    dist2: Seq<i32>,
    look: L,
    advance: A,
    p: P,
    o: (bool, i32, i32),
    spot: int,
    i: int,
)
    requires
        are_steady(look, advance),
        call_ensures(look, (p,), o),
        spot == read_at(lay, o.1 as int, o.2 as int),
        lands(lay, dist2, look, p, i),
    ensures
        o.0,
        i == spot,
        dist2[spot] == 0,
{
    let other = choose|other: (bool, i32, i32)| #[trigger]
        call_ensures(look, (p,), other) && other.0 && i == read_at(
            lay,
            other.1 as int,
            other.2 as int,
        ) && dist2[i] == 0;
    assert(other == o);
}

/// What a ray sees.
#[derive(Clone, Copy, Debug, PartialEq, Eq, Structural)]
pub enum Sight {
    /// It has landed nowhere: the faint sky.
    Sky,
    /// A surface that gives no light.
    Dark,
    /// A light of the color red, green, blue.
    Light(u8, u8, u8),
}

/// What there is to see of a scene pixel.
pub open spec fn seen(v: i32) -> Sight {
    if v >> 24 == LIGHT {
        Sight::Light(((v >> 16) & 255) as u8, ((v >> 8) & 255) as u8, (v & 255) as u8)
    } else {
        Sight::Dark
    }
}

/// What a ray sees that landed at `hit`.
pub fn sight(scene: &[i32], hit: Option<usize>) -> (s: Sight)
    requires
        hit is Some ==> hit->0 < scene@.len(),
    ensures
        s == match hit {
            Some(i) => seen(scene@[i as int]),
            None => Sight::Sky,
        },
{
    match hit {
        None => Sight::Sky,
        Some(i) => {
            let v: i32 = scene[i];
            if v >> 24 == LIGHT {
                Sight::Light(((v >> 16) & 255) as u8, ((v >> 8) & 255) as u8, (v & 255) as u8)
            } else {
                Sight::Dark
            }
        },
    }
}

/// What ray number `ray` of pixel `i` sees: `aim` says where it starts.
pub open spec fn is_sight<P, M: Fn(usize, i32) -> P, L: Fn(P) -> (bool, i32, i32), A: Fn(P, i32) -> P>(
    lay: Layout,
    dist2: Seq<i32>,
    scene: Seq<i32>,
    steps: nat,
    aim: M,
    look: L,
    advance: A,
    i: usize,
    ray: i32,
    s: Sight,
) -> bool {
    exists|way: Seq<P>, hit: Option<usize>| #[trigger]
        is_cast(lay, dist2, steps, look, advance, way, hit) && call_ensures(aim, (i, ray), way[0])
            && s == match hit {
            Some(j) => seen(scene[j as int]),
            None => Sight::Sky,
        }
}

/// What the `rays` rays of pixel `i` see, in turn.
pub fn sights<P: Copy, M: Fn(usize, i32) -> P, L: Fn(P) -> (bool, i32, i32), A: Fn(P, i32) -> P>(
    lay: &Layout,
    dist2: &[i32],
    scene: &[i32],
    rays: i32,
    steps: u32,
    aim: &M,
    look: &L,
    advance: &A,
    i: usize,
) -> (out: Vec<Sight>)
    requires
        lay.fits(),
        dist2@.len() == lay.size(),
        scene@.len() == lay.size(),
        forall|j: usize, ray: i32| call_requires(*aim, (j, ray)),
        forall|p: P| call_requires(*look, (p,)),
        forall|p: P, d: i32| call_requires(*advance, (p, d)),
    ensures
        out@.len() == if rays > 0 { rays as int } else { 0 },
        forall|k: int|
            0 <= k < out@.len() ==> is_sight(
                *lay,
                dist2@,
                scene@,
                steps as nat,
                *aim,
                *look,
                *advance,
                i,
                k as i32,
                #[trigger] out@[k],
            ),
{
    let mut out: Vec<Sight> = Vec::new();
    let mut ray: i32 = 0;
    while ray < rays
        invariant
            0 <= ray,
            ray <= rays || ray == 0,
            lay.fits(),
            dist2@.len() == lay.size(),
            scene@.len() == lay.size(),
            forall|j: usize, k: i32| call_requires(*aim, (j, k)),
            forall|p: P| call_requires(*look, (p,)),
            forall|p: P, d: i32| call_requires(*advance, (p, d)),
            out@.len() == ray,
            forall|k: int|
                0 <= k < out@.len() ==> is_sight(
                    *lay,
                    dist2@,
                    scene@,
                    steps as nat,
                    *aim,
                    *look,
                    *advance,
                    i,
                    k as i32,
                    #[trigger] out@[k],
                ),
        decreases rays - ray,
    {
        let start = aim(i, ray);
        let hit = cast(lay, dist2, start, steps, look, advance);
        let s = sight(scene, hit);
        proof {
            let way = choose|way: Seq<P>| #[trigger]
                is_cast(*lay, dist2@, steps as nat, *look, *advance, way, hit) && way[0] == start;
            assert(is_sight(
                *lay,
                dist2@,
                scene@,
                steps as nat,
                *aim,
                *look,
                *advance,
                i,
                ray,
                s,
            ));
        }
        out.push(s);
        ray = ray + 1;
    }
    out
}

/// One frame of light: every pixel of the buffer casts its rays, and `gather`
/// adds up what they see. The pixels are made in parallel.
pub fn radiance<
    P: Copy,
    T: Send,
    M: Fn(usize, i32) -> P + Sync + Send,
    L: Fn(P) -> (bool, i32, i32) + Sync + Send,
    A: Fn(P, i32) -> P + Sync + Send,
    G: Fn(Vec<Sight>) -> T + Sync + Send,
>(
    lay: &Layout,
    dist2: &[i32],
    scene: &[i32],
    rays: i32,
    steps: u32,
    aim: M,
    look: L,
    advance: A,
    gather: G,
) -> (out: Vec<T>)
    requires
        lay.fits(),
        dist2@.len() == lay.size(),
        scene@.len() == lay.size(),
        forall|j: usize, ray: i32| call_requires(aim, (j, ray)),
        forall|p: P| call_requires(look, (p,)),
        forall|p: P, d: i32| call_requires(advance, (p, d)),
        forall|v: Vec<Sight>| call_requires(gather, (v,)),
    ensures
        out@.len() == lay.size(),
        forall|i: usize|
            i < lay.size() ==> is_lit(
                *lay,
                dist2@,
                scene@,
                rays,
                steps as nat,
                aim,
                look,
                advance,
                gather,
                i,
                #[trigger] out@[i as int],
            ),
{
    let n: usize = dist2.len();
    let out = par_map(
        n,
        |i: usize| -> (t: T)
            requires
                n > i,
                lay.fits(),
                n == lay.size(),
                dist2@.len() == lay.size(),
                scene@.len() == lay.size(),
                forall|j: usize, ray: i32| call_requires(aim, (j, ray)),
                forall|p: P| call_requires(look, (p,)),
                forall|p: P, d: i32| call_requires(advance, (p, d)),
                forall|v: Vec<Sight>| call_requires(gather, (v,)),
            ensures
                is_lit(
                    *lay,
                    dist2@,
                    scene@,
                    rays,
                    steps as nat,
                    aim,
                    look,
                    advance,
                    gather,
                    i,
                    t,
                ),
            {
                let seen = sights(lay, dist2, scene, rays, steps, &aim, &look, &advance, i);
                gather(seen)
            });
    out
}

/// What `gather` makes of the rays of pixel `i`.
pub open spec fn is_lit<
    P,
    T,
    M: Fn(usize, i32) -> P,
    L: Fn(P) -> (bool, i32, i32),
    A: Fn(P, i32) -> P,
    G: Fn(Vec<Sight>) -> T,
>(
    lay: Layout,
    dist2: Seq<i32>,
    scene: Seq<i32>,
    rays: i32,
    steps: nat,
    aim: M,
    look: L,
    advance: A,
    gather: G,
    i: usize,
    t: T,
) -> bool {
    exists|v: Vec<Sight>| #[trigger]
        call_ensures(gather, (v,), t) && v@.len() == (if rays > 0 {
            rays as int
        } else {
            0
        }) && forall|k: int|
            0 <= k < v@.len() ==> is_sight(
                lay,
                dist2,
                scene,
                steps,
                aim,
                look,
                advance,
                i,
                k as i32,
                #[trigger] v@[k],
            )
}

/// A ray that lands on a painted light sees the color it was painted with, and
/// of everything else that can be painted it sees no light.
pub proof fn law_sees_paint(kind: i32, r: u8, g: u8, b: u8)
    requires
        0 <= kind < 128,
    ensures
        seen(packed(kind, r, g, b)) == if kind == LIGHT {
            Sight::Light(r, g, b)
        } else {
            Sight::Dark
        },
{
    crate::light2d::scene::law_pack(kind, r, g, b);
}

/// In the field of a flooded scene, rays land only where something is painted.
pub proof fn law_lands_on_paint(lay: Layout, scene: Seq<i32>, i: int)
    requires
        packs(lay),
        scene.len() == lay.size(),
        0 <= i < scene.len(),
        squared_distances(flood_of(lay, scene), lay.width())[i] == 0,
    ensures
        scene[i] != 0,
{
    law_seeds_are_occupied(lay, scene, i);
    let s = flood_of(lay, scene)[i];
    let (r, c) = (i / lay.width(), i % lay.width());
    lemma_cell_of(i, lay.width());
    let (dr, dc) = (seed_row(s) - r, seed_col(s) - c);
    assert(far2(s, r, c) == 0);
    assert(dr == 0 && dc == 0) by (nonlinear_arith)
        requires
            square(dr) + square(dc) == 0,
            square(dr) == dr * dr,
            square(dc) == dc * dc,
    ;
}

} // verus!
