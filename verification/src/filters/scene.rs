//! A synthetic test image: circles and boxes over a background, plus noise on
//! every channel. Edges of the raw image are all noise; blurring it first is
//! what brings the shapes out.
use crate::brush::in_disc;
use crate::grid::{at, lemma_at, lemma_cell_of};
use crate::random::{advance, draw32, high32, state_after};
use vstd::prelude::*;

verus! {

/// `img`, `w` pixels wide, with one color in every pixel of a region.
pub open spec fn painted(
    img: Seq<u8>,
    w: int,
    region: spec_fn(int, int) -> bool,
    color: Seq<u8>,
) -> Seq<u8> {
    Seq::new(
        img.len(),
        |i: int|
            if region(i / 3 % w, i / 3 / w) {
                color[i % 3]
            } else {
                img[i]
            },
    )
}

/// The `n`th number drawn for an image.
pub open spec fn drawn(seed: u64, n: int) -> u32 {
    high32(state_after(seed | 1, n as nat))
}

/// The shorter side of an image.
pub open spec fn short_side(w: int, h: int) -> int {
    if w <= h {
        w
    } else {
        h
    }
}

/// A circle or a box of half-width `size` around `(cx, cy)`. Its far sides are
/// left out.
pub open spec fn shape(cx: int, cy: int, size: int, circle: bool) -> spec_fn(int, int) -> bool {
    |x: int, y: int|
        {
            &&& cx - size <= x < cx + size
            &&& cy - size <= y < cy + size
            &&& circle ==> in_disc(x - cx, y - cy, size)
        }
}

/// The image with the first `n` shapes, circles and boxes in turn. A shape
/// draws its size, its center and its color.
pub open spec fn with_shapes(back: Seq<u8>, w: int, h: int, seed: u64, n: nat) -> Seq<u8>
    decreases n,
{
    if n == 0 {
        back
    } else {
        let i = n - 1;
        let side = short_side(w, h);
        let size = side / 30 + drawn(seed, 6 * i + 1) as int % (side / 6);
        painted(
            with_shapes(back, w, h, seed, i as nat),
            w,
            shape(
                drawn(seed, 6 * i + 2) as int % w,
                drawn(seed, 6 * i + 3) as int % h,
                size,
                i % 2 == 0,
            ),
            seq![
                drawn(seed, 6 * i + 4) as u8,
                drawn(seed, 6 * i + 5) as u8,
                drawn(seed, 6 * i + 6) as u8,
            ],
        )
    }
}

/// A channel with the noise that `draw` stands for: up to 24 either way.
pub open spec fn noisy(v: u8, draw: u32) -> int {
    let x = v + draw % 49 - 24;
    if x < 0 {
        0
    } else if x > 255 {
        255
    } else {
        x
    }
}

/// The image: eighty shapes, and noise on every channel.
pub open spec fn synthetic(back: Seq<u8>, w: int, h: int, seed: u64) -> Seq<u8> {
    let img = with_shapes(back, w, h, seed, 80);
    Seq::new(img.len(), |i: int| noisy(img[i], drawn(seed, 480 + i + 1)) as u8)
}

/// One more pixel of a region painted.
proof fn lemma_painted_one(
    img: Seq<u8>,
    w: int,
    h: int,
    region: spec_fn(int, int) -> bool,
    more: spec_fn(int, int) -> bool,
    color: Seq<u8>,
    x: int,
    y: int,
)
    requires
        img.len() == w * h * 3,
        0 <= x < w,
        0 <= y < h,
        color.len() == 3,
        forall|a: int, b: int| #[trigger] more(a, b) <==> region(a, b) || (a == x && b == y),
    ensures
        0 <= at(y, x, w) * 3,
        at(y, x, w) * 3 + 2 < img.len(),
        painted(img, w, more, color) == painted(img, w, region, color).update(
            at(y, x, w) * 3,
            color[0],
        ).update(at(y, x, w) * 3 + 1, color[1]).update(at(y, x, w) * 3 + 2, color[2]),
{
    lemma_at(y, x, h, w);
    assert(h * w == w * h) by (nonlinear_arith);
    let p = at(y, x, w);
    let one = painted(img, w, region, color);
    let two = painted(img, w, more, color);
    let three = one.update(p * 3, color[0]).update(p * 3 + 1, color[1]).update(p * 3 + 2, color[2]);
    assert(two =~= three) by {
        assert forall|i: int| 0 <= i < img.len() implies two[i] == three[i] by {
            lemma_cell_of(i / 3, w);
            assert(i / 3 % w == x && i / 3 / w == y <==> i / 3 == p);
            assert(i / 3 == p <==> (i == p * 3 || i == p * 3 + 1 || i == p * 3 + 2));
        }
    }
}

/// Regions with the same pixels are painted alike.
proof fn lemma_painted_same(
    img: Seq<u8>,
    w: int,
    h: int,
    region: spec_fn(int, int) -> bool,
    same: spec_fn(int, int) -> bool,
    color: Seq<u8>,
)
    requires
        img.len() == w * h * 3,
        w > 0,
        h > 0,
    ensures
        (forall|a: int, b: int|
            0 <= a < w && 0 <= b < h ==> (#[trigger] region(a, b) <==> same(a, b))) ==> painted(
            img,
            w,
            region,
            color,
        ) == painted(img, w, same, color),
        (forall|a: int, b: int| 0 <= a < w && 0 <= b < h ==> !#[trigger] region(a, b)) ==> painted(
            img,
            w,
            region,
            color,
        ) == img,
{
    assert forall|i: int| 0 <= i < img.len() implies 0 <= #[trigger] (i / 3) % w < w && 0 <= i / 3
        / w < h by {
        lemma_cell_of(i / 3, w);
        assert(h * w == w * h) by (nonlinear_arith);
        crate::grid::lemma_row_bound(i / 3, h, w);
    }
    if forall|a: int, b: int|
        0 <= a < w && 0 <= b < h ==> (#[trigger] region(a, b) <==> same(a, b)) {
        let (p, q) = (painted(img, w, region, color), painted(img, w, same, color));
        assert(p =~= q) by {
            assert forall|i: int| 0 <= i < img.len() implies p[i] == q[i] by {
                assert(0 <= (i / 3) % w < w);
                assert(region(i / 3 % w, i / 3 / w) <==> same(i / 3 % w, i / 3 / w));
            }
        }
    }
    if forall|a: int, b: int| 0 <= a < w && 0 <= b < h ==> !#[trigger] region(a, b) {
        assert(painted(img, w, region, color) =~= img) by {
            assert forall|i: int| 0 <= i < img.len() implies painted(img, w, region, color)[i]
                == img[i] by {
                assert(0 <= (i / 3) % w < w);
                assert(!region(i / 3 % w, i / 3 / w));
            }
        }
    }
}

fn larger(a: i64, b: i64) -> (m: i64)
    ensures
        m == if a >= b { a } else { b },
{
    if a >= b {
        a
    } else {
        b
    }
}

fn smaller(a: i64, b: i64) -> (m: i64)
    ensures
        m == if a <= b { a } else { b },
{
    if a <= b {
        a
    } else {
        b
    }
}

/// Paint a circle or a box.
fn paint_shape(img: Vec<u8>, w: i64, h: i64, cx: i64, cy: i64, size: i64, circle: bool, color: [u8; 3]) -> (out:
    Vec<u8>)
    requires
        0 < w <= u32::MAX,
        0 < h <= u32::MAX,
        img@.len() == w * h * 3,
        0 <= cx < w,
        0 <= cy < h,
        0 <= size <= 0x4000_0000,
    ensures
        out@ == painted(
            img@,
            w as int,
            shape(cx as int, cy as int, size as int, circle),
            color@,
        ),
{
    let ghost before = img@;
    let ghost all = shape(cx as int, cy as int, size as int, circle);
    let mut img = img;
    let len: usize = img.len();
    let (y0, y1): (i64, i64) = (larger(cy - size, 0), smaller(cy + size, h));
    let (x0, x1): (i64, i64) = (larger(cx - size, 0), smaller(cx + size, w));
    let mut y: i64 = y0;
    proof {
        lemma_painted_same(
            before,
            w as int,
            h as int,
            |a: int, b: int| all(a, b) && b < y,
            all,
            color@,
        );
    }
    while y < y1
        invariant
            0 < w <= u32::MAX,
            0 < h <= u32::MAX,
            before.len() == w * h * 3,
            img@.len() == before.len(),
            len == before.len(),
            0 <= cx < w,
            0 <= cy < h,
            0 <= size <= 0x4000_0000,
            all == shape(cx as int, cy as int, size as int, circle),
            y0 == (if cy - size >= 0 { cy - size } else { 0 }),
            y1 == (if cy + size <= h { cy + size } else { h as int }),
            x0 == (if cx - size >= 0 { cx - size } else { 0 }),
            x1 == (if cx + size <= w { cx + size } else { w as int }),
            y0 <= y,
            y <= y1 || y == y0,
            img@ == painted(before, w as int, |a: int, b: int| all(a, b) && b < y, color@),
        decreases y1 - y,
    {
        let mut x: i64 = x0;
        proof {
            lemma_painted_same(
                before,
                w as int,
                h as int,
                |a: int, b: int| all(a, b) && b < y,
                |a: int, b: int| all(a, b) && (b < y || (b == y && a < x)),
                color@,
            );
        }
        while x < x1
            invariant
                0 < w <= u32::MAX,
                0 < h <= u32::MAX,
                before.len() == w * h * 3,
                img@.len() == before.len(),
                len == before.len(),
                0 <= cx < w,
                0 <= cy < h,
                0 <= size <= 0x4000_0000,
                all == shape(cx as int, cy as int, size as int, circle),
                y0 == (if cy - size >= 0 { cy - size } else { 0 }),
                y1 == (if cy + size <= h { cy + size } else { h as int }),
                x0 == (if cx - size >= 0 { cx - size } else { 0 }),
                x1 == (if cx + size <= w { cx + size } else { w as int }),
                y0 <= y < y1,
                x0 <= x,
                x <= x1 || x == x0,
                img@ == painted(
                    before,
                    w as int,
                    |a: int, b: int| all(a, b) && (b < y || (b == y && a < x)),
                    color@,
                ),
            decreases x1 - x,
        {
            let (dx, dy): (i64, i64) = (x - cx, y - cy);
            let ghost region = |a: int, b: int| all(a, b) && (b < y || (b == y && a < x));
            let ghost more = |a: int, b: int| all(a, b) && (b < y || (b == y && a < x + 1));
            proof {
                assert(0 <= dx * dx <= 0x1000_0000_0000_0000 && 0 <= dy * dy
                    <= 0x1000_0000_0000_0000 && 0 <= size * size <= 0x1000_0000_0000_0000)
                    by (nonlinear_arith)
                    requires
                        -0x4000_0000 <= dx <= 0x4000_0000,
                        -0x4000_0000 <= dy <= 0x4000_0000,
                        0 <= size <= 0x4000_0000,
                ;
            }
            if !circle || dx * dx + dy * dy <= size * size {
                proof {
                    lemma_painted_one(
                        before,
                        w as int,
                        h as int,
                        region,
                        more,
                        color@,
                        x as int,
                        y as int,
                    );
                    lemma_at(y as int, x as int, h as int, w as int);
                    assert(0 <= y * w) by (nonlinear_arith)
                        requires
                            0 <= y,
                            0 <= w,
                    ;
                }
                let p: usize = (y as usize * w as usize + x as usize) * 3;
                img[p] = color[0];
                img[p + 1] = color[1];
                img[p + 2] = color[2];
            } else {
                proof {
                    lemma_painted_same(before, w as int, h as int, region, more, color@);
                }
            }
            x += 1;
        }
        proof {
            lemma_painted_same(
                before,
                w as int,
                h as int,
                |a: int, b: int| all(a, b) && (b < y || (b == y && a < x)),
                |a: int, b: int| all(a, b) && b < y + 1,
                color@,
            );
        }
        y += 1;
    }
    proof {
        lemma_painted_same(
            before,
            w as int,
            h as int,
            |a: int, b: int| all(a, b) && b < y,
            all,
            color@,
        );
    }
    img
}

/// Random circles and boxes over a background, plus noise on every channel.
/// `back` is the background, three bytes per pixel.
pub fn synthetic_image(width: u32, height: u32, seed: u64, back: Vec<u8>) -> (img: Vec<u8>)
    requires
        width >= 6,
        height >= 6,
        back@.len() == width * height * 3,
    ensures
        img@ == synthetic(back@, width as int, height as int, seed),
{
    let (w, h): (i64, i64) = (width as i64, height as i64);
    let side: i64 = smaller(w, h);
    let mut rng: u64 = seed | 1;
    let ghost start = rng;
    let ghost first = back@;
    let mut img = back;
    let mut i: i64 = 0;
    while i < 80
        invariant
            0 <= i <= 80,
            w == width,
            h == height,
            width >= 6,
            height >= 6,
            side == short_side(w as int, h as int),
            start == seed | 1,
            rng == state_after(start, (6 * i) as nat),
            first.len() == width * height * 3,
            img@.len() == first.len(),
            img@ == with_shapes(first, w as int, h as int, seed, i as nat),
        decreases 80 - i,
    {
        let ghost n = 6 * i;
        let s1 = advance(rng);
        let s2 = advance(s1);
        let s3 = advance(s2);
        let s4 = advance(s3);
        let s5 = advance(s4);
        let s6 = advance(s5);
        proof {
            reveal_with_fuel(state_after, 7);
            assert(s1 == state_after(start, (n + 1) as nat));
            assert(s2 == state_after(start, (n + 2) as nat));
            assert(s3 == state_after(start, (n + 3) as nat));
            assert(s4 == state_after(start, (n + 4) as nat));
            assert(s5 == state_after(start, (n + 5) as nat));
            assert(s6 == state_after(start, (n + 6) as nat));
        }
        let sixth: i64 = side / 6;
        let size: i64 = side / 30 + draw32(s1) as i64 % sixth;
        let (cx, cy): (i64, i64) = (draw32(s2) as i64 % w, draw32(s3) as i64 % h);
        let color: [u8; 3] = [draw32(s4) as u8, draw32(s5) as u8, draw32(s6) as u8];
        assert(color@ =~= seq![
            drawn(seed, n + 4) as u8,
            drawn(seed, n + 5) as u8,
            drawn(seed, n + 6) as u8,
        ]);
        img = paint_shape(img, w, h, cx, cy, size, i % 2 == 0, color);
        rng = s6;
        i += 1;
    }
    let ghost shapes = img@;
    let mut j: usize = 0;
    while j < img.len()
        invariant
            j <= img@.len(),
            img@.len() == shapes.len(),
            shapes == with_shapes(first, w as int, h as int, seed, 80),
            start == seed | 1,
            rng == state_after(start, (480 + j) as nat),
            forall|k: int|
                0 <= k < j ==> #[trigger] img@[k] == noisy(shapes[k], drawn(seed, 480 + k + 1)) as u8,
            forall|k: int| j <= k < img@.len() ==> #[trigger] img@[k] == shapes[k],
        decreases img.len() - j,
    {
        rng = advance(rng);
        assert(rng == state_after(start, (480 + j + 1) as nat));
        let noise: i32 = (draw32(rng) % 49) as i32 - 24;
        let v: i32 = img[j] as i32 + noise;
        let v: u8 = if v < 0 {
            0
        } else if v > 255 {
            255
        } else {
            v as u8
        };
        img[j] = v;
        j += 1;
    }
    assert(img@ =~= synthetic(first, w as int, h as int, seed));
    img
}

/// What one shape more changes: the pixels that it covers take its color, all others stay.
/// A shape draws its half-width, from a thirtieth of the shorter side on and less than a
/// sixth of it more, its column, its row, and its red, green and blue. It goes from its
/// center that far to the left and up, and one pixel less to the right and down. Every other
/// shape, from the first on, is round.
pub proof fn law_one_shape_more(
    back: Seq<u8>,
    w: int,
    h: int,
    seed: u64,
    n: nat,
    x: int,
    y: int,
    ch: int,
)
    requires
        back.len() == 3 * (w * h),
        0 <= x < w,
        0 <= y < h,
        0 <= ch < 3,
    ensures
        ({
            let draw = |k: nat| high32(state_after(seed | 1, 6 * n + k));
            let side = if w < h {
                w
            } else {
                h
            };
            let size = side / 30 + draw(1) as int % (side / 6);
            let (dx, dy) = (x - draw(2) as int % w, y - draw(3) as int % h);
            let square = -size <= dx < size && -size <= dy < size;
            let round = dx * dx + dy * dy <= size * size;
            let i = 3 * (y * w + x) + ch;
            let (old, new) = (
                with_shapes(back, w, h, seed, n),
                with_shapes(back, w, h, seed, n + 1),
            );
            let color = if ch == 0 {
                draw(4) as u8
            } else if ch == 1 {
                draw(5) as u8
            } else {
                draw(6) as u8
            };
            &&& new.len() == old.len()
            &&& new[i] == (if square && (n % 2 == 0 ==> round) {
                color
            } else {
                old[i]
            })
        }),
        with_shapes(back, w, h, seed, 0) == back,
{
    lemma_shapes_size(back, w, h, seed, n);
    let (old, new) = (with_shapes(back, w, h, seed, n), with_shapes(back, w, h, seed, n + 1));
    let m = n as int;
    let side = short_side(w, h);
    let size = side / 30 + drawn(seed, 6 * m + 1) as int % (side / 6);
    let (cx, cy) = (drawn(seed, 6 * m + 2) as int % w, drawn(seed, 6 * m + 3) as int % h);
    let region = shape(cx, cy, size, m % 2 == 0);
    let color = seq![
        drawn(seed, 6 * m + 4) as u8,
        drawn(seed, 6 * m + 5) as u8,
        drawn(seed, 6 * m + 6) as u8,
    ];
    assert(new == painted(old, w, region, color));
    lemma_painted_at(old, w, h, region, color, x, y, ch);
    lemma_shape(cx, cy, size, m % 2 == 0, x, y);
}

proof fn lemma_shape(cx: int, cy: int, size: int, circle: bool, x: int, y: int)
    ensures
        shape(cx, cy, size, circle)(x, y) <==> -size <= x - cx < size && -size <= y - cy < size && (
        circle ==> (x - cx) * (x - cx) + (y - cy) * (y - cy) <= size * size),
{
}

proof fn lemma_painted_at(
    img: Seq<u8>,
    w: int,
    h: int,
    region: spec_fn(int, int) -> bool,
    color: Seq<u8>,
    x: int,
    y: int,
    ch: int,
)
    requires
        img.len() == 3 * (w * h),
        0 <= x < w,
        0 <= y < h,
        0 <= ch < 3,
    ensures
        painted(img, w, region, color).len() == img.len(),
        painted(img, w, region, color)[3 * (y * w + x) + ch] == (if region(x, y) {
            color[ch]
        } else {
            img[3 * (y * w + x) + ch]
        }),
{
    lemma_at(y, x, h, w);
    let p = at(y, x, w);
    let i = 3 * p + ch;
    assert(i / 3 == p && i % 3 == ch);
    assert(w * h == h * w) by (nonlinear_arith);
}

proof fn lemma_shapes_size(back: Seq<u8>, w: int, h: int, seed: u64, n: nat)
    ensures
        with_shapes(back, w, h, seed, n).len() == back.len(),
    decreases n,
{
    if n > 0 {
        lemma_shapes_size(back, w, h, seed, (n - 1) as nat);
    }
}

/// Noise goes over an image of eighty shapes. Every channel moves by up to 24 either way, as
/// the number drawn for it says, and stops at 0 and 255.
pub proof fn law_noise(back: Seq<u8>, w: int, h: int, seed: u64, i: int)
    requires
        0 <= i < back.len(),
    ensures
        ({
            let was = with_shapes(back, w, h, seed, 80)[i] as int;
            let is = synthetic(back, w, h, seed)[i] as int;
            let by = high32(state_after(seed | 1, (481 + i) as nat)) as int % 49 - 24;
            &&& 0 <= was + by <= 255 ==> is == was + by
            &&& was + by < 0 ==> is == 0
            &&& was + by > 255 ==> is == 255
        }),
        synthetic(back, w, h, seed).len() == back.len(),
{
    lemma_shapes_size(back, w, h, seed, 80);
}

} // verus!
