//! The stages of the chain, in integer arithmetic.
use crate::filters::dims::Dims;
use crate::grid::{at, lemma_at, lemma_row_bound};
use crate::parallel::par_map;
use vstd::prelude::*;

verus! {

/// The brightness of a color, with BT.601 weights.
pub open spec fn luma(r: u8, g: u8, b: u8) -> int {
    (77 * r + 150 * g + 29 * b + 128) / 256
}

/// The five-tap binomial, not normalized: its weights add up to 16.
pub open spec fn taps(a: int, b: int, c: int, d: int, e: int) -> int {
    a + e + 4 * (b + d) + 6 * c
}

/// The size of a number.
pub open spec fn magnitude(x: int) -> int {
    if x < 0 {
        -x
    } else {
        x
    }
}

/// Pixel `i` of an RGBA image in gray.
pub open spec fn gray_at(rgba: Seq<u8>, i: int) -> int {
    luma(rgba[4 * i], rgba[4 * i + 1], rgba[4 * i + 2])
}

/// An RGBA image of `n` pixels in gray.
pub open spec fn grayed(rgba: Seq<u8>, n: int) -> Seq<u8> {
    Seq::new(n as nat, |i: int| gray_at(rgba, i) as u8)
}

/// Five pixels side by side, from `(r, c)` on.
pub open spec fn across(img: Seq<u8>, w: int, r: int, c: int) -> int {
    taps(
        img[at(r, c, w)] as int,
        img[at(r, c + 1, w)] as int,
        img[at(r, c + 2, w)] as int,
        img[at(r, c + 3, w)] as int,
        img[at(r, c + 4, w)] as int,
    )
}

/// Five sums below each other, from `(r, c)` on, brought back to a pixel.
pub open spec fn down(mid: Seq<u16>, w: int, r: int, c: int) -> int {
    (taps(
        mid[at(r, c, w)] as int,
        mid[at(r + 1, c, w)] as int,
        mid[at(r + 2, c, w)] as int,
        mid[at(r + 3, c, w)] as int,
        mid[at(r + 4, c, w)] as int,
    ) + 128) / 256
}

/// The horizontal half of a blur pass: four columns narrower.
pub open spec fn blurred_across(img: Seq<u8>, h: int, w: int) -> Seq<u16> {
    Seq::new((h * (w - 4)) as nat, |i: int| across(img, w, i / (w - 4), i % (w - 4)) as u16)
}

/// The vertical half of a blur pass: four rows shorter.
pub open spec fn blurred_down(mid: Seq<u16>, h: int, w: int) -> Seq<u8> {
    Seq::new(((h - 4) * w) as nat, |i: int| down(mid, w, i / w, i % w) as u8)
}

/// A blur pass over an image of `h x w` pixels.
pub open spec fn blurred(img: Seq<u8>, h: int, w: int) -> Seq<u8> {
    blurred_down(blurred_across(img, h, w), h, w - 4)
}

/// `n` blur passes.
pub open spec fn blurred_times(img: Seq<u8>, h: int, w: int, n: nat) -> Seq<u8>
    decreases n,
{
    if n == 0 {
        img
    } else {
        let m = n - 1;
        blurred(blurred_times(img, h, w, m as nat), h - 4 * m, w - 4 * m)
    }
}

/// How much an image changes around `(r, c)`, to the right and downwards.
pub open spec fn slope(img: Seq<u8>, w: int, r: int, c: int) -> int {
    let gx = (img[at(r, c + 2, w)] + 2 * img[at(r + 1, c + 2, w)] + img[at(r + 2, c + 2, w)]) - (
    img[at(r, c, w)] + 2 * img[at(r + 1, c, w)] + img[at(r + 2, c, w)]);
    let gy = (img[at(r + 2, c, w)] + 2 * img[at(r + 2, c + 1, w)] + img[at(r + 2, c + 2, w)]) - (
    img[at(r, c, w)] + 2 * img[at(r, c + 1, w)] + img[at(r, c + 2, w)]);
    let sum = magnitude(gx) + magnitude(gy);
    if sum > 255 {
        255
    } else {
        sum
    }
}

/// The Sobel edges of an image of `h x w` pixels: two rows shorter and two
/// columns narrower.
pub open spec fn edges_of(img: Seq<u8>, h: int, w: int) -> Seq<u8> {
    Seq::new(((h - 2) * (w - 2)) as nat, |i: int| slope(img, w, i / (w - 2), i % (w - 2)) as u8)
}

/// The edge map of a padded RGBA image.
pub open spec fn chained(d: Dims, rgba: Seq<u8>) -> Seq<u8> {
    let gray = grayed(rgba, d.tall() * d.wide());
    edges_of(
        blurred_times(gray, d.tall(), d.wide(), d.blur_passes as nat),
        d.rows + 2,
        d.cols + 2,
    )
}

/// Grayscale.
pub fn grayscale(rgba: &[u8], n: usize) -> (out: Vec<u8>)
    requires
        4 * n <= rgba@.len(),
    ensures
        out@ == grayed(rgba@, n as int),
{
    let len: usize = rgba.len();
    let out = par_map(
        n,
        |i: usize| -> (p: u8)
            requires
                n > i,
                4 * n <= rgba@.len(),
                len == rgba@.len(),
            ensures
                p == gray_at(rgba@, i as int),
            {
                let (r, g, b): (u32, u32, u32) = (
                    rgba[4 * i] as u32,
                    rgba[4 * i + 1] as u32,
                    rgba[4 * i + 2] as u32,
                );
                let sum: u32 = 77 * r + 150 * g + 29 * b + 128;
                proof {
                    assert(sum >> 8 == sum / 256) by (bit_vector);
                }
                (sum >> 8) as u8
            });
    assert(out@ =~= grayed(rgba@, n as int));
    out
}

/// The horizontal half of a blur pass.
pub fn blur_h(img: &[u8], h: usize, w: usize) -> (out: Vec<u16>)
    requires
        img@.len() == h * w,
        w > 4,
    ensures
        out@ == blurred_across(img@, h as int, w as int),
{
    let len: usize = img.len();
    let w2: usize = w - 4;
    proof {
        assert(0 <= h * w2 <= h * w) by (nonlinear_arith)
            requires
                0 <= w2 <= w,
        ;
    }
    let n: usize = h * w2;
    let out = par_map(
        n,
        |i: usize| -> (p: u16)
            requires
                n > i,
                n == h * w2,
                w2 == w - 4,
                w > 4,
                len == img@.len(),
                img@.len() == h * w,
            ensures
                p == across(img@, w as int, i as int / (w - 4), i as int % (w - 4)),
            {
                let (r, c): (usize, usize) = (i / w2, i % w2);
                proof {
                    lemma_row_bound(i as int, h as int, w2 as int);
                    lemma_at(r as int, c as int, h as int, w as int);
                    lemma_at(r as int, c + 4, h as int, w as int);
                }
                let k: usize = r * w + c;
                let s: u32 = img[k] as u32 + img[k + 4] as u32 + 4 * (img[k + 1] as u32
                    + img[k + 3] as u32) + 6 * img[k + 2] as u32;
                s as u16
            });
    assert(out@ =~= blurred_across(img@, h as int, w as int));
    out
}

/// The vertical half of a blur pass.
pub fn blur_v(mid: &[u16], h: usize, w: usize) -> (out: Vec<u8>)
    requires
        mid@.len() == h * w,
        h >= 4,
        w > 0,
        forall|i: int| 0 <= i < mid@.len() ==> #[trigger] mid@[i] <= 4080,
    ensures
        out@ == blurred_down(mid@, h as int, w as int),
{
    let len: usize = mid.len();
    let h2: usize = h - 4;
    proof {
        assert(0 <= h2 * w <= h * w) by (nonlinear_arith)
            requires
                0 <= h2 <= h,
        ;
    }
    let n: usize = h2 * w;
    let out = par_map(
        n,
        |i: usize| -> (p: u8)
            requires
                n > i,
                n == h2 * w,
                h2 == h - 4,
                h >= 4,
                w > 0,
                len == mid@.len(),
                mid@.len() == h * w,
                forall|i: int| 0 <= i < mid@.len() ==> #[trigger] mid@[i] <= 4080,
            ensures
                p == down(mid@, w as int, i as int / (w as int), i as int % (w as int)),
            {
                let (r, c): (usize, usize) = (i / w, i % w);
                proof {
                    lemma_row_bound(i as int, h2 as int, w as int);
                    lemma_at(r as int, c as int, h as int, w as int);
                    lemma_at(r + 1, c as int, h as int, w as int);
                    lemma_at(r + 2, c as int, h as int, w as int);
                    lemma_at(r + 3, c as int, h as int, w as int);
                    lemma_at(r + 4, c as int, h as int, w as int);
                }
                let s: u32 = mid[r * w + c] as u32 + mid[(r + 4) * w + c] as u32 + 4 * (mid[(r + 1)
                    * w + c] as u32 + mid[(r + 3) * w + c] as u32) + 6 * mid[(r + 2) * w
                    + c] as u32 + 128;
                proof {
                    assert(s >> 8 == s / 256) by (bit_vector);
                }
                (s >> 8) as u8
            });
    assert(out@ =~= blurred_down(mid@, h as int, w as int));
    out
}

/// Sums of five pixels stay small.
proof fn lemma_across_small(img: Seq<u8>, h: int, w: int)
    ensures
        forall|i: int|
            0 <= i < blurred_across(img, h, w).len() ==> #[trigger] blurred_across(img, h, w)[i]
                <= 4080,
{
}

/// Sobel edges.
pub fn sobel(img: &[u8], h: usize, w: usize) -> (out: Vec<u8>)
    requires
        img@.len() == h * w,
        h >= 2,
        w > 2,
    ensures
        out@ == edges_of(img@, h as int, w as int),
{
    let len: usize = img.len();
    let (h2, w2): (usize, usize) = (h - 2, w - 2);
    proof {
        assert(0 <= h2 * w2 <= h * w) by (nonlinear_arith)
            requires
                0 <= h2 <= h,
                0 <= w2 <= w,
        ;
    }
    let n: usize = h2 * w2;
    let out = par_map(
        n,
        |i: usize| -> (p: u8)
            requires
                n > i,
                n == h2 * w2,
                h2 == h - 2,
                w2 == w - 2,
                h >= 2,
                w > 2,
                len == img@.len(),
                img@.len() == h * w,
            ensures
                p == slope(img@, w as int, i as int / (w - 2), i as int % (w - 2)),
            {
                let (r, c): (usize, usize) = (i / w2, i % w2);
                proof {
                    lemma_row_bound(i as int, h2 as int, w2 as int);
                    lemma_at(r as int, c as int, h as int, w as int);
                    lemma_at(r as int, c + 2, h as int, w as int);
                    lemma_at(r + 1, c as int, h as int, w as int);
                    lemma_at(r + 1, c + 2, h as int, w as int);
                    lemma_at(r + 2, c as int, h as int, w as int);
                    lemma_at(r + 2, c + 2, h as int, w as int);
                }
                let (t, m, b): (usize, usize, usize) = (r * w + c, (r + 1) * w + c, (r + 2) * w + c);
                let (tl, tm, tr): (i32, i32, i32) = (
                    img[t] as i32,
                    img[t + 1] as i32,
                    img[t + 2] as i32,
                );
                let (ml, mr): (i32, i32) = (img[m] as i32, img[m + 2] as i32);
                let (bl, bm, br): (i32, i32, i32) = (
                    img[b] as i32,
                    img[b + 1] as i32,
                    img[b + 2] as i32,
                );
                let gx: i32 = (tr + 2 * mr + br) - (tl + 2 * ml + bl);
                let gy: i32 = (bl + 2 * bm + br) - (tl + 2 * tm + tr);
                let ax: i32 = if gx < 0 {
                    -gx
                } else {
                    gx
                };
                let ay: i32 = if gy < 0 {
                    -gy
                } else {
                    gy
                };
                if ax + ay > 255 {
                    255
                } else {
                    (ax + ay) as u8
                }
            });
    assert(out@ =~= edges_of(img@, h as int, w as int));
    out
}

/// The whole chain: the edge map of a padded RGBA image, at the size of the
/// image before padding.
pub fn run(dims: &Dims, padded_rgba: &[u8]) -> (edges: Vec<u8>)
    requires
        dims.fits(),
        dims.cols > 0,
        padded_rgba@.len() >= dims.tall() * dims.wide() * 4,
    ensures
        edges@ == chained(*dims, padded_rgba@),
        edges@.len() == dims.rows * dims.cols,
{
    proof {
        dims.lemma_fits();
    }
    let (mut h, mut w): (usize, usize) = (dims.padded_rows(), dims.padded_cols());
    let mut img: Vec<u8> = grayscale(padded_rgba, h * w);
    let ghost gray = img@;
    let mut i: usize = 0;
    while i < dims.blur_passes
        invariant
            dims.cols > 0,
            i <= dims.blur_passes,
            h == dims.tall() - 4 * i,
            w == dims.wide() - 4 * i,
            img@.len() == h * w,
            img@ == blurred_times(gray, dims.tall(), dims.wide(), i as nat),
        decreases dims.blur_passes - i,
    {
        let mid: Vec<u16> = blur_h(&img, h, w);
        proof {
            lemma_across_small(img@, h as int, w as int);
            assert(0 <= h * (w - 4)) by (nonlinear_arith)
                requires
                    w >= 4,
                    h >= 0,
            ;
            assert(0 <= (h - 4) * (w - 4)) by (nonlinear_arith)
                requires
                    w >= 4,
                    h >= 4,
            ;
        }
        img = blur_v(&mid, h, w - 4);
        h = h - 4;
        w = w - 4;
        i += 1;
    }
    proof {
        assert(0 <= (h - 2) * (w - 2)) by (nonlinear_arith)
            requires
                w >= 2,
                h >= 2,
        ;
        assert(h - 2 == dims.rows && w - 2 == dims.cols);
    }
    sobel(&img, h, w)
}

} // verus!
