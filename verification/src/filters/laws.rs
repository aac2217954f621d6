//! What the chain promises.
use crate::filters::cpu::{
    across, blur_h, blur_v, blurred, blurred_across, blurred_down, blurred_times, chained, down,
    edges_of, gray_at, grayed, grayscale, luma, run, slope, sobel,
};
use crate::filters::dims::{padded, Dims};
use crate::grid::{at, lemma_at, lemma_cell_of, lemma_row_bound};
use vstd::prelude::*;

verus! {

/// Whether every pixel of an image is between `lo` and `hi`.
pub open spec fn is_within(img: Seq<u8>, lo: int, hi: int) -> bool {
    forall|i: int| 0 <= i < img.len() ==> lo <= #[trigger] img[i] <= hi
}

/// The weights of gray add up to one: gray lies between the darkest and the
/// brightest channel, and a gray color stays what it is.
pub proof fn law_gray_between(r: u8, g: u8, b: u8, lo: u8, hi: u8)
    requires
        lo <= r <= hi,
        lo <= g <= hi,
        lo <= b <= hi,
    ensures
        lo <= luma(r, g, b) <= hi,
{
}

/// A blur pass makes nothing darker than the darkest pixel or brighter than
/// the brightest one.
pub proof fn law_blur_between(img: Seq<u8>, h: int, w: int, lo: int, hi: int)
    requires
        img.len() == h * w,
        h >= 4,
        w > 4,
        is_within(img, lo, hi),
        0 <= lo,
        hi <= 255,
    ensures
        blurred(img, h, w).len() == (h - 4) * (w - 4),
        is_within(blurred(img, h, w), lo, hi),
{
    let mid = blurred_across(img, h, w);
    let w2 = w - 4;
    assert(0 <= h * w2) by (nonlinear_arith)
        requires
            h >= 0,
            w2 >= 0,
    ;
    assert(0 <= (h - 4) * w2) by (nonlinear_arith)
        requires
            h >= 4,
            w2 >= 0,
    ;
    assert forall|i: int| 0 <= i < mid.len() implies 16 * lo <= #[trigger] mid[i] <= 16 * hi by {
        let (r, c) = (i / w2, i % w2);
        lemma_row_bound(i, h, w2);
        lemma_cell_of(i, w2);
        lemma_at(r, c, h, w);
        lemma_at(r, c + 1, h, w);
        lemma_at(r, c + 2, h, w);
        lemma_at(r, c + 3, h, w);
        lemma_at(r, c + 4, h, w);
        assert(16 * lo <= across(img, w, r, c) <= 16 * hi);
    }
    let out = blurred(img, h, w);
    assert forall|i: int| 0 <= i < out.len() implies lo <= #[trigger] out[i] <= hi by {
        let (r, c) = (i / w2, i % w2);
        lemma_row_bound(i, h - 4, w2);
        lemma_cell_of(i, w2);
        lemma_at(r, c, h, w2);
        lemma_at(r + 1, c, h, w2);
        lemma_at(r + 2, c, h, w2);
        lemma_at(r + 3, c, h, w2);
        lemma_at(r + 4, c, h, w2);
        assert(lo <= down(mid, w2, r, c) <= hi);
    }
}

/// Several blur passes do not, either, and leave a smaller image.
pub proof fn law_blurs_between(img: Seq<u8>, h: int, w: int, n: nat, lo: int, hi: int)
    requires
        img.len() == h * w,
        h >= 4 * n,
        w > 4 * n,
        is_within(img, lo, hi),
        0 <= lo,
        hi <= 255,
    ensures
        blurred_times(img, h, w, n).len() == (h - 4 * n) * (w - 4 * n),
        is_within(blurred_times(img, h, w, n), lo, hi),
    decreases n,
{
    if n > 0 {
        let m = (n - 1) as nat;
        law_blurs_between(img, h, w, m, lo, hi);
        law_blur_between(blurred_times(img, h, w, m), h - 4 * m, w - 4 * m, lo, hi);
    }
}

/// Gray is the mean of the channels, with weights of 77, 150 and 29 in 256 for red,
/// green and blue, rounded to the nearest brightness. Alpha does not count.
pub proof fn law_gray_is_weighted(rgba: Seq<u8>, n: int, i: int)
    requires
        0 <= i < n,
        rgba.len() >= 4 * n,
    ensures
        grayed(rgba, n).len() == n,
        ({
            let g = grayed(rgba, n)[i] as int;
            let sum = 77 * rgba[4 * i] + 150 * rgba[4 * i + 1] + 29 * rgba[4 * i + 2];
            256 * g - 128 <= sum < 256 * g + 128
        }),
{
}

/// A blur pass takes the mean of the 5 x 5 pixels around a pixel, weighted by the
/// binomials 1, 4, 6, 4, 1 along both axes, and rounded once.
pub proof fn law_blur_is_binomial(img: Seq<u8>, h: int, w: int, r: int, c: int)
    requires
        img.len() == h * w,
        0 <= r < h - 4,
        0 <= c < w - 4,
    ensures
        blurred(img, h, w).len() == (h - 4) * (w - 4),
        ({
            let px = |i: int, j: int| img[(r + i) * w + (c + j)] as int;
            let row = |i: int| px(i, 0) + 4 * px(i, 1) + 6 * px(i, 2) + 4 * px(i, 3) + px(i, 4);
            let sum = row(0) + 4 * row(1) + 6 * row(2) + 4 * row(3) + row(4);
            let out = blurred(img, h, w)[r * (w - 4) + c] as int;
            256 * out - 128 <= sum < 256 * out + 128
        }),
{
    let w2 = w - 4;
    let mid = blurred_across(img, h, w);
    lemma_mid(img, h, w, r, c);
    lemma_mid(img, h, w, r + 1, c);
    lemma_mid(img, h, w, r + 2, c);
    lemma_mid(img, h, w, r + 3, c);
    lemma_mid(img, h, w, r + 4, c);
    lemma_at(r, c, h - 4, w2);
    assert(blurred(img, h, w)[at(r, c, w2)] == down(mid, w2, r, c) as u8);
}

/// The two halves of a blur pass: the first adds up five pixels side by side, weighted by
/// 1, 4, 6, 4, 1, and the second five of these sums below each other, and divides by 256.
pub proof fn law_half_blurs(img: Seq<u8>, mid: Seq<u16>, h: int, w: int, r: int, c: int)
    requires
        img.len() == h * w,
        mid.len() == h * w,
        forall|i: int| 0 <= i < mid.len() ==> #[trigger] mid[i] <= 4080,
        0 <= r < h,
        0 <= c < w,
    ensures
        ({
            let px = |j: int| img[r * w + (c + j)] as int;
            let sum = |i: int| mid[(r + i) * w + c] as int;
            let out = blurred_down(mid, h, w)[r * w + c] as int;
            let all = sum(0) + 4 * sum(1) + 6 * sum(2) + 4 * sum(3) + sum(4);
            &&& c < w - 4 ==> blurred_across(img, h, w)[r * (w - 4) + c] == px(0) + 4 * px(1) + 6
                * px(2) + 4 * px(3) + px(4)
            &&& r < h - 4 ==> 256 * out - 128 <= all < 256 * out + 128
        }),
{
    if c < w - 4 {
        lemma_mid(img, h, w, r, c);
    }
    if r < h - 4 {
        lemma_at(r, c, h - 4, w);
        lemma_at(r, c, h, w);
        lemma_at(r + 1, c, h, w);
        lemma_at(r + 2, c, h, w);
        lemma_at(r + 3, c, h, w);
        lemma_at(r + 4, c, h, w);
        assert(blurred_down(mid, h, w)[at(r, c, w)] == down(mid, w, r, c) as u8);
    }
}

proof fn lemma_mid(img: Seq<u8>, h: int, w: int, r: int, c: int)
    requires
        img.len() == h * w,
        0 <= r < h,
        0 <= c < w - 4,
    ensures
        blurred_across(img, h, w)[at(r, c, w - 4)] == across(img, w, r, c),
        0 <= across(img, w, r, c) <= 4080,
{
    lemma_at(r, c, h, w - 4);
}

/// Every blur pass counts: one pass more is the binomial mean of what the passes
/// before it gave, four rows shorter and four columns narrower.
pub proof fn law_every_pass_blurs(img: Seq<u8>, h: int, w: int, n: nat, r: int, c: int)
    requires
        img.len() == h * w,
        0 <= r < h - 4 * n - 4,
        0 <= c < w - 4 * n - 4,
    ensures
        blurred_times(img, h, w, 0) == img,
        ({
            let old = blurred_times(img, h, w, n);
            let px = |i: int, j: int| old[(r + i) * (w - 4 * n) + (c + j)] as int;
            let row = |i: int| px(i, 0) + 4 * px(i, 1) + 6 * px(i, 2) + 4 * px(i, 3) + px(i, 4);
            let sum = row(0) + 4 * row(1) + 6 * row(2) + 4 * row(3) + row(4);
            let out = blurred_times(img, h, w, n + 1)[r * (w - 4 * n - 4) + c] as int;
            256 * out - 128 <= sum < 256 * out + 128
        }),
{
    lemma_passes_size(img, h, w, n);
    law_blur_is_binomial(blurred_times(img, h, w, n), h - 4 * n, w - 4 * n, r, c);
}

proof fn lemma_passes_size(img: Seq<u8>, h: int, w: int, n: nat)
    requires
        img.len() == h * w,
        4 * n < h,
        4 * n < w,
    ensures
        blurred_times(img, h, w, n).len() == (h - 4 * n) * (w - 4 * n),
    decreases n,
{
    if n > 0 {
        let m = (n - 1) as nat;
        lemma_passes_size(img, h, w, m);
        assert(0 <= (h - 4 * n) * (w - 4 * n)) by (nonlinear_arith)
            requires
                4 * n < h,
                4 * n < w,
        ;
    }
}

/// The chain makes an image gray, blurs it as often as it was asked to, and takes
/// the edges. It eats up two pixels of the margin with every pass and one with the
/// edges, so that the edge map has the size of the image.
pub proof fn law_chain_stages(d: Dims, rgba: Seq<u8>)
    requires
        d.fits(),
    ensures
        ({
            let p = d.blur_passes as nat;
            let h = d.rows + 2 * (2 * p + 1);
            let w = d.cols + 2 * (2 * p + 1);
            chained(d, rgba) == edges_of(
                blurred_times(grayed(rgba, h * w), h, w, p),
                d.rows + 2,
                d.cols + 2,
            )
        }),
        chained(d, rgba).len() == d.rows * d.cols,
{
    assert(0 <= d.rows * d.cols) by (nonlinear_arith)
        requires
            0 <= d.rows,
            0 <= d.cols,
    ;
}

/// Padding puts a margin of one pixel, and of two for every blur pass, around an
/// image. Its pixels are those of the image next to them.
pub proof fn law_margin_repeats(d: Dims, rgb: Seq<u8>, r: int, c: int, ch: int)
    requires
        d.fits(),
        0 <= r < d.rows + 2 * (2 * d.blur_passes + 1),
        0 <= c < d.cols + 2 * (2 * d.blur_passes + 1),
        0 <= ch < 3,
    ensures
        ({
            let m = 2 * d.blur_passes + 1;
            let w = d.cols + 2 * m;
            let out = padded(d, rgb);
            let nearest = |x: int, n: int|
                if x < m {
                    0
                } else if x < m + n {
                    x - m
                } else {
                    n - 1
                };
            let from = nearest(r, d.rows as int) * d.cols + nearest(c, d.cols as int);
            &&& out.len() == 4 * ((d.rows + 2 * m) * w)
            &&& out[4 * (r * w + c) + ch] == rgb[3 * from + ch]
            &&& out[4 * (r * w + c) + 3] == 255
        }),
{
    let m = 2 * d.blur_passes + 1;
    let w = d.cols + 2 * m;
    lemma_at(r, c, d.rows + 2 * m, w);
    assert(d.tall() * d.wide() == (d.rows + 2 * m) * w);
    let i = at(r, c, w);
    assert((4 * i + ch) / 4 == i && (4 * i + ch) % 4 == ch);
    assert((4 * i + 3) % 4 == 3);
}

/// Edges look the same from the side: the edge map of a transposed image is the
/// transposed edge map.
pub proof fn law_edges_transpose(img: Seq<u8>, turned: Seq<u8>, h: int, w: int, r: int, c: int)
    requires
        img.len() == h * w,
        turned.len() == w * h,
        forall|i: int, j: int|
            #![trigger img[i * w + j]]
            0 <= i < h && 0 <= j < w ==> turned[j * h + i] == img[i * w + j],
        0 <= r < h - 2,
        0 <= c < w - 2,
    ensures
        edges_of(turned, w, h)[c * (h - 2) + r] == edges_of(img, h, w)[r * (w - 2) + c],
{
    lemma_edge(img, h, w, r, c);
    lemma_edge(turned, w, h, c, r);
    assert forall|i: int, j: int| 0 <= i < 3 && 0 <= j < 3 implies #[trigger] turned[at(
        c + j,
        r + i,
        h,
    )] == img[at(r + i, c + j, w)] by {
        assert(img[(r + i) * w + (c + j)] == turned[(c + j) * h + (r + i)]);
    }
    lemma_nine(turned, h, c, r);
    lemma_nine(img, w, r, c);
    assert(turned[at(c, r, h)] == img[at(r, c, w)]) by {
        assert(turned[at(c + 0, r + 0, h)] == img[at(r + 0, c + 0, w)]);
    }
    assert(turned[at(c, r + 1, h)] == img[at(r + 1, c, w)]) by {
        assert(turned[at(c + 0, r + 1, h)] == img[at(r + 1, c + 0, w)]);
    }
    assert(turned[at(c, r + 2, h)] == img[at(r + 2, c, w)]) by {
        assert(turned[at(c + 0, r + 2, h)] == img[at(r + 2, c + 0, w)]);
    }
    assert(turned[at(c + 1, r, h)] == img[at(r, c + 1, w)]) by {
        assert(turned[at(c + 1, r + 0, h)] == img[at(r + 0, c + 1, w)]);
    }
    assert(turned[at(c + 1, r + 2, h)] == img[at(r + 2, c + 1, w)]);
    assert(turned[at(c + 2, r, h)] == img[at(r, c + 2, w)]) by {
        assert(turned[at(c + 2, r + 0, h)] == img[at(r + 0, c + 2, w)]);
    }
    assert(turned[at(c + 2, r + 1, h)] == img[at(r + 1, c + 2, w)]);
    assert(turned[at(c + 2, r + 2, h)] == img[at(r + 2, c + 2, w)]);
}

/// An edge pixel depends on the 3 x 3 pixels around it alone, not on where they are
/// or on the size of the image, and mirroring these from left to right or from top
/// to bottom does not change it.
pub proof fn law_edges_are_local(
    a: Seq<u8>,
    h: int,
    w: int,
    r: int,
    c: int,
    b: Seq<u8>,
    h2: int,
    w2: int,
    r2: int,
    c2: int,
)
    requires
        a.len() == h * w,
        b.len() == h2 * w2,
        0 <= r < h - 2,
        0 <= c < w - 2,
        0 <= r2 < h2 - 2,
        0 <= c2 < w2 - 2,
    ensures
        ({
            let x = |i: int, j: int| a[(r + i) * w + (c + j)];
            let y = |i: int, j: int| b[(r2 + i) * w2 + (c2 + j)];
            let same = edges_of(a, h, w)[r * (w - 2) + c] == edges_of(b, h2, w2)[r2 * (w2 - 2) + c2];
            &&& (forall|i: int, j: int| 0 <= i < 3 && 0 <= j < 3 ==> #[trigger] x(i, j) == y(i, j))
                ==> same
            &&& (forall|i: int, j: int|
                0 <= i < 3 && 0 <= j < 3 ==> #[trigger] x(i, j) == y(i, 2 - j)) ==> same
            &&& (forall|i: int, j: int|
                0 <= i < 3 && 0 <= j < 3 ==> #[trigger] x(i, j) == y(2 - i, j)) ==> same
        }),
{
    lemma_edge(a, h, w, r, c);
    lemma_edge(b, h2, w2, r2, c2);
    lemma_nine(a, w, r, c);
    lemma_nine(b, w2, r2, c2);
    let x = |i: int, j: int| a[(r + i) * w + (c + j)];
    let y = |i: int, j: int| b[(r2 + i) * w2 + (c2 + j)];
    assert(x(0, 0) == a[at(r, c, w)] && x(0, 1) == a[at(r, c + 1, w)] && x(0, 2) == a[at(
        r,
        c + 2,
        w,
    )]);
    assert(x(1, 0) == a[at(r + 1, c, w)] && x(1, 2) == a[at(r + 1, c + 2, w)]);
    assert(x(2, 0) == a[at(r + 2, c, w)] && x(2, 1) == a[at(r + 2, c + 1, w)] && x(2, 2) == a[at(
        r + 2,
        c + 2,
        w,
    )]);
    assert(y(0, 0) == b[at(r2, c2, w2)] && y(0, 1) == b[at(r2, c2 + 1, w2)] && y(0, 2) == b[at(
        r2,
        c2 + 2,
        w2,
    )]);
    assert(y(1, 0) == b[at(r2 + 1, c2, w2)] && y(1, 2) == b[at(r2 + 1, c2 + 2, w2)]);
    assert(y(2, 0) == b[at(r2 + 2, c2, w2)] && y(2, 1) == b[at(r2 + 2, c2 + 1, w2)] && y(2, 2)
        == b[at(r2 + 2, c2 + 2, w2)]);
}

/// How strong an edge is. Between two even areas of brightness `u` and `v` it is
/// four times their difference, and a single pixel of brightness `v` in an area of
/// brightness `u` has an edge of twice the difference all around it and none where
/// it is, held to 255.
pub proof fn law_edge_strength(img: Seq<u8>, h: int, w: int, r: int, c: int, u: u8, v: u8)
    requires
        img.len() == h * w,
        0 <= r < h - 2,
        0 <= c < w - 2,
    ensures
        ({
            let px = |i: int, j: int| img[(r + i) * w + (c + j)];
            let edge = edges_of(img, h, w)[r * (w - 2) + c] as int;
            let apart = if u < v {
                v - u
            } else {
                u - v
            };
            let held = |e: int|
                if e > 255 {
                    255
                } else {
                    e
                };
            &&& (forall|i: int, j: int|
                0 <= i < 3 && 0 <= j < 3 ==> #[trigger] px(i, j) == (if i == 2 {
                    v
                } else {
                    u
                })) ==> edge == held(4 * apart)
            &&& (forall|i: int, j: int|
                0 <= i < 3 && 0 <= j < 3 ==> #[trigger] px(i, j) == (if i == 0 {
                    v
                } else {
                    u
                })) ==> edge == held(4 * apart)
            &&& (forall|i: int, j: int|
                0 <= i < 3 && 0 <= j < 3 ==> #[trigger] px(i, j) == (if j == 2 {
                    v
                } else {
                    u
                })) ==> edge == held(4 * apart)
            &&& forall|a: int, b: int|
                0 <= a < 3 && 0 <= b < 3 && #[trigger] px(a, b) == v && (forall|i: int, j: int|
                    0 <= i < 3 && 0 <= j < 3 ==> #[trigger] px(i, j) == (if i == a && j == b {
                        v
                    } else {
                        u
                    })) ==> edge == (if a == 1 && b == 1 {
                    0
                } else {
                    held(2 * apart)
                })
        }),
{
    lemma_edge(img, h, w, r, c);
    lemma_nine(img, w, r, c);
    let px = |i: int, j: int| img[(r + i) * w + (c + j)];
    assert(px(0, 0) == img[at(r, c, w)] && px(0, 1) == img[at(r, c + 1, w)] && px(0, 2) == img[at(
        r,
        c + 2,
        w,
    )]);
    assert(px(1, 0) == img[at(r + 1, c, w)] && px(1, 2) == img[at(r + 1, c + 2, w)]);
    assert(px(2, 0) == img[at(r + 2, c, w)] && px(2, 1) == img[at(r + 2, c + 1, w)] && px(2, 2)
        == img[at(r + 2, c + 2, w)]);
}

proof fn lemma_edge(img: Seq<u8>, h: int, w: int, r: int, c: int)
    requires
        img.len() == h * w,
        0 <= r < h - 2,
        0 <= c < w - 2,
    ensures
        edges_of(img, h, w)[r * (w - 2) + c] == slope(img, w, r, c),
        0 <= slope(img, w, r, c) <= 255,
{
    lemma_at(r, c, h - 2, w - 2);
}

/// Where the 3 x 3 pixels from `(r, c)` on are.
proof fn lemma_nine(img: Seq<u8>, w: int, r: int, c: int)
    ensures
        (r + 0) * w + (c + 0) == at(r, c, w),
        (r + 0) * w + (c + 1) == at(r, c + 1, w),
        (r + 0) * w + (c + 2) == at(r, c + 2, w),
        (r + 1) * w + (c + 0) == at(r + 1, c, w),
        (r + 1) * w + (c + 1) == at(r + 1, c + 1, w),
        (r + 1) * w + (c + 2) == at(r + 1, c + 2, w),
        (r + 2) * w + (c + 0) == at(r + 2, c, w),
        (r + 2) * w + (c + 1) == at(r + 2, c + 1, w),
        (r + 2) * w + (c + 2) == at(r + 2, c + 2, w),
{
}

/// An image of one brightness has no edges.
pub proof fn law_flat_has_no_edges(img: Seq<u8>, h: int, w: int, v: int)
    requires
        img.len() == h * w,
        h >= 2,
        w > 2,
        is_within(img, v, v),
    ensures
        edges_of(img, h, w).len() == (h - 2) * (w - 2),
        is_within(edges_of(img, h, w), 0, 0),
{
    let w2 = w - 2;
    assert(0 <= (h - 2) * w2) by (nonlinear_arith)
        requires
            h >= 2,
            w2 >= 0,
    ;
    let out = edges_of(img, h, w);
    assert forall|i: int| 0 <= i < out.len() implies 0 <= #[trigger] out[i] <= 0 by {
        let (r, c) = (i / w2, i % w2);
        lemma_row_bound(i, h - 2, w2);
        lemma_cell_of(i, w2);
        lemma_at(r, c, h, w);
        lemma_at(r, c + 1, h, w);
        lemma_at(r, c + 2, h, w);
        lemma_at(r + 1, c, h, w);
        lemma_at(r + 1, c + 2, h, w);
        lemma_at(r + 2, c, h, w);
        lemma_at(r + 2, c + 1, h, w);
        lemma_at(r + 2, c + 2, h, w);
        assert(slope(img, w, r, c) == 0);
    }
}

/// A picture of one color has no edges anywhere, however often it is blurred,
/// and its edge map has the size of the picture.
pub proof fn law_plain_picture(d: Dims, rgba: Seq<u8>, r: u8, g: u8, b: u8)
    requires
        d.cols > 0,
        rgba.len() >= d.tall() * d.wide() * 4,
        forall|i: int|
            0 <= i < d.tall() * d.wide() ==> #[trigger] gray_at(rgba, i) == luma(r, g, b),
    ensures
        chained(d, rgba).len() == d.rows * d.cols,
        is_within(chained(d, rgba), 0, 0),
{
    let (h, w) = (d.tall(), d.wide());
    assert(0 <= h * w) by (nonlinear_arith)
        requires
            h >= 0,
            w >= 0,
    ;
    let v = luma(r, g, b);
    law_gray_between(r, g, b, 0, 255);
    let gray = grayed(rgba, h * w);
    assert(is_within(gray, v, v)) by {
        assert forall|i: int| 0 <= i < gray.len() implies v <= #[trigger] gray[i] <= v by {
            assert(gray_at(rgba, i) == v);
        }
    }
    law_blurs_between(gray, h, w, d.blur_passes as nat, v, v);
    law_flat_has_no_edges(
        blurred_times(gray, h, w, d.blur_passes as nat),
        d.rows + 2,
        d.cols + 2,
        v,
    );
}

/// The stages of the chain compute what is said of them here, and so does the chain.
pub proof fn law_stages_are_computed(
    d: Dims,
    rgba: &[u8],
    img: &[u8],
    mid: &[u16],
    h: usize,
    w: usize,
    gray: Vec<u8>,
    across: Vec<u16>,
    down: Vec<u8>,
    edges: Vec<u8>,
    all: Vec<u8>,
)
    requires
        call_ensures(grayscale, (rgba, h), gray),
        call_ensures(blur_h, (img, h, w), across),
        call_ensures(blur_v, (mid, h, w), down),
        call_ensures(sobel, (img, h, w), edges),
        call_ensures(run, (&d, rgba), all),
    ensures
        gray@ == grayed(rgba@, h as int),
        w > 4 && mid@ == across@ ==> blurred(img@, h as int, w as int) == blurred_down(
            mid@,
            h as int,
            w - 4,
        ),
        down@ == blurred_down(mid@, h as int, w as int),
        edges@ == edges_of(img@, h as int, w as int),
        all@ == chained(d, rgba@),
{
}

} // verus!
