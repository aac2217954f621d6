//! Packed `0x00RRGGBB` pixels on their way to a window or a file.
use crate::grid::{at, lemma_at};
use vstd::prelude::*;

verus! {

/// Color of the ring that shows where the brush is.
pub const RING: u32 = 0x00c0c0c0;

/// View packed `i32` pixels (what the kernels store) as the `u32` pixels a
/// window wants: the same bits.
pub fn as_u32(pixels: &[i32]) -> (out: Vec<u32>)
    ensures
        out@.len() == pixels@.len(),
        forall|i: int| 0 <= i < out@.len() ==> #[trigger] out@[i] == pixels@[i] as u32,
{
    let mut out: Vec<u32> = Vec::new();
    let mut k: usize = 0;
    while k < pixels.len()
        invariant
            k <= pixels@.len(),
            out@.len() == k,
            forall|i: int| 0 <= i < k ==> #[trigger] out@[i] == pixels@[i] as u32,
        decreases pixels@.len() - k,
    {
        out.push(pixels[k] as u32);
        k = k + 1;
    }
    out
}

/// One packed pixel of three channel bytes.
pub fn rgb(r: u8, g: u8, b: u8) -> (p: u32)
    ensures
        p == r * 65536 + g * 256 + b,
{
    r as u32 * 65536 + g as u32 * 256 + b as u32
}

/// The red, green or blue byte of a packed pixel, for `shift` 16, 8 or 0.
pub open spec fn channel(p: u32, shift: u32) -> u32 {
    (p >> shift) & 255
}

/// The bytes of a packed pixel are the three that it was made of.
pub proof fn law_channels(r: u8, g: u8, b: u8, p: u32)
    requires
        p == r * 65536 + g * 256 + b,
    ensures
        channel(p, 16) == r,
        channel(p, 8) == g,
        channel(p, 0) == b,
        (p >> 16) as u8 == r,
        (p >> 8) as u8 == g,
        p as u8 == b,
{
    assert(((p >> 16) & 255) == r && ((p >> 8) & 255) == g && ((p >> 0) & 255) == b && (p >> 16) as u8
        == r && (p >> 8) as u8 == g && p as u8 == b) by (bit_vector)
        requires
            p == r * 65536 + g * 256 + b,
    ;
}

/// The pixels as bytes for an image file: red, green and blue of each in turn.
pub fn rgb_bytes(pixels: &[u32]) -> (out: Vec<u8>)
    requires
        pixels@.len() * 3 <= usize::MAX,
    ensures
        out@.len() == pixels@.len() * 3,
        forall|i: int|
            #![trigger pixels@[i]]
            0 <= i < pixels@.len() ==> out@[i * 3] == (pixels@[i] >> 16) as u8 && out@[i * 3 + 1] == (
            pixels@[i] >> 8) as u8 && out@[i * 3 + 2] == pixels@[i] as u8,
{
    let mut out: Vec<u8> = Vec::new();
    let mut k: usize = 0;
    while k < pixels.len()
        invariant
            k <= pixels@.len(),
            out@.len() == k * 3,
            forall|i: int|
                #![trigger pixels@[i]]
                0 <= i < k ==> out@[i * 3] == (pixels@[i] >> 16) as u8 && out@[i * 3 + 1] == (
                pixels@[i] >> 8) as u8 && out@[i * 3 + 2] == pixels@[i] as u8,
        decreases pixels@.len() - k,
    {
        let p: u32 = pixels[k];
        out.push((p >> 16) as u8);
        out.push((p >> 8) as u8);
        out.push(p as u8);
        k = k + 1;
    }
    out
}

/// Some of the points `(x, y)` lies on pixel `(r, c)`.
pub open spec fn is_hit(points: Seq<(i32, i32)>, r: int, c: int) -> bool {
    exists|k: int| 0 <= k < points.len() && (#[trigger] points[k]).0 == c && points[k].1 == r
}

/// Color the pixels that the points `(x, y)` lie on. Points outside the image
/// are left out.
pub fn outline(pixels: &mut Vec<u32>, rows: usize, cols: usize, points: &Vec<(i32, i32)>)
    requires
        old(pixels)@.len() == rows * cols,
    ensures
        final(pixels)@.len() == rows * cols,
        forall|r: int, c: int|
            #![trigger at(r, c, cols as int)]
            0 <= r < rows && 0 <= c < cols ==> final(pixels)@[at(r, c, cols as int)] == (if is_hit(
                points@,
                r,
                c,
            ) {
                RING
            } else {
                old(pixels)@[at(r, c, cols as int)]
            }),
{
    let mut k: usize = 0;
    while k < points.len()
        invariant
            k <= points@.len(),
            pixels@.len() == rows * cols,
            forall|r: int, c: int|
                #![trigger at(r, c, cols as int)]
                0 <= r < rows && 0 <= c < cols ==> pixels@[at(r, c, cols as int)] == (if is_hit(
                    points@.take(k as int),
                    r,
                    c,
                ) {
                    RING
                } else {
                    old(pixels)@[at(r, c, cols as int)]
                }),
        decreases points@.len() - k,
    {
        let (x, y) = points[k];
        let ghost before = pixels@;
        let inside: bool = x >= 0 && y >= 0 && (x as usize) < cols && (y as usize) < rows;
        if inside {
            proof {
                lemma_at(y as int, x as int, rows as int, cols as int);
            }
            let n: usize = pixels.len();
            assert(0 <= y as usize * cols && y as usize * cols + x as usize == at(
                y as int,
                x as int,
                cols as int,
            ) && n == rows * cols) by (nonlinear_arith)
                requires
                    y >= 0,
                    x >= 0,
                    n == rows * cols,
                    at(y as int, x as int, cols as int) == y * cols + x,
                    y as usize == y,
                    x as usize == x,
            ;
            let i: usize = y as usize * cols + x as usize;
            pixels.set(i, RING);
        }
        proof {
            let had = points@.take(k as int);
            let has = points@.take(k + 1);
            assert forall|r: int, c: int|
                #![trigger at(r, c, cols as int)]
                0 <= r < rows && 0 <= c < cols implies pixels@[at(r, c, cols as int)] == (if is_hit(
                has,
                r,
                c,
            ) {
                RING
            } else {
                old(pixels)@[at(r, c, cols as int)]
            }) by {
                lemma_at(r, c, rows as int, cols as int);
                assert(has[k as int] == (x, y));
                assert forall|j: int| 0 <= j < k implies #[trigger] has[j] == had[j] by {}
                if inside {
                    lemma_at(y as int, x as int, rows as int, cols as int);
                    if at(r, c, cols as int) == at(y as int, x as int, cols as int) {
                        assert(r == y && c == x);
                    }
                }
                if is_hit(had, r, c) {
                    let j = choose|j: int| 0 <= j < had.len() && (#[trigger] had[j]).0 == c && had[j].1 == r;
                    assert(has[j] == had[j]);
                    assert(is_hit(has, r, c));
                } else if r == y && c == x {
                    assert(is_hit(has, r, c));
                } else {
                    if is_hit(has, r, c) {
                        let j = choose|j: int|
                            0 <= j < has.len() && (#[trigger] has[j]).0 == c && has[j].1 == r;
                        assert(j < k);
                        assert(had[j] == has[j]);
                    }
                }
            }
        }
        k = k + 1;
    }
    assert(points@.take(points@.len() as int) == points@);
}

/// Whether a window can draw each pixel as a square of `scale x scale`: a
/// power of two, up to `most`.
pub fn is_scale(scale: usize, most: usize) -> (b: bool)
    ensures
        b <==> scale <= most && (scale == 1 || scale == 2 || scale == 4 || scale == 8),
{
    scale <= most && (scale == 1 || scale == 2 || scale == 4 || scale == 8)
}

/// A pixel is hit if its column and row are those of a point.
pub proof fn law_hit_is_member(points: Seq<(i32, i32)>, r: i32, c: i32)
    ensures
        is_hit(points, r as int, c as int) <==> points.contains((c, r)),
{
    if points.contains((c, r)) {
        let k = choose|k: int| 0 <= k < points.len() && points[k] == (c, r);
        assert(points[k].0 == c);
    }
    if is_hit(points, r as int, c as int) {
        let k = choose|k: int|
            0 <= k < points.len() && (#[trigger] points[k]).0 == c && points[k].1 == r;
        assert(points[k] == (c, r));
    }
}

/// What is packed into a pixel comes out again as bytes: red, green and blue, in this
/// order.
pub proof fn law_bytes_of_pixels(r: u8, g: u8, b: u8, p: u32, pixels: &[u32], out: Vec<u8>, i: int)
    requires
        call_ensures(rgb, (r, g, b), p),
        call_ensures(rgb_bytes, (pixels,), out),
        0 <= i < pixels@.len(),
        pixels@[i] == p,
    ensures
        out@.len() == 3 * pixels@.len(),
        out@[3 * i] == r,
        out@[3 * i + 1] == g,
        out@[3 * i + 2] == b,
{
    law_channels(r, g, b, p);
}

} // verus!
