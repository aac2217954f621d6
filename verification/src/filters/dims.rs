//! Image sizes along the chain, and the padding of its source.
//!
//! Every stencil stage is a "valid" convolution: its output is smaller than
//! its input by twice its radius. The source is padded once by the total
//! radius of the chain, and the edge map comes out at the original size.
use crate::grid::{at, crop, cropped, lemma_at, lemma_crop_fits, lemma_row_bound};
use vstd::prelude::*;

verus! {

/// Image size and chain depth.
#[derive(Clone, Copy)]
pub struct Dims {
    pub rows: usize,
    pub cols: usize,
    pub blur_passes: usize,
}

impl Dims {
    /// The padding on every side: 2 per blur pass, plus 1 for Sobel.
    pub open spec fn pad(self) -> int {
        2 * self.blur_passes + 1
    }

    /// Rows of the padded source.
    pub open spec fn tall(self) -> int {
        self.rows + 2 * self.pad()
    }

    /// Columns of the padded source.
    pub open spec fn wide(self) -> int {
        self.cols + 2 * self.pad()
    }

    /// Whether the padded source can be held in memory at all.
    pub open spec fn fits(self) -> bool {
        self.tall() * self.wide() * 4 <= usize::MAX
    }

    /// 2 per 5x5 blur pass, plus 1 for Sobel.
    pub fn radius(&self) -> (n: usize)
        requires
            self.pad() <= usize::MAX,
        ensures
            n == self.pad(),
    {
        2 * self.blur_passes + 1
    }

    /// Rows of the padded source.
    pub fn padded_rows(&self) -> (n: usize)
        requires
            self.tall() <= usize::MAX,
        ensures
            n == self.tall(),
    {
        self.rows + 2 * self.radius()
    }

    /// Columns of the padded source.
    pub fn padded_cols(&self) -> (n: usize)
        requires
            self.wide() <= usize::MAX,
        ensures
            n == self.wide(),
    {
        self.cols + 2 * self.radius()
    }

    /// The sides of a source that fits in memory fit too.
    pub proof fn lemma_fits(self)
        requires
            self.fits(),
        ensures
            self.tall() <= usize::MAX,
            self.wide() <= usize::MAX,
            self.tall() * self.wide() <= usize::MAX,
            self.rows * self.cols <= self.tall() * self.wide(),
    {
        let (h, w) = (self.tall(), self.wide());
        assert(h <= h * w && w <= h * w && 0 <= h * w) by (nonlinear_arith)
            requires
                h >= 2,
                w >= 2,
        ;
        let (r, c) = (self.rows as int, self.cols as int);
        assert(r * c <= h * w) by (nonlinear_arith)
            requires
                0 <= r <= h,
                0 <= c <= w,
        ;
    }

    /// Pad an RGB image by repeating its edge pixels, as RGBA with alpha 255.
    pub fn pad_rgba(&self, rgb: &[u8]) -> (out: Vec<u8>)
        requires
            self.fits(),
            self.rows > 0,
            self.cols > 0,
            rgb@.len() >= self.rows * self.cols * 3,
        ensures
            out@ == padded(*self, rgb@),
    {
        proof {
            self.lemma_fits();
        }
        let len: usize = rgb.len();
        let (pad, pr, pc): (usize, usize, usize) = (
            self.radius(),
            self.padded_rows(),
            self.padded_cols(),
        );
        let area: usize = pr * pc;
        let mut out: Vec<u8> = Vec::with_capacity(area * 4);
        let mut i: usize = 0;
        while i < area
            invariant
                self.fits(),
                self.rows > 0,
                self.cols > 0,
                rgb@.len() >= self.rows * self.cols * 3,
                len == rgb@.len(),
                pad == self.pad(),
                pc == self.wide(),
                pr == self.tall(),
                area == pr * pc,
                i <= area,
                area * 4 <= usize::MAX,
                out@.len() == 4 * i,
                forall|j: int| 0 <= j < out@.len() ==> #[trigger] out@[j] == padded(*self, rgb@)[j],
            decreases area - i,
        {
            let (r, c): (usize, usize) = (i / pc, i % pc);
            proof {
                lemma_row_bound(i as int, pr as int, pc as int);
            }
            let sr: usize = clamp_to(r, pad, self.rows);
            let sc: usize = clamp_to(c, pad, self.cols);
            proof {
                lemma_at(sr as int, sc as int, self.rows as int, self.cols as int);
                let s = at(sr as int, sc as int, self.cols as int);
                assert(s == source_pixel(*self, i as int));
                assert forall|k: int| 0 <= k < 4 implies #[trigger] padded(*self, rgb@)[4 * i + k]
                    == (if k == 3 {
                    255u8
                } else {
                    rgb@[s * 3 + k]
                }) by {
                    assert((4 * i + k) / 4 == i);
                    assert((4 * i + k) % 4 == k);
                }
                assert(padded(*self, rgb@)[4 * i + 0] == rgb@[s * 3 + 0]);
                assert(padded(*self, rgb@)[4 * i + 1] == rgb@[s * 3 + 1]);
                assert(padded(*self, rgb@)[4 * i + 2] == rgb@[s * 3 + 2]);
                assert(padded(*self, rgb@)[4 * i + 3] == 255);
            }
            let src: usize = (sr * self.cols + sc) * 3;
            out.push(rgb[src]);
            out.push(rgb[src + 1]);
            out.push(rgb[src + 2]);
            out.push(255);
            i += 1;
        }
        assert(out@ =~= padded(*self, rgb@));
        out
    }

    /// The shapes of the buffers of a chain: for every blur pass the one after
    /// its horizontal half and the one after its vertical half, and then the
    /// edge map.
    pub fn stage_shapes(&self) -> (shapes: Vec<(usize, usize)>)
        requires
            self.fits(),
        ensures
            shapes@.len() == 2 * self.blur_passes + 1,
            forall|i: int|
                0 <= i < self.blur_passes ==> {
                    let (mid, out) = (#[trigger] shapes@[2 * i], shapes@[2 * i + 1]);
                    &&& mid.0 == self.tall() - 4 * i
                    &&& mid.1 == self.wide() - 4 * i - 4
                    &&& out.0 == self.tall() - 4 * i - 4
                    &&& out.1 == self.wide() - 4 * i - 4
                },
            shapes@.last() == (self.rows, self.cols),
    {
        proof {
            self.lemma_fits();
        }
        let mut shapes: Vec<(usize, usize)> = Vec::new();
        let (mut h, mut w): (usize, usize) = (self.padded_rows(), self.padded_cols());
        let mut i: usize = 0;
        while i < self.blur_passes
            invariant
                i <= self.blur_passes,
                h == self.tall() - 4 * i,
                w == self.wide() - 4 * i,
                shapes@.len() == 2 * i,
                forall|j: int|
                    0 <= j < i ==> {
                        let (mid, out) = (#[trigger] shapes@[2 * j], shapes@[2 * j + 1]);
                        &&& mid.0 == self.tall() - 4 * j
                        &&& mid.1 == self.wide() - 4 * j - 4
                        &&& out.0 == self.tall() - 4 * j - 4
                        &&& out.1 == self.wide() - 4 * j - 4
                    },
            decreases self.blur_passes - i,
        {
            shapes.push((h, w - 4));
            shapes.push((h - 4, w - 4));
            h = h - 4;
            w = w - 4;
            i += 1;
        }
        shapes.push((h - 2, w - 2));
        shapes
    }

    /// The gray and the blurred stage cut to the original size, given the
    /// padded gray image and the last blurred one, if there is any.
    pub fn stages(&self, gray: &[u8], blurred: Option<&[u8]>) -> (s: (Vec<u8>, Vec<u8>))
        requires
            self.fits(),
            gray@.len() == self.tall() * self.wide(),
            blurred is Some <==> self.blur_passes > 0,
            blurred is Some ==> blurred->0@.len() == (self.rows + 2) * (self.cols + 2),
        ensures
            s.0@ == cropped(gray@, self.wide(), self.pad(), self.rows as int, self.cols as int),
            s.1@ == match blurred {
                Some(b) => cropped(b@, self.cols + 2, 1, self.rows as int, self.cols as int),
                None => s.0@,
            },
    {
        proof {
            self.lemma_fits();
            lemma_crop_fits(
                gray@.len() as int,
                self.tall(),
                self.wide(),
                self.pad(),
                self.rows as int,
                self.cols as int,
            );
        }
        let g = crop(gray, self.padded_cols(), self.radius(), self.rows, self.cols);
        let b = match blurred {
            Some(b) => {
                proof {
                    lemma_crop_fits(
                        b@.len() as int,
                        self.rows + 2,
                        self.cols + 2,
                        1,
                        self.rows as int,
                        self.cols as int,
                    );
                }
                crop(b, self.cols + 2, 1, self.rows, self.cols)
            },
            None => crop(gray, self.padded_cols(), self.radius(), self.rows, self.cols),
        };
        (g, b)
    }
}

/// The row (or column) of the image that padded row `x` repeats.
pub open spec fn clamped(x: int, pad: int, n: int) -> int {
    if x < pad {
        0
    } else if x - pad >= n {
        n - 1
    } else {
        x - pad
    }
}

/// The row (or column) of the image that padded row `x` repeats.
fn clamp_to(x: usize, pad: usize, n: usize) -> (y: usize)
    requires
        n > 0,
    ensures
        y == clamped(x as int, pad as int, n as int),
        y < n,
{
    if x < pad {
        0
    } else if x - pad >= n {
        n - 1
    } else {
        x - pad
    }
}

/// The image pixel that padded pixel `i` repeats.
pub open spec fn source_pixel(d: Dims, i: int) -> int {
    at(
        clamped(i / d.wide(), d.pad(), d.rows as int),
        clamped(i % d.wide(), d.pad(), d.cols as int),
        d.cols as int,
    )
}

/// An RGB image padded by repeating its edge pixels, as RGBA with alpha 255.
pub open spec fn padded(d: Dims, rgb: Seq<u8>) -> Seq<u8> {
    Seq::new(
        (d.tall() * d.wide() * 4) as nat,
        |j: int|
            if j % 4 == 3 {
                255u8
            } else {
                rgb[source_pixel(d, j / 4) * 3 + j % 4]
            },
    )
}

/// The middle of a padded image is the image.
pub proof fn law_padding_keeps_image(d: Dims, r: int, c: int)
    requires
        0 <= r < d.rows,
        0 <= c < d.cols,
    ensures
        source_pixel(d, at(r + d.pad(), c + d.pad(), d.wide())) == at(r, c, d.cols as int),
{
    lemma_at(r + d.pad(), c + d.pad(), d.tall(), d.wide());
}

} // verus!
