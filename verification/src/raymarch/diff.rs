//! How far two packed pictures are apart.
use crate::pixels::channel;
use vstd::prelude::*;

verus! {

/// Per-channel differences between two packed 0RGB images.
#[derive(Clone, Copy, Debug, PartialEq, Eq, Structural)]
pub struct Diff {
    /// The largest difference of a channel.
    pub max: u32,
    /// The differences of all channels, added up.
    pub sum: u64,
    /// Pixels with a channel that is off by more than 8.
    pub over_8: usize,
    /// Pixels of the first image.
    pub pixels: usize,
}

/// The difference of two pixels in one channel.
pub open spec fn gap(x: u32, y: u32, shift: u32) -> int {
    if channel(x, shift) >= channel(y, shift) {
        channel(x, shift) - channel(y, shift)
    } else {
        channel(y, shift) - channel(x, shift)
    }
}

/// The differences of two pixels in all channels, added up.
pub open spec fn gaps(x: u32, y: u32) -> int {
    gap(x, y, 0) + gap(x, y, 8) + gap(x, y, 16)
}

/// The largest difference of two pixels in a channel.
pub open spec fn worst(x: u32, y: u32) -> int {
    let lower = if gap(x, y, 0) >= gap(x, y, 8) {
        gap(x, y, 0)
    } else {
        gap(x, y, 8)
    };
    if lower >= gap(x, y, 16) {
        lower
    } else {
        gap(x, y, 16)
    }
}

/// The differences of the first `n` pixels, added up.
pub open spec fn total(a: Seq<u32>, b: Seq<u32>, n: nat) -> int
    decreases n,
{
    if n == 0 {
        0
    } else {
        total(a, b, (n - 1) as nat) + gaps(a[n - 1], b[n - 1])
    }
}

/// How many of the first `n` pixels are off by more than 8.
pub open spec fn far_off(a: Seq<u32>, b: Seq<u32>, n: nat) -> nat
    decreases n,
{
    if n == 0 {
        0
    } else {
        far_off(a, b, (n - 1) as nat) + if worst(a[n - 1], b[n - 1]) > 8 {
            1nat
        } else {
            0nat
        }
    }
}

/// The largest difference of the first `n` pixels.
pub open spec fn peak(a: Seq<u32>, b: Seq<u32>, n: nat) -> int
    decreases n,
{
    if n == 0 {
        0
    } else {
        let before = peak(a, b, (n - 1) as nat);
        if before >= worst(a[n - 1], b[n - 1]) {
            before
        } else {
            worst(a[n - 1], b[n - 1])
        }
    }
}

/// The pixels that both images have.
pub open spec fn shared(a: Seq<u32>, b: Seq<u32>) -> nat {
    if a.len() <= b.len() {
        a.len()
    } else {
        b.len()
    }
}

fn channel_gap(x: u32, y: u32, shift: u32) -> (d: u32)
    requires
        shift < 32,
    ensures
        d == gap(x, y, shift),
        d <= 255,
{
    let p: u32 = (x >> shift) & 255;
    let q: u32 = (y >> shift) & 255;
    assert(p <= 255 && q <= 255) by (bit_vector)
        requires
            p == (x >> shift) & 255,
            q == (y >> shift) & 255,
    ;
    if p >= q {
        p - q
    } else {
        q - p
    }
}

impl Diff {
    /// Compare two images pixel by pixel, as far as both go.
    pub fn new(a: &[u32], b: &[u32]) -> (d: Diff)
        requires
            a@.len() * 765 <= u64::MAX,
        ensures
            d.max == peak(a@, b@, shared(a@, b@)),
            d.sum == total(a@, b@, shared(a@, b@)),
            d.over_8 == far_off(a@, b@, shared(a@, b@)),
            d.pixels == a@.len(),
    {
        let n: usize = if a.len() <= b.len() {
            a.len()
        } else {
            b.len()
        };
        let mut max: u32 = 0;
        let mut sum: u64 = 0;
        let mut over: usize = 0;
        let mut k: usize = 0;
        while k < n
            invariant
                k <= n,
                n <= a@.len(),
                n <= b@.len(),
                n * 765 <= u64::MAX,
                max == peak(a@, b@, k as nat),
                sum == total(a@, b@, k as nat),
                sum <= k * 765,
                over == far_off(a@, b@, k as nat),
                over <= k,
            decreases n - k,
        {
            let lo: u32 = channel_gap(a[k], b[k], 0);
            let mid: u32 = channel_gap(a[k], b[k], 8);
            let hi: u32 = channel_gap(a[k], b[k], 16);
            sum = sum + (lo + mid + hi) as u64;
            let mut most: u32 = if lo >= mid {
                lo
            } else {
                mid
            };
            if hi > most {
                most = hi;
            }
            if most > max {
                max = most;
            }
            if most > 8 {
                over = over + 1;
            }
            k = k + 1;
        }
        Diff { max, sum, over_8: over, pixels: a.len() }
    }
}

/// Two images agree in every channel just where their differences add up to
/// nothing, and then no pixel is off.
pub proof fn law_no_difference(a: Seq<u32>, b: Seq<u32>, n: nat)
    requires
        n <= a.len(),
        n <= b.len(),
    ensures
        total(a, b, n) >= 0,
        total(a, b, n) == 0 <==> forall|i: int|
            0 <= i < n ==> #[trigger] gaps(a[i], b[i]) == 0,
        total(a, b, n) == 0 ==> peak(a, b, n) == 0 && far_off(a, b, n) == 0,
    decreases n,
{
    if n > 0 {
        law_no_difference(a, b, (n - 1) as nat);
        let rest = gaps(a[n - 1], b[n - 1]);
        if total(a, b, n) == 0 {
            assert forall|i: int| 0 <= i < n implies #[trigger] gaps(a[i], b[i]) == 0 by {
                if i == n - 1 {
                    assert(rest == 0);
                }
            }
        }
        if forall|i: int| 0 <= i < n ==> #[trigger] gaps(a[i], b[i]) == 0 {
            assert(rest == 0);
        }
    }
}

/// What one pixel more adds: its differences in red, green and blue to the sum, the
/// largest of them to the peak where it is larger still, and itself to the pixels
/// that are off where one of them is more than 8.
pub proof fn law_one_pixel_more(a: Seq<u32>, b: Seq<u32>, n: nat)
    requires
        n < a.len(),
        n < b.len(),
    ensures
        ({
            let apart = |k: int|
                {
                    let (x, y) = (a[n as int] as int / k % 256, b[n as int] as int / k % 256);
                    if x < y {
                        y - x
                    } else {
                        x - y
                    }
                };
            let (red, green, blue) = (apart(65536), apart(256), apart(1));
            let (was, is) = (peak(a, b, n), peak(a, b, n + 1));
            &&& total(a, b, n + 1) - total(a, b, n) == red + green + blue
            &&& far_off(a, b, n + 1) - far_off(a, b, n) == (if red > 8 || green > 8 || blue > 8 {
                1int
            } else {
                0
            })
            &&& is >= was && is >= red && is >= green && is >= blue
            &&& is == was || is == red || is == green || is == blue
        }),
        total(a, b, 0) == 0 && far_off(a, b, 0) == 0 && peak(a, b, 0) == 0,
{
    lemma_bytes(a[n as int]);
    lemma_bytes(b[n as int]);
}

proof fn lemma_bytes(p: u32)
    ensures
        channel(p, 16) == p as int / 65536 % 256,
        channel(p, 8) == p as int / 256 % 256,
        channel(p, 0) == p as int / 1 % 256,
{
    assert((p >> 16) & 255 == p / 65536 % 256 && (p >> 8) & 255 == p / 256 % 256 && (p >> 0) & 255
        == p % 256) by (bit_vector);
}

/// Two images are compared as far as the shorter one goes.
pub proof fn law_shared_is_shorter(a: Seq<u32>, b: Seq<u32>)
    ensures
        shared(a, b) <= a.len(),
        shared(a, b) <= b.len(),
        shared(a, b) == a.len() || shared(a, b) == b.len(),
        shared(a, b) == shared(b, a),
{
}

} // verus!
