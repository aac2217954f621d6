//! How a world is shown: dying cells leave a short trail.
use vstd::prelude::*;

verus! {

/// How bright a cell is after a frame: alive cells glow, dead ones cool down.
pub open spec fn glow(heat: u8, alive: u8) -> u8 {
    if alive != 0 {
        255
    } else if heat < 24 {
        0
    } else {
        (heat - 24) as u8
    }
}

/// The color of a brightness as `0x00RRGGBB`: dark blue background, cyan
/// trail, near-white living cells.
pub open spec fn tint(heat: u8) -> int {
    (8 + heat * 200 / 255) * 65536 + (12 + heat * 240 / 255) * 256 + (28 + heat * 227 / 255)
}

/// The color of a brightness.
pub fn shade(heat: u8) -> (p: u32)
    ensures
        p == tint(heat),
        p <= 0x00ff_ffff,
{
    let t: u32 = heat as u32;
    let r: u32 = 8 + t * 200 / 255;
    let g: u32 = 12 + t * 240 / 255;
    let b: u32 = 28 + t * 227 / 255;
    proof {
        assert(r < 256 && g < 256 && b < 256 ==> (r << 16) | (g << 8) | b == r * 65536 + g * 256
            + b) by (bit_vector);
    }
    (r << 16) | (g << 8) | b
}

/// One frame: bring the brightness of every cell up to date, and color it.
pub fn draw(heat: Vec<u8>, cells: &[u8]) -> (out: (Vec<u8>, Vec<u32>))
    requires
        heat@.len() == cells@.len(),
    ensures
        out.0@ == Seq::new(heat@.len(), |i: int| glow(heat@[i], cells@[i])),
        out.1@.len() == heat@.len(),
        forall|i: int|
            0 <= i < heat@.len() ==> #[trigger] out.1@[i] == tint(glow(heat@[i], cells@[i])),
{
    let mut warm: Vec<u8> = Vec::new();
    let mut frame: Vec<u32> = Vec::new();
    let mut i: usize = 0;
    while i < heat.len()
        invariant
            heat@.len() == cells@.len(),
            i <= heat@.len(),
            warm@.len() == i,
            frame@.len() == i,
            forall|j: int| 0 <= j < i ==> #[trigger] warm@[j] == glow(heat@[j], cells@[j]),
            forall|j: int|
                0 <= j < i ==> #[trigger] frame@[j] == tint(glow(heat@[j], cells@[j])),
        decreases heat.len() - i,
    {
        let h: u8 = heat[i];
        let h: u8 = if cells[i] != 0 {
            255
        } else if h < 24 {
            0
        } else {
            h - 24
        };
        warm.push(h);
        frame.push(shade(h));
        i += 1;
    }
    assert(warm@ =~= Seq::new(heat@.len(), |i: int| glow(heat@[i], cells@[i])));
    (warm, frame)
}

/// Whatever was alive eleven frames ago and has been dead since has gone dark.
pub proof fn law_trail_ends(h0: u8)
    ensures
        ({
            let h1 = glow(h0, 0);
            let h2 = glow(h1, 0);
            let h3 = glow(h2, 0);
            let h4 = glow(h3, 0);
            let h5 = glow(h4, 0);
            let h6 = glow(h5, 0);
            let h7 = glow(h6, 0);
            let h8 = glow(h7, 0);
            let h9 = glow(h8, 0);
            let h10 = glow(h9, 0);
            glow(h10, 0) == 0
        }),
{
}

/// A living cell shows at its brightest, whatever it was before. A dead one loses 24
/// with every frame, as long as it has them.
pub proof fn law_trail_fades(heat: u8, alive: u8)
    ensures
        alive != 0 ==> glow(heat, alive) == 255,
        heat >= 24 ==> heat - glow(heat, 0) == 24,
        heat < 24 ==> glow(heat, 0) == 0,
{
}

/// Colors run in straight lines from `0x080c1c` in the dark to `0xd0fcff` for living
/// cells, rounded down.
pub proof fn law_trail_colors(heat: u8)
    ensures
        ({
            let (r, g, b) = (tint(heat) / 0x1_0000, tint(heat) / 0x100 % 0x100, tint(heat) % 0x100);
            &&& r < 256
            &&& 255 * (r - 0x08) <= heat * (0xd0 - 0x08) < 255 * (r - 0x08) + 255
            &&& 255 * (g - 0x0c) <= heat * (0xfc - 0x0c) < 255 * (g - 0x0c) + 255
            &&& 255 * (b - 0x1c) <= heat * (0xff - 0x1c) < 255 * (b - 0x1c) + 255
        }),
{
    let t = tint(heat);
    let (r, g, b) = (8 + heat * 200 / 255, 12 + heat * 240 / 255, 28 + heat * 227 / 255);
    assert(t == r * 0x1_0000 + g * 0x100 + b);
    assert(0 <= r < 256 && 0 <= g < 256 && 0 <= b < 256);
    assert(t / 0x100 == r * 0x100 + g);
}

} // verus!
