//! The rules of the world in plain words: what burns, what sinks, what flows, and in
//! which order it happens.
use crate::grid::{at, lemma_at};
use crate::sand::cpu::{
    block_after, block_word, cell_after, corner, density, falls, flowed, hashed, in_block, liquid,
    offset, paint, painted, react, reacted, rises, sinking, sliding_down, sliding_up, solid,
    spreads, step, stepped, update, updated, Block,
};
use crate::sand::world::{
    is_element, kind_of, law_encoding, name_of, Layout, EMBER, EMPTY, FIRE, OIL, SAND, SMOKE, WALL,
    WATER, WOOD,
};
use vstd::prelude::*;

verus! {

/// The elements are numbered from 0, each with a name of its own.
pub proof fn law_elements(kind: i32)
    ensures
        kind == 0 ==> kind == EMPTY && name_of(kind) == "empty"@,
        kind == 1 ==> kind == SAND && name_of(kind) == "sand"@,
        kind == 2 ==> kind == WATER && name_of(kind) == "water"@,
        kind == 3 ==> kind == OIL && name_of(kind) == "oil"@,
        kind == 4 ==> kind == WOOD && name_of(kind) == "wood"@,
        kind == 5 ==> kind == WALL && name_of(kind) == "wall"@,
        kind == 6 ==> kind == FIRE && name_of(kind) == "fire"@,
        kind == 7 ==> kind == SMOKE && name_of(kind) == "smoke"@,
        kind == 8 ==> kind == EMBER && name_of(kind) == "ember"@,
{
}

/// What sinks through what: smoke, fire, empty space, oil, water and sand lie on top
/// of each other in this order. Nothing else moves, nor moves out of the way.
pub proof fn law_order_of_density(top: i32, bottom: i32, i: int, j: int)
    requires
        0 <= i < 6,
        0 <= j < 6,
        is_element(kind_of(top)),
        is_element(kind_of(bottom)),
    ensures
        ({
            let order = seq![SMOKE, FIRE, EMPTY, OIL, WATER, SAND];
            &&& kind_of(top) == order[i] && kind_of(bottom) == order[j] ==> (sinking(top, bottom)
                <==> i > j)
            &&& kind_of(top) == order[i] && kind_of(bottom) == order[j] ==> (sliding_down(
                top,
                bottom,
            ) <==> i >= 3 && i > j)
            &&& kind_of(top) == order[i] && kind_of(bottom) == order[j] ==> (sliding_up(top, bottom)
                <==> i < 2 && i < j)
            &&& sinking(top, bottom) || sliding_down(top, bottom) || sliding_up(top, bottom)
                ==> order.contains(kind_of(top)) && order.contains(kind_of(bottom))
        }),
{
    let order = seq![SMOKE, FIRE, EMPTY, OIL, WATER, SAND];
    if sinking(top, bottom) || sliding_down(top, bottom) || sliding_up(top, bottom) {
        lemma_listed(kind_of(top));
        lemma_listed(kind_of(bottom));
    }
}

proof fn lemma_listed(k: i32)
    ensures
        seq![SMOKE, FIRE, EMPTY, OIL, WATER, SAND].contains(k) <==> k == SMOKE || k == FIRE || k
            == EMPTY || k == OIL || k == WATER || k == SAND,
{
    let order = seq![SMOKE, FIRE, EMPTY, OIL, WATER, SAND];
    assert(order[0] == SMOKE && order[1] == FIRE && order[2] == EMPTY && order[3] == OIL && order[4]
        == WATER && order[5] == SAND);
}

/// What a cell turns into beside three others, by the chance of a byte.
///
/// Water puts fire out to smoke and embers to wood. Fire goes up in smoke in 16 of
/// 256 cases and goes out in 4 more. An ember sets empty space on fire in 48 cases,
/// burns up to smoke in 6, and smoke thins out in 4. Beside fire or embers, oil
/// catches fire in 128 cases, and wood starts to glow in 40. Everything else stays as
/// it is. What is new takes its shade from the upper half of the byte.
pub proof fn law_reactions(x: i32, o1: i32, o2: i32, o3: i32, byte: u8)
    ensures
        ({
            let beside = |k: i32| kind_of(o1) == k || kind_of(o2) == k || kind_of(o3) == k;
            let new = |k: i32| k + 256 * (byte as int / 16);
            let y = reacted(x, o1, o2, o3, byte as i32) as int;
            let (wet, hot) = (beside(2), beside(6) || beside(8));
            &&& kind_of(x) == 6 && wet ==> y == new(7)
            &&& kind_of(x) == 6 && byte < 16 ==> y == new(7)
            &&& kind_of(x) == 6 && !wet && 16 <= byte < 20 ==> y == 0
            &&& kind_of(x) == 6 && !wet && 20 <= byte ==> y == x
            &&& kind_of(x) == 0 && beside(8) && byte < 48 ==> y == new(6)
            &&& kind_of(x) == 0 && !(beside(8) && byte < 48) ==> y == x
            &&& kind_of(x) == 3 && hot && byte < 128 ==> y == new(6)
            &&& kind_of(x) == 3 && !(hot && byte < 128) ==> y == x
            &&& kind_of(x) == 4 && hot && byte < 40 ==> y == new(8)
            &&& kind_of(x) == 4 && !(hot && byte < 40) ==> y == x
            &&& kind_of(x) == 8 && wet ==> y == new(4)
            &&& kind_of(x) == 8 && !wet && byte < 6 ==> y == new(7)
            &&& kind_of(x) == 8 && !wet && 6 <= byte ==> y == x
            &&& kind_of(x) == 7 && byte < 4 ==> y == 0
            &&& kind_of(x) == 7 && 4 <= byte ==> y == x
            &&& kind_of(x) == 1 || kind_of(x) == 2 || kind_of(x) == 5 ==> y == x
        }),
{
    let b = byte as i32;
    assert(0 <= b < 256 ==> (b >> 4) & 15 == b / 16) by (bit_vector);
    law_encoding(SMOKE, b >> 4);
    law_encoding(FIRE, b >> 4);
    law_encoding(EMBER, b >> 4);
    law_encoding(WOOD, b >> 4);
}

/// The cells of a block react one after the other, each with a byte of the random
/// word of its own from the lowest on. A cell reacts to what those before it have
/// turned into.
pub proof fn law_reactions_in_turn(
    a: i32,
    b: i32,
    c: i32,
    d: i32,
    r: i32,
    b0: u8,
    b1: u8,
    b2: u8,
    b3: u8,
)
    requires
        r as u32 == b0 + 0x100 * b1 + 0x1_0000 * b2 + 0x100_0000 * b3,
    ensures
        ({
            let s = Block::after_reactions(a, b, c, d, r);
            &&& s.a == reacted(a, b, c, d, b0 as i32)
            &&& s.b == reacted(b, s.a, c, d, b1 as i32)
            &&& s.c == reacted(c, s.a, s.b, d, b2 as i32)
            &&& s.d == reacted(d, s.a, s.b, s.c, b3 as i32)
            &&& !s.fell_a && !s.fell_b && !s.fell_c && !s.fell_d
        }),
{
    assert(r & 255 == b0 && (r >> 8) & 255 == b1 && (r >> 16) & 255 == b2 && (r >> 24) & 255 == b3)
        by (bit_vector)
        requires
            r as u32 == b0 + 0x100 * b1 + 0x1_0000 * b2 + 0x100_0000 * b3,
    ;
}

/// Gravity works on the two columns of a block apart: where the upper cell is the
/// denser one they trade places, and both have moved.
pub proof fn law_gravity(s: Block)
    ensures
        ({
            let t = s.after_gravity();
            &&& sinking(s.a, s.c) ==> t.a == s.c && t.c == s.a && t.fell_a && t.fell_c
            &&& !sinking(s.a, s.c) ==> t.a == s.a && t.c == s.c && t.fell_a == s.fell_a && t.fell_c
                == s.fell_c
            &&& sinking(s.b, s.d) ==> t.b == s.d && t.d == s.b && t.fell_b && t.fell_d
            &&& !sinking(s.b, s.d) ==> t.b == s.b && t.d == s.d && t.fell_b == s.fell_b && t.fell_d
                == s.fell_d
        }),
{
    reveal(Block::after_gravity);
}

/// What a diagonal slide does: the upper left cell goes down to the right and the upper
/// right one down to the left, the lower left one up to the right and the lower right
/// one up to the left, and what was there takes its place. Both have moved.
pub proof fn law_slides(s: Block)
    ensures
        ({
            let crossed = Block { a: s.d, d: s.a, fell_a: true, fell_d: true, ..s };
            let other = Block { b: s.c, c: s.b, fell_b: true, fell_c: true, ..s };
            &&& s.slide_a() == (if sliding_down(s.a, s.d) {
                crossed
            } else {
                s
            })
            &&& s.slide_b() == (if sliding_down(s.b, s.c) {
                other
            } else {
                s
            })
            &&& s.slide_c() == (if sliding_up(s.c, s.b) {
                other
            } else {
                s
            })
            &&& s.slide_d() == (if sliding_up(s.d, s.a) {
                crossed
            } else {
                s
            })
        }),
{
    reveal(Block::slide_a);
    reveal(Block::slide_b);
    reveal(Block::slide_c);
    reveal(Block::slide_d);
}

/// Which side slides first is all that `left_first` decides: mirroring a block and
/// starting on the other side gives the mirrored block. What falls slides before what
/// rises.
pub proof fn law_slides_mirror(s: Block)
    ensures
        ({
            let m = Block {
                a: s.b,
                b: s.a,
                c: s.d,
                d: s.c,
                fell_a: s.fell_b,
                fell_b: s.fell_a,
                fell_c: s.fell_d,
                fell_d: s.fell_c,
            };
            let (t, u) = (s.after_slides(true), m.after_slides(false));
            &&& u.a == t.b && u.b == t.a && u.c == t.d && u.d == t.c
            &&& u.fell_a == t.fell_b && u.fell_b == t.fell_a && u.fell_c == t.fell_d && u.fell_d
                == t.fell_c
            &&& t == s.slide_a().slide_b().slide_c().slide_d()
        }),
{
    reveal(Block::slide_a);
    reveal(Block::slide_b);
    reveal(Block::slide_c);
    reveal(Block::slide_d);
}

/// How two cells side by side flow.
///
/// Only empty space, water, oil, fire and smoke flow, and only past another of them.
/// What has just moved up or down stays, unless it is empty space. A liquid goes the
/// way it heads, to the right if its direction is set. Where there is no liquid, two
/// cells trade places by chance. A liquid that cannot go on turns around.
pub proof fn law_flow(x: i32, y: i32, x_fell: bool, y_fell: bool, chance: bool)
    ensures
        ({
            let (kx, ky) = (kind_of(x), kind_of(y));
            let flows = |k: i32| k == 0 || k == 2 || k == 3 || k == 6 || k == 7;
            let liquid = |k: i32| k == 2 || k == 3;
            let free = flows(kx) && flows(ky) && kx != ky && !(x_fell && kx != 0) && !(y_fell && ky
                != 0);
            let right = liquid(kx) && x & 4096 != 0 && !x_fell;
            let left = liquid(ky) && y & 4096 == 0 && !y_fell;
            let drift = !liquid(kx) && !liquid(ky) && chance;
            let out = flowed(x, y, x_fell, y_fell, chance);
            &&& free && (right || left || drift) ==> out == (y, x)
            &&& !(free && (right || left || drift)) ==> out.0 == (if right {
                x ^ 4096
            } else {
                x
            }) && out.1 == (if left {
                y ^ 4096
            } else {
                y
            })
        }),
{
}

/// Both rows of a block flow, each by a chance of its own.
pub proof fn law_rows_flow(s: Block, top: bool, bottom: bool)
    ensures
        ({
            let t = s.after_flow(top, bottom);
            &&& (t.a, t.b) == flowed(s.a, s.b, s.fell_a, s.fell_b, top)
            &&& (t.c, t.d) == flowed(s.c, s.d, s.fell_c, s.fell_d, bottom)
        }),
{
    reveal(Block::after_flow);
}

/// A pass over a block: its cells react, sink, slide and flow, in this order. The
/// lowest bits of the hash of its random word say which side slides first, and whether
/// the upper and the lower row drift.
pub proof fn law_stages_of_a_pass(a: i32, b: i32, c: i32, d: i32, r: i32, side: u8, up: u8, low: u8, rest: u32)
    requires
        side < 2,
        up < 2,
        low < 2,
        rest < 0x2000_0000,
        hashed(r) as u32 == side + 2 * up + 4 * low + 8 * rest,
    ensures
        ({
            let s = Block::after_reactions(a, b, c, d, r).after_gravity();
            let t = s.after_slides(side == 0).after_flow(up == 1, low == 1);
            updated(a, b, c, d, r) == seq![t.a, t.b, t.c, t.d]
        }),
{
    reveal(updated);
    let h = hashed(r);
    assert((h & 1 == 0 <==> side == 0) && ((h >> 1) & 1 == 1 <==> up == 1) && ((h >> 2) & 1 == 1
        <==> low == 1)) by (bit_vector)
        requires
            side < 2,
            up < 2,
            low < 2,
            rest < 0x2000_0000,
            h as u32 == side + 2 * up + 4 * low + 8 * rest,
    ;
}

/// The hash shifts by 16, 15 and 16 bits, with the sign, and multiplies in between.
/// The word of a block hashes the salt of the pass, then the row and then the column
/// of the block.
pub proof fn law_hash(x: i32, bx: i32, by: i32, salt: i32)
    ensures
        ({
            let u = (x ^ (x >> 16)).wrapping_mul(0x7feb_352d);
            let v = (u ^ (u >> 15)).wrapping_mul((-0x7b93_5975) as i32);
            hashed(x) == v ^ (v >> 16)
        }),
        block_word(bx, by, salt) == hashed(bx ^ hashed(by ^ hashed(salt))),
{
}

/// A pass cuts the world into blocks of 2 x 2 cells, from even rows and columns in
/// even passes and from odd ones in odd passes, and works on each with a random word
/// of its own. Cells of a block that lie outside the world keep what they are.
pub proof fn law_pass_in_blocks(
    lay: Layout,
    src: Seq<i32>,
    pass: i32,
    salt: i32,
    r0: int,
    c0: int,
    i: int,
    j: int,
)
    requires
        0 <= pass,
        src.len() == (lay.rows + 64) * (lay.cols + 64),
        0 <= r0 <= lay.rows + 62,
        0 <= c0 <= lay.cols + 62,
        r0 % 2 == pass as int % 2,
        c0 % 2 == pass as int % 2,
        0 <= i < 2,
        0 <= j < 2,
    ensures
        ({
            let w = lay.cols + 64;
            let (r, c) = (r0 + i, c0 + j);
            let out = stepped(lay, src, pass, salt)[r * w + c];
            let word = block_word((c0 / 2) as i32, (r0 / 2) as i32, salt);
            if 32 <= r < 32 + lay.rows && 32 <= c < 32 + lay.cols {
                out == updated(
                    src[r0 * w + c0],
                    src[r0 * w + (c0 + 1)],
                    src[(r0 + 1) * w + c0],
                    src[(r0 + 1) * w + (c0 + 1)],
                    word,
                )[2 * i + j]
            } else {
                out == src[r * w + c]
            }
        }),
{
    let (h, w) = (lay.height(), lay.width());
    let (r, c) = (r0 + i, c0 + j);
    assert(pass & 1 == pass as int % 2) by {
        assert(0 <= pass ==> pass & 1 == pass % 2) by (bit_vector);
    }
    lemma_at(r, c, h, w);
    assert(stepped(lay, src, pass, salt)[at(r, c, w)] == cell_after(lay, src, pass, salt, r, c));
    assert(corner(r, pass) == r0 && corner(c, pass) == c0);
    assert(at(r0 + 2, 0, w) <= src.len()) by (nonlinear_arith)
        requires
            at(r0 + 2, 0, w) == (r0 + 2) * w + 0,
            r0 + 2 <= h,
            w >= 0,
            src.len() == h * w,
    ;
    assert(offset(pass) <= r0 && offset(pass) <= c0);
    assert(in_block(src.len() as int, w, pass, r, c));
    reveal(cell_after);
    reveal(block_after);
}

/// What no whole block of a pass covers stays as it is.
pub proof fn law_pass_leaves_the_rim(lay: Layout, src: Seq<i32>, pass: i32, salt: i32, i: int)
    requires
        0 <= i < src.len(),
        !(32 <= i / (lay.cols + 64) < 32 + lay.rows) || !(32 <= i % (lay.cols + 64) < 32
            + lay.cols),
    ensures
        stepped(lay, src, pass, salt).len() == src.len(),
        stepped(lay, src, pass, salt)[i] == src[i],
{
    reveal(cell_after);
    crate::grid::lemma_cell_of(i, lay.width());
}

/// Paint replaces the cells that it flags by what it holds without the flag, and
/// leaves the others alone.
pub proof fn law_paint_replaces(src: Seq<i32>, paint: Seq<i32>, i: int, v: i32)
    requires
        0 <= i < src.len(),
        i < paint.len(),
        0 <= v < 0x10_0000,
    ensures
        paint[i] == 0x10_0000 + v ==> painted(src, paint)[i] == v,
        paint[i] == v ==> painted(src, paint)[i] == src[i],
        painted(src, paint).len() <= src.len(),
        src.len() <= paint.len() ==> painted(src, paint).len() == src.len(),
{
    let p = paint[i];
    assert({
        &&& 0 <= v < 0x10_0000 && p == 0x10_0000 + v ==> p & 1048576 != 0 && p & !1048576i32 == v
        &&& 0 <= v < 0x10_0000 && p == v ==> p & 1048576 == 0
    }) by (bit_vector);
}

/// What kind of matter an element is, and how heavy: smoke 0, fire 1, empty space 2, oil 3,
/// water 4, sand 5, and the solids, wood, walls and embers, 9. Water and oil are liquids,
/// and fall as sand does. Fire and smoke rise. All but sand and the solids spread.
pub proof fn law_matter(
    kind: i32,
    heavy: i32,
    is_solid: bool,
    is_liquid: bool,
    falling: bool,
    rising: bool,
    spreading: bool,
)
    requires
        is_element(kind),
        call_ensures(density, (kind,), heavy),
        call_ensures(solid, (kind,), is_solid),
        call_ensures(liquid, (kind,), is_liquid),
        call_ensures(falls, (kind,), falling),
        call_ensures(rises, (kind,), rising),
        call_ensures(spreads, (kind,), spreading),
    ensures
        heavy == seq![2int, 5, 4, 3, 9, 9, 1, 0, 9][kind as int],
        is_solid <==> heavy == 9,
        is_liquid <==> heavy == 3 || heavy == 4,
        falling <==> 3 <= heavy <= 5,
        rising <==> heavy < 2,
        spreading <==> heavy <= 4,
{
    let table = seq![2int, 5, 4, 3, 9, 9, 1, 0, 9];
    assert(table[0] == 2 && table[1] == 5 && table[2] == 4 && table[3] == 3 && table[4] == 9
        && table[5] == 9 && table[6] == 1 && table[7] == 0 && table[8] == 9);
}

/// The operations on cells, blocks and buffers compute what is said of them here.
pub proof fn law_steps_are_computed(
    lay: Layout,
    src: &[i32],
    layer: &[i32],
    pass: i32,
    salt: i32,
    x: i32,
    o1: i32,
    o2: i32,
    o3: i32,
    byte: i32,
    turned: i32,
    block: [i32; 4],
    moved: Vec<i32>,
    over: Vec<i32>,
)
    requires
        call_ensures(react, (x, o1, o2, o3, byte), turned),
        call_ensures(update, (x, o1, o2, o3, byte), block),
        call_ensures(step, (&lay, src, pass, salt), moved),
        call_ensures(paint, (src, layer), over),
    ensures
        turned == reacted(x, o1, o2, o3, byte),
        block@ == updated(x, o1, o2, o3, byte),
        moved@ == stepped(lay, src@, pass, salt),
        over@ == painted(src@, layer@),
{
}

} // verus!
