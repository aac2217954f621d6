//! What every pass keeps: cells stay cells, walls stay put, the ghost ring is
//! never touched, and where nothing burns no grain is gained or lost.
use crate::grid::{at, cropped, lemma_at, lemma_cell_of, lemma_row_bound};
use crate::sand::cpu::{
    block_after, block_word, cell_after, corner, flowed, in_block, is_solid, offset, reacted,
    stepped, updated, Block,
};
use crate::sand::world::{
    is_cell, kind_of, law_encoding, lemma_bits, Layout, DIR, EMBER, EMPTY, FIRE, SMOKE, TILE, WALL,
    WOOD,
};
use vstd::prelude::*;

verus! {

/// 1 for a cell of element `k`, 0 for any other.
pub open spec fn one_if(cell: i32, k: i32) -> int {
    if kind_of(cell) == k {
        1
    } else {
        0
    }
}

/// How many cells are of element `k`.
pub open spec fn population(cells: Seq<i32>, k: i32) -> int
    decreases cells.len(),
{
    if cells.len() == 0 {
        0
    } else {
        population(cells.drop_last(), k) + one_if(cells.last(), k)
    }
}

/// Whether nothing in a cell burns or glows or drifts: elements without
/// chemistry of their own.
pub open spec fn is_quiet(cell: i32) -> bool {
    kind_of(cell) != FIRE && kind_of(cell) != SMOKE && kind_of(cell) != EMBER
}

/// A cell without the direction it heads in: its element and its shade.
pub open spec fn grain(cell: i32) -> i32 {
    cell & !DIR
}

/// Every cell without its direction.
pub open spec fn grains(cells: Seq<i32>) -> Seq<i32> {
    cells.map_values(|c: i32| grain(c))
}

/// What all cells measure together.
spec fn total(cells: Seq<i32>, f: spec_fn(i32) -> int) -> int
    decreases cells.len(),
{
    if cells.len() == 0 {
        0
    } else {
        total(cells.drop_last(), f) + f(cells.last())
    }
}

/// Whether a measure does not see the direction of a cell.
spec fn ignores_dir(f: spec_fn(i32) -> int) -> bool {
    forall|x: i32| #[trigger] f(x ^ DIR) == f(x)
}

/// Measures 1 for a cell of element `k`, 0 for any other.
spec fn of_kind(k: i32) -> spec_fn(i32) -> int {
    |c: i32| one_if(c, k)
}

/// Measures 1 for a cell that is grain `v`, 0 for any other.
spec fn of_grain(v: i32) -> spec_fn(i32) -> int {
    |c: i32|
        if grain(c) == v {
            1int
        } else {
            0int
        }
}

proof fn lemma_measures(k: i32)
    ensures
        ignores_dir(of_kind(k)),
        ignores_dir(of_grain(k)),
{
    assert forall|x: i32| #[trigger] of_kind(k)(x ^ DIR) == of_kind(k)(x) by {
        lemma_bits(x);
    }
    assert forall|x: i32| #[trigger] of_grain(k)(x ^ DIR) == of_grain(k)(x) by {
        assert((x ^ 4096i32) & !4096i32 == x & !4096i32) by (bit_vector);
    }
}

proof fn lemma_population_total(cells: Seq<i32>, k: i32)
    ensures
        population(cells, k) == total(cells, of_kind(k)),
    decreases cells.len(),
{
    if cells.len() > 0 {
        lemma_population_total(cells.drop_last(), k);
    }
}

proof fn lemma_grains_total(cells: Seq<i32>, v: i32)
    ensures
        grains(cells).to_multiset().count(v) == total(cells, of_grain(v)),
    decreases cells.len(),
{
    if cells.len() == 0 {
        assert(grains(cells) =~= Seq::<i32>::empty());
        grains(cells).to_multiset_ensures();
        assert(!grains(cells).contains(v));
    } else {
        let rest = cells.drop_last();
        lemma_grains_total(rest, v);
        assert(grains(cells) =~= grains(rest).push(grain(cells.last())));
        grains(rest).to_multiset_ensures();
    }
}

proof fn lemma_total_4(a: i32, b: i32, c: i32, d: i32, f: spec_fn(i32) -> int)
    ensures
        total(seq![a, b, c, d], f) == f(a) + f(b) + f(c) + f(d),
{
    reveal_with_fuel(total, 5);
    assert(seq![a, b, c, d].drop_last() =~= seq![a, b, c]);
    assert(seq![a, b, c].drop_last() =~= seq![a, b]);
    assert(seq![a, b].drop_last() =~= seq![a]);
    assert(seq![a].drop_last() =~= Seq::<i32>::empty());
}

/// Changing one cell changes the total by that cell.
proof fn lemma_total_update(cells: Seq<i32>, i: int, v: i32, f: spec_fn(i32) -> int)
    requires
        0 <= i < cells.len(),
    ensures
        total(cells.update(i, v), f) == total(cells, f) - f(cells[i]) + f(v),
    decreases cells.len(),
{
    let new = cells.update(i, v);
    if i == cells.len() - 1 {
        assert(new.drop_last() =~= cells.drop_last());
    } else {
        assert(new.drop_last() =~= cells.drop_last().update(i, v));
        lemma_total_update(cells.drop_last(), i, v, f);
    }
}

/// What the cells of a block measure together.
spec fn tally(s: Block, f: spec_fn(i32) -> int) -> int {
    f(s.a) + f(s.b) + f(s.c) + f(s.d)
}

proof fn lemma_slides_tally(s: Block, f: spec_fn(i32) -> int)
    ensures
        tally(s.slide_a(), f) == tally(s, f),
        tally(s.slide_b(), f) == tally(s, f),
        tally(s.slide_c(), f) == tally(s, f),
        tally(s.slide_d(), f) == tally(s, f),
        tally(s.after_gravity(), f) == tally(s, f),
{
    reveal(Block::slide_a);
    reveal(Block::slide_b);
    reveal(Block::slide_c);
    reveal(Block::slide_d);
    reveal(Block::after_gravity);
}

proof fn lemma_flow_tally(s: Block, top: bool, bottom: bool, f: spec_fn(i32) -> int)
    requires
        ignores_dir(f),
    ensures
        tally(s.after_flow(top, bottom), f) == tally(s, f),
{
    reveal(Block::after_flow);
}

/// Gravity, slides and flow keep what a block measures.
proof fn lemma_movement_total(
    s: Block,
    left_first: bool,
    top: bool,
    bottom: bool,
    f: spec_fn(i32) -> int,
)
    requires
        ignores_dir(f),
    ensures
        total(s.after_gravity().after_slides(left_first).after_flow(top, bottom).cells(), f)
            == total(s.cells(), f),
{
    let g = s.after_gravity();
    lemma_slides_tally(s, f);
    lemma_slides_tally(g, f);
    if left_first {
        lemma_slides_tally(g.slide_a(), f);
        lemma_slides_tally(g.slide_a().slide_b(), f);
        lemma_slides_tally(g.slide_a().slide_b().slide_c(), f);
    } else {
        lemma_slides_tally(g.slide_b(), f);
        lemma_slides_tally(g.slide_b().slide_a(), f);
        lemma_slides_tally(g.slide_b().slide_a().slide_d(), f);
    }
    let t = g.after_slides(left_first);
    lemma_flow_tally(t, top, bottom, f);
    let u = t.after_flow(top, bottom);
    lemma_total_4(s.a, s.b, s.c, s.d, f);
    lemma_total_4(u.a, u.b, u.c, u.d, f);
}

/// A block's four cells only trade places among themselves: gravity, slides
/// and flow keep the count of every element, and element and shade together
/// they keep every grain.
pub proof fn law_movement_keeps_cells(s: Block, left_first: bool, top: bool, bottom: bool, k: i32)
    ensures
        ({
            let t = s.after_gravity().after_slides(left_first).after_flow(top, bottom);
            &&& population(t.cells(), k) == population(s.cells(), k)
            &&& grains(t.cells()).to_multiset() == grains(s.cells()).to_multiset()
        }),
{
    let t = s.after_gravity().after_slides(left_first).after_flow(top, bottom);
    lemma_measures(k);
    lemma_movement_total(s, left_first, top, bottom, of_kind(k));
    lemma_population_total(s.cells(), k);
    lemma_population_total(t.cells(), k);
    assert forall|v: i32| grains(t.cells()).to_multiset().count(v) == grains(
        s.cells(),
    ).to_multiset().count(v) by {
        lemma_measures(v);
        lemma_movement_total(s, left_first, top, bottom, of_grain(v));
        lemma_grains_total(s.cells(), v);
        lemma_grains_total(t.cells(), v);
    }
    assert(grains(t.cells()).to_multiset() =~= grains(s.cells()).to_multiset());
}

/// Without fire, smoke or embers a block does not react.
proof fn lemma_quiet_reactions(a: i32, b: i32, c: i32, d: i32, r: i32)
    requires
        is_quiet(a),
        is_quiet(b),
        is_quiet(c),
        is_quiet(d),
    ensures
        Block::after_reactions(a, b, c, d, r).cells() == seq![a, b, c, d],
{
}

/// A pass over a block without fire, smoke or embers keeps what it measures.
proof fn lemma_quiet_total(a: i32, b: i32, c: i32, d: i32, r: i32, f: spec_fn(i32) -> int)
    requires
        is_quiet(a),
        is_quiet(b),
        is_quiet(c),
        is_quiet(d),
        ignores_dir(f),
    ensures
        total(updated(a, b, c, d, r), f) == f(a) + f(b) + f(c) + f(d),
{
    reveal(updated);
    lemma_quiet_reactions(a, b, c, d, r);
    let s = Block::after_reactions(a, b, c, d, r);
    let r2 = crate::sand::cpu::hashed(r);
    lemma_movement_total(s, r2 & 1 == 0, (r2 >> 1) & 1 == 1, (r2 >> 2) & 1 == 1, f);
    lemma_total_4(a, b, c, d, f);
}

/// A pass over a block without fire, smoke or embers keeps the count of every
/// element, and so nothing starts to burn.
pub proof fn law_quiet_block(a: i32, b: i32, c: i32, d: i32, r: i32, k: i32)
    requires
        is_quiet(a),
        is_quiet(b),
        is_quiet(c),
        is_quiet(d),
    ensures
        population(updated(a, b, c, d, r), k) == population(seq![a, b, c, d], k),
        forall|n: int| 0 <= n < 4 ==> is_quiet(#[trigger] updated(a, b, c, d, r)[n]),
{
    let new = updated(a, b, c, d, r);
    assert(new.len() == 4) by {
        reveal(updated);
    }
    assert(new =~= seq![new[0], new[1], new[2], new[3]]);
    lemma_kind_kept(a, b, c, d, r, k);
    lemma_kind_kept(a, b, c, d, r, FIRE);
    lemma_kind_kept(a, b, c, d, r, SMOKE);
    lemma_kind_kept(a, b, c, d, r, EMBER);
    lemma_population_total(new, k);
    lemma_population_total(seq![a, b, c, d], k);
    lemma_total_4(a, b, c, d, of_kind(k));
}

proof fn lemma_kind_kept(a: i32, b: i32, c: i32, d: i32, r: i32, k: i32)
    requires
        is_quiet(a),
        is_quiet(b),
        is_quiet(c),
        is_quiet(d),
    ensures
        ({
            let new = updated(a, b, c, d, r);
            &&& total(new, of_kind(k)) == one_if(a, k) + one_if(b, k) + one_if(c, k) + one_if(d, k)
            &&& total(new, of_kind(k)) == one_if(new[0], k) + one_if(new[1], k) + one_if(new[2], k)
                + one_if(new[3], k)
        }),
{
    let new = updated(a, b, c, d, r);
    assert(new.len() == 4) by {
        reveal(updated);
    }
    assert(new =~= seq![new[0], new[1], new[2], new[3]]);
    lemma_measures(k);
    lemma_quiet_total(a, b, c, d, r, of_kind(k));
    lemma_total_4(new[0], new[1], new[2], new[3], of_kind(k));
}

/// Whether every solid cell of `s` is in the same place in `t`.
spec fn solids_kept(s: Block, t: Block) -> bool {
    &&& is_solid(kind_of(s.a)) ==> t.a == s.a
    &&& is_solid(kind_of(s.b)) ==> t.b == s.b
    &&& is_solid(kind_of(s.c)) ==> t.c == s.c
    &&& is_solid(kind_of(s.d)) ==> t.d == s.d
}

proof fn lemma_slides_keep_solids(s: Block)
    ensures
        solids_kept(s, s.slide_a()),
        solids_kept(s, s.slide_b()),
        solids_kept(s, s.slide_c()),
        solids_kept(s, s.slide_d()),
        solids_kept(s, s.after_gravity()),
{
    reveal(Block::slide_a);
    reveal(Block::slide_b);
    reveal(Block::slide_c);
    reveal(Block::slide_d);
    reveal(Block::after_gravity);
}

/// Solids never move: after the reactions of a pass, a solid cell stays in
/// its corner of the block, unchanged.
pub proof fn law_solids_stay(a: i32, b: i32, c: i32, d: i32, r: i32)
    ensures
        ({
            let s = Block::after_reactions(a, b, c, d, r);
            let new = updated(a, b, c, d, r);
            &&& is_solid(kind_of(s.a)) ==> new[0] == s.a
            &&& is_solid(kind_of(s.b)) ==> new[1] == s.b
            &&& is_solid(kind_of(s.c)) ==> new[2] == s.c
            &&& is_solid(kind_of(s.d)) ==> new[3] == s.d
        }),
{
    reveal(updated);
    let s = Block::after_reactions(a, b, c, d, r);
    let r2 = crate::sand::cpu::hashed(r);
    let left_first = r2 & 1 == 0;
    let g = s.after_gravity();
    lemma_slides_keep_solids(s);
    lemma_slides_keep_solids(g);
    if left_first {
        lemma_slides_keep_solids(g.slide_a());
        lemma_slides_keep_solids(g.slide_a().slide_b());
        lemma_slides_keep_solids(g.slide_a().slide_b().slide_c());
    } else {
        lemma_slides_keep_solids(g.slide_b());
        lemma_slides_keep_solids(g.slide_b().slide_a());
        lemma_slides_keep_solids(g.slide_b().slide_a().slide_d());
    }
    let t = g.after_slides(left_first);
    let (top, bottom) = ((r2 >> 1) & 1 == 1, (r2 >> 2) & 1 == 1);
    assert(solids_kept(s, t));
    assert(solids_kept(t, t.after_flow(top, bottom))) by {
        reveal(Block::after_flow);
    }
}

/// A wall is a wall for good, tint and all.
pub proof fn law_walls_stay(a: i32, b: i32, c: i32, d: i32, r: i32)
    ensures
        kind_of(a) == WALL ==> updated(a, b, c, d, r)[0] == a,
        kind_of(b) == WALL ==> updated(a, b, c, d, r)[1] == b,
        kind_of(c) == WALL ==> updated(a, b, c, d, r)[2] == c,
        kind_of(d) == WALL ==> updated(a, b, c, d, r)[3] == d,
{
    law_solids_stay(a, b, c, d, r);
}

/// What a reaction makes is a cell.
pub proof fn lemma_reaction_is_cell(x: i32, o1: i32, o2: i32, o3: i32, byte: i32)
    requires
        is_cell(x),
    ensures
        is_cell(reacted(x, o1, o2, o3, byte)),
{
    law_encoding(SMOKE, byte >> 4);
    law_encoding(FIRE, byte >> 4);
    law_encoding(EMBER, byte >> 4);
    law_encoding(WOOD, byte >> 4);
    assert(0i32 & 255 == 0) by (bit_vector);
}

/// Whether all four cells of a block are cells.
spec fn all_cells(s: Block) -> bool {
    is_cell(s.a) && is_cell(s.b) && is_cell(s.c) && is_cell(s.d)
}

proof fn lemma_slides_keep_all_cells(s: Block)
    requires
        all_cells(s),
    ensures
        all_cells(s.slide_a()),
        all_cells(s.slide_b()),
        all_cells(s.slide_c()),
        all_cells(s.slide_d()),
        all_cells(s.after_gravity()),
{
    reveal(Block::slide_a);
    reveal(Block::slide_b);
    reveal(Block::slide_c);
    reveal(Block::slide_d);
    reveal(Block::after_gravity);
}

proof fn lemma_flow_keeps_all_cells(s: Block, top: bool, bottom: bool)
    requires
        all_cells(s),
    ensures
        all_cells(s.after_flow(top, bottom)),
{
    reveal(Block::after_flow);
    lemma_bits(s.a);
    lemma_bits(s.b);
    lemma_bits(s.c);
    lemma_bits(s.d);
}

/// A pass over a block of cells leaves cells: no rule makes a value that is
/// not an element with a shade and a direction.
pub proof fn law_cells_stay_cells(a: i32, b: i32, c: i32, d: i32, r: i32)
    requires
        is_cell(a),
        is_cell(b),
        is_cell(c),
        is_cell(d),
    ensures
        updated(a, b, c, d, r).len() == 4,
        forall|n: int| 0 <= n < 4 ==> is_cell(#[trigger] updated(a, b, c, d, r)[n]),
{
    reveal(updated);
    let s = Block::after_reactions(a, b, c, d, r);
    lemma_reaction_is_cell(a, b, c, d, r & 255);
    lemma_reaction_is_cell(b, s.a, c, d, (r >> 8) & 255);
    lemma_reaction_is_cell(c, s.a, s.b, d, (r >> 16) & 255);
    lemma_reaction_is_cell(d, s.a, s.b, s.c, (r >> 24) & 255);
    let r2 = crate::sand::cpu::hashed(r);
    let left_first = r2 & 1 == 0;
    let g = s.after_gravity();
    lemma_slides_keep_all_cells(s);
    lemma_slides_keep_all_cells(g);
    if left_first {
        lemma_slides_keep_all_cells(g.slide_a());
        lemma_slides_keep_all_cells(g.slide_a().slide_b());
        lemma_slides_keep_all_cells(g.slide_a().slide_b().slide_c());
    } else {
        lemma_slides_keep_all_cells(g.slide_b());
        lemma_slides_keep_all_cells(g.slide_b().slide_a());
        lemma_slides_keep_all_cells(g.slide_b().slide_a().slide_d());
    }
    lemma_flow_keeps_all_cells(g.after_slides(left_first), (r2 >> 1) & 1 == 1, (r2 >> 2) & 1 == 1);
}

/// A cell that moved vertically in a pass does not also move sideways: two such
/// cells stay as they are, and one that is not empty stays in its place,
/// whatever is beside it.
pub proof fn law_fallen_pair_stays(x: i32, y: i32, x_fell: bool, y_fell: bool, bit: bool)
    ensures
        flowed(x, y, true, true, bit) == (x, y),
        kind_of(x) != EMPTY ==> flowed(x, y, true, y_fell, bit).0 == x,
        kind_of(y) != EMPTY ==> flowed(x, y, x_fell, true, bit).1 == y,
{
}

/// The ghost ring keeps its cells through a pass.
pub proof fn law_ghosts_kept(lay: Layout, src: Seq<i32>, pass: i32, salt: i32, i: int)
    requires
        0 <= i < src.len(),
        !lay.inside(i / lay.width(), i % lay.width()),
    ensures
        stepped(lay, src, pass, salt)[i] == src[i],
{
    reveal(cell_after);
    lemma_cell_of(i, lay.width());
}

/// The positions of the block that cell `(r, c)` is in, and which of them it
/// is.
proof fn lemma_own_block(len: int, cols: int, pass: i32, r: int, c: int)
    requires
        in_block(len, cols, pass, r, c),
        0 < cols,
    ensures
        ({
            let (r0, c0) = (corner(r, pass), corner(c, pass));
            &&& 0 <= offset(pass) <= 1
            &&& r == r0 || r == r0 + 1
            &&& c == c0 || c == c0 + 1
            &&& 0 <= at(r0, c0, cols)
            &&& at(r0, c0 + 1, cols) == at(r0, c0, cols) + 1
            &&& at(r0 + 1, c0, cols) == at(r0, c0, cols) + cols
            &&& at(r0 + 1, c0 + 1, cols) == at(r0, c0, cols) + cols + 1
            &&& at(r0 + 1, c0 + 1, cols) < len
        }),
{
    let (r0, c0) = (corner(r, pass), corner(c, pass));
    assert(0 <= (pass & 1) <= 1) by (bit_vector);
    assert((r0 + 2) * cols == r0 * cols + cols + cols) by (nonlinear_arith);
    assert((r0 + 1) * cols == r0 * cols + cols) by (nonlinear_arith);
    assert(0 <= r0 * cols) by (nonlinear_arith)
        requires
            0 <= r0,
            0 < cols,
    ;
}

/// A pass over a buffer of cells leaves a buffer of cells.
pub proof fn law_step_keeps_cells(lay: Layout, src: Seq<i32>, pass: i32, salt: i32)
    requires
        forall|i: int| 0 <= i < src.len() ==> is_cell(#[trigger] src[i]),
    ensures
        forall|i: int| 0 <= i < src.len() ==> is_cell(#[trigger] stepped(lay, src, pass, salt)[i]),
{
    let w = lay.width();
    assert forall|i: int| 0 <= i < src.len() implies is_cell(
        #[trigger] stepped(lay, src, pass, salt)[i],
    ) by {
        reveal(cell_after);
        lemma_cell_of(i, w);
        let (r, c) = (i / w, i % w);
        if in_block(src.len() as int, w, pass, r, c) {
            lemma_own_block(src.len() as int, w, pass, r, c);
            reveal(block_after);
            let (r0, c0) = (corner(r, pass), corner(c, pass));
            law_cells_stay_cells(
                src[at(r0, c0, w)],
                src[at(r0, c0 + 1, w)],
                src[at(r0 + 1, c0, w)],
                src[at(r0 + 1, c0 + 1, w)],
                block_word((c0 / 2) as i32, (r0 / 2) as i32, salt),
            );
        }
    }
}

/// A wall anywhere in a buffer is still there, unchanged, after a pass.
pub proof fn law_step_keeps_walls(lay: Layout, src: Seq<i32>, pass: i32, salt: i32, i: int)
    requires
        0 <= i < src.len(),
        kind_of(src[i]) == WALL,
    ensures
        stepped(lay, src, pass, salt)[i] == src[i],
{
    let w = lay.width();
    reveal(cell_after);
    lemma_cell_of(i, w);
    let (r, c) = (i / w, i % w);
    if in_block(src.len() as int, w, pass, r, c) {
        lemma_own_block(src.len() as int, w, pass, r, c);
        reveal(block_after);
        let (r0, c0) = (corner(r, pass), corner(c, pass));
        law_walls_stay(
            src[at(r0, c0, w)],
            src[at(r0, c0 + 1, w)],
            src[at(r0 + 1, c0, w)],
            src[at(r0 + 1, c0 + 1, w)],
            block_word((c0 / 2) as i32, (r0 / 2) as i32, salt),
        );
    }
}

/// Whether a buffer is a world of the layout with walls all around it.
pub open spec fn is_walled(lay: Layout, src: Seq<i32>) -> bool {
    &&& src.len() == lay.size()
    &&& forall|i: int|
        0 <= i < src.len() && !lay.inside(i / lay.width(), i % lay.width()) ==> kind_of(
            #[trigger] src[i],
        ) == WALL
}

/// Blocks in a row of blocks.
spec fn blocks_across(lay: Layout, pass: i32) -> int {
    (lay.width() - offset(pass)) / 2
}

/// Rows of blocks.
spec fn blocks_down(lay: Layout, pass: i32) -> int {
    (lay.height() - offset(pass)) / 2
}

/// The number of the block that cell `(r, c)` is in, row by row.
spec fn block_number(lay: Layout, pass: i32, r: int, c: int) -> int {
    ((r - offset(pass)) / 2) * blocks_across(lay, pass) + (c - offset(pass)) / 2
}

/// A buffer in which only the first `n` blocks have been updated.
spec fn partly(lay: Layout, src: Seq<i32>, pass: i32, salt: i32, n: int) -> Seq<i32> {
    let w = lay.width();
    Seq::new(
        src.len(),
        |i: int|
            if in_block(src.len() as int, w, pass, i / w, i % w) && block_number(
                lay,
                pass,
                i / w,
                i % w,
            ) < n {
                stepped(lay, src, pass, salt)[i]
            } else {
                src[i]
            },
    )
}

/// The corner of block `n`.
proof fn lemma_block_corner(lay: Layout, pass: i32, n: int)
    requires
        0 <= n < blocks_down(lay, pass) * blocks_across(lay, pass),
    ensures
        ({
            let r0 = offset(pass) + 2 * (n / blocks_across(lay, pass));
            let c0 = offset(pass) + 2 * (n % blocks_across(lay, pass));
            &&& 0 <= offset(pass) <= 1
            &&& 0 < blocks_across(lay, pass)
            &&& offset(pass) <= r0
            &&& offset(pass) <= c0
            &&& r0 + 2 <= lay.height()
            &&& c0 + 2 <= lay.width()
            &&& forall|r: int, c: int|
                r >= offset(pass) && offset(pass) <= c && corner(c, pass) + 2 <= lay.width() ==> (
                #[trigger] block_number(lay, pass, r, c) == n <==> corner(r, pass) == r0 && corner(
                    c,
                    pass,
                ) == c0)
        }),
{
    let p = offset(pass);
    let across = blocks_across(lay, pass);
    assert(0 <= (pass & 1) <= 1) by (bit_vector);
    assert(0 < across);
    lemma_cell_of(n, across);
    lemma_row_bound(n, blocks_down(lay, pass), across);
    let r0 = p + 2 * (n / across);
    let c0 = p + 2 * (n % across);
    assert forall|r: int, c: int|
        r >= p && p <= c && corner(c, pass) + 2 <= lay.width() implies (#[trigger] block_number(
        lay,
        pass,
        r,
        c,
    ) == n <==> corner(r, pass) == r0 && corner(c, pass) == c0) by {
        let (br, bc) = ((r - p) / 2, (c - p) / 2);
        assert(0 <= bc < across);
        lemma_at(br, bc, br + 1, across);
        assert(block_number(lay, pass, r, c) == at(br, bc, across));
        assert(corner(r, pass) == p + 2 * br);
        assert(corner(c, pass) == p + 2 * bc);
    }
}

/// The places of block `n`, row by row.
spec fn places(lay: Layout, pass: i32, n: int) -> (int, int, int, int) {
    let w = lay.width();
    let r0 = offset(pass) + 2 * (n / blocks_across(lay, pass));
    let c0 = offset(pass) + 2 * (n % blocks_across(lay, pass));
    (at(r0, c0, w), at(r0, c0 + 1, w), at(r0 + 1, c0, w), at(r0 + 1, c0 + 1, w))
}

/// What a pass makes of block `n`.
spec fn block_new(lay: Layout, src: Seq<i32>, pass: i32, salt: i32, n: int) -> Seq<i32> {
    let (p0, p1, p2, p3) = places(lay, pass, n);
    let r0 = offset(pass) + 2 * (n / blocks_across(lay, pass));
    let c0 = offset(pass) + 2 * (n % blocks_across(lay, pass));
    updated(
        src[p0],
        src[p1],
        src[p2],
        src[p3],
        block_word((c0 / 2) as i32, (r0 / 2) as i32, salt),
    )
}

/// Whether place `p` of a buffer belongs to the world.
spec fn in_world(lay: Layout, p: int) -> bool {
    lay.inside(p / lay.width(), p % lay.width())
}

/// Updating one more block writes its four places, and leaves ghosts as they
/// are: they are walls.
proof fn lemma_block_updates(lay: Layout, src: Seq<i32>, pass: i32, salt: i32, n: int)
    requires
        is_walled(lay, src),
        0 <= n < blocks_down(lay, pass) * blocks_across(lay, pass),
    ensures
        ({
            let (p0, p1, p2, p3) = places(lay, pass, n);
            let before = partly(lay, src, pass, salt, n);
            let new = block_new(lay, src, pass, salt, n);
            &&& 0 <= p0 < p1 < p2 < p3 < src.len()
            &&& before.len() == src.len()
            &&& before[p0] == src[p0] && before[p1] == src[p1]
            &&& before[p2] == src[p2] && before[p3] == src[p3]
            &&& new.len() == 4
            &&& partly(lay, src, pass, salt, n + 1) == before.update(p0, new[0]).update(
                p1,
                new[1],
            ).update(p2, new[2]).update(p3, new[3])
            &&& in_world(lay, p0) || new[0] == src[p0]
            &&& in_world(lay, p1) || new[1] == src[p1]
            &&& in_world(lay, p2) || new[2] == src[p2]
            &&& in_world(lay, p3) || new[3] == src[p3]
        }),
{
    let w = lay.width();
    let len = src.len() as int;
    lemma_block_corner(lay, pass, n);
    let r0 = offset(pass) + 2 * (n / blocks_across(lay, pass));
    let c0 = offset(pass) + 2 * (n % blocks_across(lay, pass));
    assert((r0 + 2) * w <= lay.height() * w) by (nonlinear_arith)
        requires
            r0 + 2 <= lay.height(),
            0 < w,
    ;
    assert(corner(r0, pass) == r0 && corner(c0, pass) == c0);
    assert(corner(r0 + 1, pass) == r0 && corner(c0 + 1, pass) == c0);
    lemma_own_block(len, w, pass, r0, c0);
    let (p0, p1, p2, p3) = places(lay, pass, n);
    lemma_at(r0, c0, r0 + 2, w);
    lemma_at(r0, c0 + 1, r0 + 2, w);
    lemma_at(r0 + 1, c0, r0 + 2, w);
    lemma_at(r0 + 1, c0 + 1, r0 + 2, w);
    let before = partly(lay, src, pass, salt, n);
    let after = partly(lay, src, pass, salt, n + 1);
    let whole = stepped(lay, src, pass, salt);
    assert(block_number(lay, pass, r0, c0) == n);
    assert(block_number(lay, pass, r0, c0 + 1) == n);
    assert(block_number(lay, pass, r0 + 1, c0) == n);
    assert(block_number(lay, pass, r0 + 1, c0 + 1) == n);
    let new = block_new(lay, src, pass, salt, n);
    // Walls stay, so the whole block is what the rules make of it, ghosts or not.
    law_walls_stay(
        src[p0],
        src[p1],
        src[p2],
        src[p3],
        block_word((c0 / 2) as i32, (r0 / 2) as i32, salt),
    );
    assert(new == block_after(src, w, salt, r0, c0)) by {
        reveal(block_after);
    }
    assert(whole[p0] == new[0] && whole[p1] == new[1] && whole[p2] == new[2] && whole[p3]
        == new[3]) by {
        reveal(cell_after);
    }
    assert(new.len() == 4) by {
        reveal(updated);
    }
    let m = before.update(p0, new[0]).update(p1, new[1]).update(p2, new[2]).update(p3, new[3]);
    assert(after =~= m) by {
        assert forall|i: int| 0 <= i < len implies after[i] == m[i] by {
            lemma_cell_of(i, w);
            let (r, c) = (i / w, i % w);
            if in_block(len, w, pass, r, c) && block_number(lay, pass, r, c) == n {
                lemma_own_block(len, w, pass, r, c);
                assert(i == p0 || i == p1 || i == p2 || i == p3);
            } else {
                assert(i != p0 && i != p1 && i != p2 && i != p3);
            }
        }
    }
}

/// The cells of a buffer outside the ghost ring, row by row.
pub open spec fn world_of(lay: Layout, buf: Seq<i32>) -> Seq<i32> {
    cropped(buf, lay.width(), TILE as int, lay.rows as int, lay.cols as int)
}

/// Changing one cell of a buffer changes the total of its world by that cell;
/// ghosts may only be written as they are.
proof fn lemma_world_update(lay: Layout, buf: Seq<i32>, p: int, v: i32, f: spec_fn(i32) -> int)
    requires
        buf.len() == lay.size(),
        0 <= p < buf.len(),
        in_world(lay, p) || v == buf[p],
    ensures
        total(world_of(lay, buf.update(p, v)), f) == total(world_of(lay, buf), f) - f(buf[p]) + f(v),
{
    let w = lay.width();
    let (rows, cols) = (lay.rows as int, lay.cols as int);
    if in_world(lay, p) {
        lemma_cell_of(p, w);
        let (r, c) = (p / w - TILE, p % w - TILE);
        let q = at(r, c, cols);
        lemma_at(r, c, rows, cols);
        let world = world_of(lay, buf);
        let new = world_of(lay, buf.update(p, v));
        assert(new =~= world.update(q, v)) by {
            assert forall|j: int| 0 <= j < rows * cols implies new[j] == world.update(q, v)[j] by {
                lemma_cell_of(j, cols);
                lemma_row_bound(j, rows, cols);
                lemma_at(j / cols + TILE, j % cols + TILE, lay.height(), w);
            }
        }
        lemma_total_update(world, q, v, f);
    } else {
        assert(buf.update(p, v) =~= buf);
    }
}

/// Updating one more block keeps what the buffer and its world measure.
proof fn lemma_one_block(
    lay: Layout,
    src: Seq<i32>,
    pass: i32,
    salt: i32,
    n: int,
    f: spec_fn(i32) -> int,
)
    requires
        is_walled(lay, src),
        forall|i: int| 0 <= i < src.len() ==> is_quiet(#[trigger] src[i]),
        0 <= n < blocks_down(lay, pass) * blocks_across(lay, pass),
        ignores_dir(f),
    ensures
        ({
            let before = partly(lay, src, pass, salt, n);
            let after = partly(lay, src, pass, salt, n + 1);
            &&& total(after, f) == total(before, f)
            &&& total(world_of(lay, after), f) == total(world_of(lay, before), f)
        }),
{
    lemma_block_updates(lay, src, pass, salt, n);
    let (p0, p1, p2, p3) = places(lay, pass, n);
    let new = block_new(lay, src, pass, salt, n);
    let m0 = partly(lay, src, pass, salt, n);
    let m1 = m0.update(p0, new[0]);
    let m2 = m1.update(p1, new[1]);
    let m3 = m2.update(p2, new[2]);
    lemma_total_update(m0, p0, new[0], f);
    lemma_total_update(m1, p1, new[1], f);
    lemma_total_update(m2, p2, new[2], f);
    lemma_total_update(m3, p3, new[3], f);
    lemma_world_update(lay, m0, p0, new[0], f);
    lemma_world_update(lay, m1, p1, new[1], f);
    lemma_world_update(lay, m2, p2, new[2], f);
    lemma_world_update(lay, m3, p3, new[3], f);
    let r0 = offset(pass) + 2 * (n / blocks_across(lay, pass));
    let c0 = offset(pass) + 2 * (n % blocks_across(lay, pass));
    lemma_quiet_total(
        src[p0],
        src[p1],
        src[p2],
        src[p3],
        block_word((c0 / 2) as i32, (r0 / 2) as i32, salt),
        f,
    );
    assert(new =~= seq![new[0], new[1], new[2], new[3]]);
    lemma_total_4(new[0], new[1], new[2], new[3], f);
}

proof fn lemma_partly(
    lay: Layout,
    src: Seq<i32>,
    pass: i32,
    salt: i32,
    n: int,
    f: spec_fn(i32) -> int,
)
    requires
        is_walled(lay, src),
        forall|i: int| 0 <= i < src.len() ==> is_quiet(#[trigger] src[i]),
        0 <= n <= blocks_down(lay, pass) * blocks_across(lay, pass),
        ignores_dir(f),
    ensures
        ({
            let some = partly(lay, src, pass, salt, n);
            &&& total(some, f) == total(src, f)
            &&& total(world_of(lay, some), f) == total(world_of(lay, src), f)
        }),
    decreases n,
{
    if n == 0 {
        assert(0 <= (pass & 1) <= 1) by (bit_vector);
        assert forall|r: int, c: int| r >= offset(pass) && c >= offset(pass) implies 0
            <= #[trigger] block_number(lay, pass, r, c) by {
            let br = (r - offset(pass)) / 2;
            let across = blocks_across(lay, pass);
            assert(0 <= br * across) by (nonlinear_arith)
                requires
                    0 <= br,
                    0 <= across,
            ;
        }
        assert(partly(lay, src, pass, salt, 0) =~= src);
    } else {
        lemma_one_block(lay, src, pass, salt, n - 1, f);
        lemma_partly(lay, src, pass, salt, n - 1, f);
    }
}

/// A pass over a walled world without fire, smoke or embers keeps what the
/// buffer and its world measure.
proof fn lemma_step_total(
    lay: Layout,
    src: Seq<i32>,
    pass: i32,
    salt: i32,
    f: spec_fn(i32) -> int,
)
    requires
        is_walled(lay, src),
        forall|i: int| 0 <= i < src.len() ==> is_quiet(#[trigger] src[i]),
        ignores_dir(f),
    ensures
        ({
            let out = stepped(lay, src, pass, salt);
            &&& total(out, f) == total(src, f)
            &&& total(world_of(lay, out), f) == total(world_of(lay, src), f)
        }),
{
    let w = lay.width();
    let len = src.len() as int;
    assert(0 <= (pass & 1) <= 1) by (bit_vector);
    let (down, across) = (blocks_down(lay, pass), blocks_across(lay, pass));
    let n = down * across;
    assert(0 <= n) by (nonlinear_arith)
        requires
            n == down * across,
            0 <= down,
            0 <= across,
    ;
    lemma_partly(lay, src, pass, salt, n, f);
    let all = partly(lay, src, pass, salt, n);
    assert(all =~= stepped(lay, src, pass, salt)) by {
        assert forall|i: int| 0 <= i < len implies all[i] == stepped(lay, src, pass, salt)[i] by {
            lemma_cell_of(i, w);
            lemma_row_bound(i, lay.height(), w);
            let (r, c) = (i / w, i % w);
            reveal(cell_after);
            if in_block(len, w, pass, r, c) {
                let (br, bc) = ((r - offset(pass)) / 2, (c - offset(pass)) / 2);
                let r0 = corner(r, pass);
                assert(r0 + 2 <= lay.height()) by (nonlinear_arith)
                    requires
                        (r0 + 2) * w + 0 <= lay.height() * w,
                        0 < w,
                ;
                lemma_at(br, bc, down, across);
            }
        }
    }
}

/// Nothing is gained or lost: in a walled world without fire, smoke or
/// embers, a pass keeps the number of cells of every element, in the whole
/// buffer and in the world without its ghost ring. Sand, water and oil only
/// ever move.
pub proof fn law_step_conserves(lay: Layout, src: Seq<i32>, pass: i32, salt: i32, k: i32)
    requires
        is_walled(lay, src),
        forall|i: int| 0 <= i < src.len() ==> is_quiet(#[trigger] src[i]),
    ensures
        population(stepped(lay, src, pass, salt), k) == population(src, k),
        population(world_of(lay, stepped(lay, src, pass, salt)), k) == population(
            world_of(lay, src),
            k,
        ),
{
    let out = stepped(lay, src, pass, salt);
    lemma_measures(k);
    lemma_step_total(lay, src, pass, salt, of_kind(k));
    lemma_population_total(out, k);
    lemma_population_total(src, k);
    lemma_population_total(world_of(lay, out), k);
    lemma_population_total(world_of(lay, src), k);
}

/// No grain is lost, doubled or pushed into the ghost ring: in a walled world
/// without fire, smoke or embers, the cells of the world after a pass are those
/// from before it in another order, element and shade together. Only directions
/// change.
pub proof fn law_step_keeps_grains(lay: Layout, src: Seq<i32>, pass: i32, salt: i32)
    requires
        is_walled(lay, src),
        forall|i: int| 0 <= i < src.len() ==> is_quiet(#[trigger] src[i]),
    ensures
        grains(world_of(lay, stepped(lay, src, pass, salt))).to_multiset() == grains(
            world_of(lay, src),
        ).to_multiset(),
{
    let out = stepped(lay, src, pass, salt);
    let (after, before) = (world_of(lay, out), world_of(lay, src));
    assert forall|v: i32| grains(after).to_multiset().count(v) == grains(
        before,
    ).to_multiset().count(v) by {
        lemma_measures(v);
        lemma_step_total(lay, src, pass, salt, of_grain(v));
        lemma_grains_total(after, v);
        lemma_grains_total(before, v);
    }
    assert(grains(after).to_multiset() =~= grains(before).to_multiset());
}

/// Where nothing burns, glows or drifts, nothing starts to: a pass over a buffer
/// without fire, smoke or embers leaves one without them.
pub proof fn law_step_stays_quiet(lay: Layout, src: Seq<i32>, pass: i32, salt: i32)
    requires
        forall|i: int| 0 <= i < src.len() ==> is_quiet(#[trigger] src[i]),
    ensures
        forall|i: int| 0 <= i < src.len() ==> is_quiet(#[trigger] stepped(lay, src, pass, salt)[i]),
{
    let w = lay.width();
    assert forall|i: int| 0 <= i < src.len() implies is_quiet(
        #[trigger] stepped(lay, src, pass, salt)[i],
    ) by {
        reveal(cell_after);
        lemma_cell_of(i, w);
        let (r, c) = (i / w, i % w);
        if in_block(src.len() as int, w, pass, r, c) {
            lemma_own_block(src.len() as int, w, pass, r, c);
            reveal(block_after);
            let (r0, c0) = (corner(r, pass), corner(c, pass));
            law_quiet_block(
                src[at(r0, c0, w)],
                src[at(r0, c0 + 1, w)],
                src[at(r0 + 1, c0, w)],
                src[at(r0 + 1, c0 + 1, w)],
                block_word((c0 / 2) as i32, (r0 / 2) as i32, salt),
                EMPTY,
            );
        }
    }
}

/// Counting goes cell by cell: one cell more of an element is one more.
pub proof fn law_one_cell_counts(cells: Seq<i32>, cell: i32, k: i32)
    requires
        0 <= cell,
    ensures
        population(seq![], k) == 0,
        population(cells.push(cell), k) == population(cells, k) + (if cell as int % 256 == k {
            1int
        } else {
            0
        }),
{
    lemma_bits(cell);
    assert(cells.push(cell).drop_last() =~= cells);
}

} // verus!
