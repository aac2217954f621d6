//! The parameter block that both renderers read, and the choices behind it.
use vstd::prelude::*;

verus! {

/// Edge of a tile program in pixels.
pub const TILE: usize = 32;

/// Slots in the parameter block.
pub const PARAMS: usize = 32;

pub const WIDTH: usize = 0;

pub const HEIGHT: usize = 1;

/// x, y, z.
pub const EYE: usize = 2;

/// x, y, z.
pub const FORWARD: usize = 5;

/// x, y, z.
pub const RIGHT: usize = 8;

/// x, y, z.
pub const UP: usize = 11;

pub const FOCAL: usize = 14;

pub const TIME: usize = 15;

/// x, y, z of the unit vector toward the sun.
pub const SUN: usize = 16;

pub const SPIN_SIN: usize = 19;

pub const SPIN_COS: usize = 20;

pub const BOB: usize = 21;

pub const VIEW: usize = 22;

pub const MAX_STEPS: usize = 23;

/// The parameters of the block in order: first slot and number of slots.
pub open spec fn slots() -> Seq<(int, int)> {
    seq![
        (WIDTH as int, 1),
        (HEIGHT as int, 1),
        (EYE as int, 3),
        (FORWARD as int, 3),
        (RIGHT as int, 3),
        (UP as int, 3),
        (FOCAL as int, 1),
        (TIME as int, 1),
        (SUN as int, 3),
        (SPIN_SIN as int, 1),
        (SPIN_COS as int, 1),
        (BOB as int, 1),
        (VIEW as int, 1),
        (MAX_STEPS as int, 1),
    ]
}

/// No two parameters share a slot, and all of them lie in the block.
pub proof fn law_slots_apart(i: int, j: int)
    requires
        0 <= i < j < slots().len(),
    ensures
        slots()[i].0 + slots()[i].1 <= slots()[j].0,
        slots()[j].0 + slots()[j].1 <= PARAMS,
{
}

/// What the picture shows.
#[derive(Clone, Copy, Debug, PartialEq, Eq, Structural)]
pub enum View {
    /// Lit scene.
    Shaded,
    /// Sphere-tracing steps each pixel took.
    Steps,
    /// Steps each tile program actually ran (per-tile early exit).
    Tiles,
}

impl View {
    /// The number that stands for the view in the parameter block.
    pub open spec fn number(self) -> int {
        match self {
            View::Shaded => 0,
            View::Steps => 1,
            View::Tiles => 2,
        }
    }

    /// The view that follows this one.
    pub fn next(self) -> (v: View)
        ensures
            v.number() == (self.number() + 1) % 3,
    {
        match self {
            View::Shaded => View::Steps,
            View::Steps => View::Tiles,
            View::Tiles => View::Shaded,
        }
    }

    /// The number that stands for the view in the parameter block.
    pub fn code(self) -> (n: i32)
        ensures
            n == self.number(),
    {
        match self {
            View::Shaded => 0,
            View::Steps => 1,
            View::Tiles => 2,
        }
    }
}

/// Every view comes round again after three steps, and not before.
pub proof fn law_views_cycle(a: View, b: View, c: View, d: View)
    requires
        b.number() == (a.number() + 1) % 3,
        c.number() == (b.number() + 1) % 3,
        d.number() == (c.number() + 1) % 3,
    ensures
        a == d,
        a != b && b != c && a != c,
{
}

/// March and shadow step budgets.
#[derive(Clone, Copy, Debug, PartialEq, Eq, Structural)]
pub struct Quality {
    pub max_steps: i32,
    /// Steps between "is any ray in this tile still marching?" checks.
    pub check_every: i32,
    pub shadow_steps: i32,
}

/// The budgets of a level: low, medium and high for 1, 2 and 3.
pub open spec fn budget(level: int) -> Quality {
    if level <= 1 {
        Quality { max_steps: 64, check_every: 16, shadow_steps: 16 }
    } else if level == 2 {
        Quality { max_steps: 128, check_every: 16, shadow_steps: 32 }
    } else {
        Quality { max_steps: 256, check_every: 16, shadow_steps: 64 }
    }
}

/// The preset of a level. Levels below 1 and above 3 are taken as 1 and 3.
pub fn preset(level: usize) -> (q: Quality)
    ensures
        q == budget(level as int),
{
    if level <= 1 {
        Quality { max_steps: 64, check_every: 16, shadow_steps: 16 }
    } else if level == 2 {
        Quality { max_steps: 128, check_every: 16, shadow_steps: 32 }
    } else {
        Quality { max_steps: 256, check_every: 16, shadow_steps: 64 }
    }
}

impl Quality {
    /// The same budgets with a single check at the very end: every tile runs
    /// all of its steps, as if there were no early exit.
    pub fn without_exit(self) -> (q: Quality)
        ensures
            q == (Quality { check_every: self.max_steps, ..self }),
    {
        Quality { check_every: self.max_steps, ..self }
    }
}

/// A higher level never has a smaller budget, and the levels differ.
pub proof fn law_levels_grow(a: int, b: int)
    requires
        1 <= a < b <= 3,
    ensures
        budget(a).max_steps < budget(b).max_steps,
        budget(a).shadow_steps < budget(b).shadow_steps,
        budget(a).check_every >= 1,
{
}

/// A level marches twice as far as the one below it, from 64 steps on. Shadows get a
/// quarter of the steps, and tiles look every 16. Beyond the last level on either
/// side there is nothing new.
pub proof fn law_levels_double(level: int)
    ensures
        level <= 1 ==> budget(level).max_steps == 64,
        1 <= level < 3 ==> budget(level + 1).max_steps == 2 * budget(level).max_steps,
        level >= 3 ==> budget(level) == budget(3),
        budget(level).shadow_steps * 4 == budget(level).max_steps,
        budget(level).check_every == 16,
{
}

/// The views in the order in which they follow each other are numbered from 0.
pub proof fn law_views_numbered(v: View)
    ensures
        v is Shaded <==> v.number() == 0,
        v is Steps <==> v.number() == 1,
        v is Tiles <==> v.number() == 2,
{
}

/// The views follow each other in the order shaded, steps, tiles, and a tile without early
/// exit looks once, after its last step.
pub proof fn law_next_view(a: View, b: View, q: Quality, all: Quality, n: i32)
    requires
        call_ensures(View::next, (a,), b),
        call_ensures(Quality::without_exit, (q,), all),
        call_ensures(View::code, (a,), n),
    ensures
        a is Shaded ==> b is Steps,
        a is Steps ==> b is Tiles,
        a is Tiles ==> b is Shaded,
        all.check_every == q.max_steps && all.max_steps == q.max_steps && all.shadow_steps
            == q.shadow_steps,
        n == a.number(),
{
}

/// The parameters fill the block from its first slot on, without a gap.
pub proof fn law_slots_without_gap(i: int)
    requires
        0 <= i < slots().len() - 1,
    ensures
        slots()[0].0 == 0,
        slots()[i].0 + slots()[i].1 == slots()[i + 1].0,
        slots().len() == 14,
{
}

} // verus!
