//! Views, quality levels and the parameter block.
use vstd::prelude::*;

verus! {

/// Slots in the parameter block: 0 frame, 1 blend weight of the new frame,
/// 2 light intensity, 3 view, 4 rays, 5 exposure, 6 ambient.
pub const PARAMS: usize = 16;

/// Frames after which the frame number in the parameter block starts again, so
/// that it is exact as a small float.
pub const FRAME_WRAP: u32 = 4096;

/// What the picture shows.
#[derive(Clone, Copy, Debug, PartialEq, Eq, Structural)]
pub enum View {
    /// The lit scene.
    Lit,
    /// The light alone.
    Radiance,
    /// The distance field.
    Distance,
    /// The color of the nearest surface.
    Voronoi,
}

impl View {
    /// The number that stands for the view in the parameter block.
    pub open spec fn number(self) -> int {
        match self {
            View::Lit => 0,
            View::Radiance => 1,
            View::Distance => 2,
            View::Voronoi => 3,
        }
    }

    /// The view that follows this one.
    pub fn next(self) -> (v: View)
        ensures
            v.number() == (self.number() + 1) % 4,
    {
        match self {
            View::Lit => View::Radiance,
            View::Radiance => View::Distance,
            View::Distance => View::Voronoi,
            View::Voronoi => View::Lit,
        }
    }

    /// The number that stands for the view in the parameter block.
    pub fn code(self) -> (n: i32)
        ensures
            n == self.number(),
    {
        match self {
            View::Lit => 0,
            View::Radiance => 1,
            View::Distance => 2,
            View::Voronoi => 3,
        }
    }
}

/// Every view has a number of its own, so four steps lead back to it.
pub proof fn law_views_apart(a: View, b: View)
    requires
        a.number() == b.number(),
    ensures
        a == b,
        (((a.number() + 1) % 4 + 1) % 4 + 1) % 4 != a.number(),
        ((((a.number() + 1) % 4 + 1) % 4 + 1) % 4 + 1) % 4 == a.number(),
{
}

/// Ray budget per pixel.
#[derive(Clone, Copy, Debug, PartialEq, Eq, Structural)]
pub struct Quality {
    pub rays: i32,
    pub steps: i32,
    /// Steps between "is any ray in this tile still marching?" checks.
    pub check_every: i32,
}

/// The budget of a level: low, medium and high for 1, 2 and 3.
pub open spec fn budget(level: int) -> Quality {
    if level <= 1 {
        Quality { rays: 8, steps: 32, check_every: 8 }
    } else if level == 2 {
        Quality { rays: 16, steps: 48, check_every: 8 }
    } else {
        Quality { rays: 32, steps: 64, check_every: 16 }
    }
}

/// The budget of a level. Levels below 1 and above 3 are taken as 1 and 3.
pub fn quality(level: usize) -> (q: Quality)
    ensures
        q == budget(level as int),
{
    if level <= 1 {
        Quality { rays: 8, steps: 32, check_every: 8 }
    } else if level == 2 {
        Quality { rays: 16, steps: 48, check_every: 8 }
    } else {
        Quality { rays: 32, steps: 64, check_every: 16 }
    }
}

impl Quality {
    /// The same budget with a single check at the very end, as if there were no
    /// early exit.
    pub fn without_exit(self) -> (q: Quality)
        ensures
            q == (Quality { check_every: self.steps, ..self }),
    {
        Quality { check_every: self.steps, ..self }
    }
}

/// The frame number as the parameter block has it.
pub fn frame_slot(frame: u32) -> (n: u32)
    ensures
        n == frame as int % FRAME_WRAP as int,
        n < FRAME_WRAP,
{
    frame % FRAME_WRAP
}

/// A higher level casts more and longer rays.
pub proof fn law_levels_grow(a: int, b: int)
    requires
        1 <= a < b <= 3,
    ensures
        budget(a).rays < budget(b).rays,
        budget(a).steps < budget(b).steps,
        budget(a).check_every >= 1,
{
}

/// The views follow each other in the order lit, radiance, distance, Voronoi. A tile
/// without early exit looks once, after its last step. Frames are numbered up to 4095 and
/// then from 0 again.
pub proof fn law_next_view(
    a: View,
    b: View,
    q: Quality,
    all: Quality,
    frame: u32,
    slot: u32,
    next: u32,
)
    requires
        call_ensures(View::next, (a,), b),
        call_ensures(Quality::without_exit, (q,), all),
        frame < u32::MAX,
        call_ensures(frame_slot, (frame,), slot),
        call_ensures(frame_slot, ((frame + 1) as u32,), next),
    ensures
        a is Lit ==> b is Radiance,
        a is Radiance ==> b is Distance,
        a is Distance ==> b is Voronoi,
        a is Voronoi ==> b is Lit,
        all.check_every == q.steps && all.rays == q.rays && all.steps == q.steps,
        next == (if slot == 4095 {
            0
        } else {
            slot + 1
        }),
        frame < 4096 ==> slot == frame,
{
}

} // verus!
