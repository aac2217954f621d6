//! What the window does with what the user does, frame by frame.
use vstd::prelude::*;

verus! {

/// What the choices of the user add up to.
#[derive(Clone, Copy, Debug, PartialEq, Eq, Structural)]
pub struct Session {
    pub paused: bool,
    /// Seed of the soup that is shown.
    pub seed: u64,
}

/// What a frame does before it is drawn.
#[derive(Clone, Copy, Debug, PartialEq, Eq, Structural)]
pub struct Plan {
    /// Load the soup of this seed first.
    pub reseed: Option<u64>,
    /// Run the recorded generations.
    pub launch: bool,
}

/// The seed after `seed`; the last one is followed by 0.
pub open spec fn next_seed(seed: u64) -> u64 {
    if seed == u64::MAX {
        0
    } else {
        (seed + 1) as u64
    }
}

impl Session {
    pub fn new(seed: u64) -> (s: Session)
        ensures
            s == (Session { paused: false, seed }),
    {
        Session { paused: false, seed }
    }

    /// The next frame, with the keys that were pressed for it: `pause` stops and
    /// starts the world, `reseed` puts a new soup into it.
    pub fn frame(&mut self, pause: bool, reseed: bool) -> (plan: Plan)
        ensures
            final(self).paused == (old(self).paused != pause),
            final(self).seed == if reseed {
                next_seed(old(self).seed)
            } else {
                old(self).seed
            },
            plan == (Plan {
                reseed: if reseed {
                    Some(next_seed(old(self).seed))
                } else {
                    None
                },
                launch: !final(self).paused,
            }),
    {
        if pause {
            self.paused = !self.paused;
        }
        if reseed {
            self.seed = self.seed.wrapping_add(1);
        }
        Plan {
            reseed: if reseed {
                Some(self.seed)
            } else {
                None
            },
            launch: !self.paused,
        }
    }
}

/// Pausing twice goes on, a new soup has the next seed, and seeds start over after the
/// last one. A frame shows the soup that was loaded for it, and moves unless it is paused.
pub proof fn law_frames(
    s: &mut Session,
    t: &mut Session,
    pause: bool,
    reseed: bool,
    p: Plan,
    q: Plan,
)
    requires
        call_ensures(Session::frame, (s, pause, reseed), p),
        call_ensures(Session::frame, (t, pause, reseed), q),
        *final(s) == *old(t),
    ensures
        final(t).paused == old(s).paused,
        pause <==> final(s).paused != old(s).paused,
        p.launch == !final(s).paused,
        !reseed ==> final(s).seed == old(s).seed && p.reseed is None,
        reseed ==> p.reseed == Some(final(s).seed),
        reseed && old(s).seed < u64::MAX ==> final(s).seed == old(s).seed + 1,
        reseed && old(s).seed == u64::MAX ==> final(s).seed == 0,
{
}

} // verus!
