//! What the window does with what the user does, frame by frame.
use crate::cloth::gpu::end_parity;
use crate::cloth::world::Pins;
use crate::input::Key;
use vstd::prelude::*;

verus! {

/// What the choices of the user add up to.
#[derive(Clone, Copy, Debug, PartialEq, Eq, Structural)]
pub struct Session {
    pub pins: Pins,
    pub paused: bool,
    pub wind_on: bool,
    /// The buffer that holds the cloth.
    pub parity: usize,
    /// Pictures saved so far.
    pub shots: u32,
}

/// What is left to do for a key.
#[derive(Clone, Copy, Debug, PartialEq, Eq, Structural)]
pub enum Action {
    Nothing,
    /// Hang the cloth up again.
    Reset,
    /// Save the picture with this number.
    Shot(u32),
}

/// The pin pattern of a digit.
pub open spec fn pins_of(n: u32) -> Option<Pins> {
    if n == 1 {
        Some(Pins::Top)
    } else if n == 2 {
        Some(Pins::Sparse)
    } else if n == 3 {
        Some(Pins::Corners)
    } else if n == 4 {
        Some(Pins::Free)
    } else {
        None
    }
}

impl Session {
    pub fn new() -> (s: Session)
        ensures
            s == (Session { pins: Pins::Top, paused: false, wind_on: true, parity: 0, shots: 0 }),
    {
        Session { pins: Pins::Top, paused: false, wind_on: true, parity: 0, shots: 0 }
    }

    /// A key was pressed.
    pub fn press(&mut self, key: Key) -> (a: Action)
        requires
            old(self).shots < u32::MAX,
        ensures
            *final(self) == match key {
                Key::Digit(n) => match pins_of(n) {
                    Some(pins) => Session { pins, ..*old(self) },
                    None => *old(self),
                },
                Key::Space => Session { paused: !old(self).paused, ..*old(self) },
                Key::W => Session { wind_on: !old(self).wind_on, ..*old(self) },
                Key::P => Session { shots: (old(self).shots + 1) as u32, ..*old(self) },
                _ => *old(self),
            },
            a == match key {
                Key::Digit(n) => if pins_of(n) is Some {
                    Action::Reset
                } else {
                    Action::Nothing
                },
                Key::R => Action::Reset,
                Key::P => Action::Shot((old(self).shots + 1) as u32),
                _ => Action::Nothing,
            },
    {
        match key {
            Key::Digit(n) => {
                let pins = match n {
                    1 => Pins::Top,
                    2 => Pins::Sparse,
                    3 => Pins::Corners,
                    4 => Pins::Free,
                    _ => return Action::Nothing,
                };
                self.pins = pins;
                Action::Reset
            },
            Key::Space => {
                self.paused = !self.paused;
                Action::Nothing
            },
            Key::W => {
                self.wind_on = !self.wind_on;
                Action::Nothing
            },
            Key::R => Action::Reset,
            Key::P => {
                self.shots = self.shots + 1;
                Action::Shot(self.shots)
            },
            _ => Action::Nothing,
        }
    }

    /// Whether the cloth moves this frame, and if so from which buffer. It ends
    /// in the buffer that a frame of `substeps` substeps leaves it in.
    pub fn launches(&mut self, substeps: usize) -> (from: Option<usize>)
        requires
            old(self).parity < 2,
            old(self).parity + substeps <= usize::MAX,
        ensures
            from == if old(self).paused {
                None
            } else {
                Some(old(self).parity)
            },
            final(self).parity < 2,
            *final(self) == (Session {
                parity: if old(self).paused {
                    old(self).parity
                } else {
                    ((old(self).parity + substeps) % 2) as usize
                },
                ..*old(self)
            }),
    {
        if self.paused {
            None
        } else {
            let from: usize = self.parity;
            self.parity = end_parity(from, substeps);
            Some(from)
        }
    }
}

/// Pressing a key that turns something on or off twice changes nothing in the end, and
/// every picture gets the next number.
pub proof fn law_keys_undo(s: &mut Session, t: &mut Session, key: Key, a: Action, b: Action)
    requires
        call_ensures(Session::press, (s, key), a),
        call_ensures(Session::press, (t, key), b),
        *final(s) == *old(t),
        old(s).shots < u32::MAX - 1,
    ensures
        key is Space ==> *final(s) == (Session { paused: !old(s).paused, ..*old(s) }),
        key is W ==> *final(s) == (Session { wind_on: !old(s).wind_on, ..*old(s) }),
        key is Space || key is W ==> *final(t) == *old(s) && a is Nothing,
        key is R ==> *final(s) == *old(s) && a is Reset,
        key is P ==> a == Action::Shot(final(s).shots) && final(s).shots == old(s).shots + 1 && b
            == Action::Shot((final(s).shots + 1) as u32),
        key is P ==> *final(s) == (Session { shots: final(s).shots, ..*old(s) }),
        key is C || key is E || key is O || key is Q || key is V || key is Other ==> *final(s)
            == *old(s) && a is Nothing,
{
}

/// The digits from 1 to 4 hang the cloth up again, by its top row, by every sixteenth
/// particle of it, by its corners, or not at all. Other digits do nothing.
pub proof fn law_digits_pick_pins(s: &mut Session, n: u32, a: Action)
    requires
        call_ensures(Session::press, (s, Key::Digit(n)), a),
    ensures
        n == 1 ==> final(s).pins is Top,
        n == 2 ==> final(s).pins is Sparse,
        n == 3 ==> final(s).pins is Corners,
        n == 4 ==> final(s).pins is Free,
        1 <= n <= 4 ==> a is Reset,
        n == 0 || n > 4 ==> *final(s) == *old(s) && a is Nothing,
        *final(s) == (Session { pins: final(s).pins, ..*old(s) }),
{
}

/// A frame starts from the buffer that the frame before it ended in, and every substep
/// takes the cloth to the other one. A paused cloth stays where it is.
pub proof fn law_frames_chain(
    s: &mut Session,
    t: &mut Session,
    m: usize,
    n: usize,
    p: Option<usize>,
    q: Option<usize>,
)
    requires
        old(s).parity < 2,
        call_ensures(Session::launches, (s, m), p),
        call_ensures(Session::launches, (t, n), q),
        *final(s) == *old(t),
    ensures
        old(s).paused ==> p is None && *final(s) == *old(s),
        !old(s).paused ==> p == Some(old(s).parity) && q is Some,
        !old(s).paused && m % 2 == 0 ==> q == p,
        !old(s).paused && m % 2 == 1 ==> q->0 + p->0 == 1,
        *final(s) == (Session { parity: final(s).parity, ..*old(s) }),
{
}

} // verus!
