//! What the window does with what the user does.
use crate::input::Key;
use crate::raymarch::scene;
use crate::raymarch::scene::{budget, preset, Quality};
use vstd::prelude::*;

verus! {

/// What the choices of the user add up to.
#[derive(Clone, Copy, Debug, PartialEq, Eq, Structural)]
pub struct Session {
    pub paused: bool,
    /// The camera turns by itself.
    pub auto_orbit: bool,
    pub view: scene::View,
    pub quality: Quality,
}

/// What is left to do for a key.
#[derive(Clone, Copy, Debug, PartialEq, Eq, Structural)]
pub enum Action {
    Nothing,
    /// The quality changed. Its loop bounds are baked into the recorded work,
    /// which has to be recorded again.
    Recapture,
    /// Save the picture.
    Shot,
}

impl Session {
    pub fn new(quality: Quality) -> (s: Session)
        ensures
            s == (Session { paused: false, auto_orbit: true, view: scene::View::Shaded, quality }),
    {
        Session { paused: false, auto_orbit: true, view: scene::View::Shaded, quality }
    }

    /// A key was pressed.
    pub fn press(&mut self, key: Key) -> (a: Action)
        ensures
            final(self).paused == (old(self).paused != (key == Key::Space)),
            final(self).auto_orbit == (old(self).auto_orbit != (key == Key::O)),
            final(self).view.number() == if key == Key::V {
                (old(self).view.number() + 1) % 3
            } else {
                old(self).view.number()
            },
            final(self).quality == match key {
                Key::Digit(n) => if 1 <= n <= 3 {
                    budget(n as int)
                } else {
                    old(self).quality
                },
                _ => old(self).quality,
            },
            a == match key {
                Key::Digit(n) => if 1 <= n <= 3 {
                    Action::Recapture
                } else {
                    Action::Nothing
                },
                Key::P => Action::Shot,
                _ => Action::Nothing,
            },
    {
        match key {
            Key::Space => {
                self.paused = !self.paused;
                Action::Nothing
            },
            Key::O => {
                self.auto_orbit = !self.auto_orbit;
                Action::Nothing
            },
            Key::V => {
                self.view = self.view.next();
                Action::Nothing
            },
            Key::Digit(n) => {
                if n == 1 || n == 2 || n == 3 {
                    self.quality = preset(n as usize);
                    Action::Recapture
                } else {
                    Action::Nothing
                }
            },
            Key::P => Action::Shot,
            _ => Action::Nothing,
        }
    }

    /// Whether the mouse turned the camera: the left button is down and the
    /// mouse was and is over the window. Turning it by hand ends the orbit.
    pub fn drag(&mut self, left: bool, was_over: bool, is_over: bool) -> (turned: bool)
        ensures
            turned == (left && was_over && is_over),
            *final(self) == (Session { auto_orbit: old(self).auto_orbit && !turned, ..*old(self) }),
    {
        let turned: bool = left && was_over && is_over;
        if turned {
            self.auto_orbit = false;
        }
        turned
    }
}

/// Pressing a key that turns something on or off twice changes nothing in the end, and
/// three presses of the key for views lead round. Between them only that has changed.
pub proof fn law_keys_undo(
    s: &mut Session,
    t: &mut Session,
    u: &mut Session,
    key: Key,
    a: Action,
    b: Action,
    c: Action,
)
    requires
        call_ensures(Session::press, (s, key), a),
        call_ensures(Session::press, (t, key), b),
        call_ensures(Session::press, (u, key), c),
        *final(s) == *old(t),
        *final(t) == *old(u),
    ensures
        key is Space ==> *final(s) == (Session { paused: !old(s).paused, ..*old(s) }),
        key is O ==> *final(s) == (Session { auto_orbit: !old(s).auto_orbit, ..*old(s) }),
        key is Space || key is O ==> *final(t) == *old(s) && a is Nothing,
        key is V ==> *final(u) == *old(s) && final(s).view != old(s).view && final(t).view != old(
            s,
        ).view && a is Nothing,
        key is P ==> *final(s) == *old(s) && a is Shot,
        key is C || key is E || key is Q || key is R || key is W || key is Other ==> *final(s)
            == *old(s) && a is Nothing,
{
}

/// A digit from 1 to 3 picks the quality of that level, whatever it was before, and asks
/// for new work. Other digits do nothing.
pub proof fn law_digits_pick_quality(s: &mut Session, n: u32, a: Action)
    requires
        call_ensures(Session::press, (s, Key::Digit(n)), a),
    ensures
        1 <= n <= 3 ==> *final(s) == (Session { quality: budget(n as int), ..*old(s) }) && a is Recapture,
        n == 0 || n > 3 ==> *final(s) == *old(s) && a is Nothing,
{
}

/// The camera turns by itself until it is turned by hand, with the left button and over
/// the window.
pub proof fn law_drag_ends_orbit(s: &mut Session, left: bool, was: bool, is: bool, turned: bool)
    requires
        call_ensures(Session::drag, (s, left, was, is), turned),
    ensures
        turned <==> left && was && is,
        turned ==> !final(s).auto_orbit,
        !turned ==> final(s).auto_orbit == old(s).auto_orbit,
        final(s).paused == old(s).paused && final(s).view == old(s).view && final(s).quality == old(
            s,
        ).quality,
{
}

} // verus!
