//! What the window does with what the user does.
use crate::input::{Buttons, Key};
use crate::light2d::scene::{pack, packed, LIGHT, WALL};
use crate::light2d::view;
use crate::light2d::view::{budget, quality, Quality};
use vstd::prelude::*;

verus! {

/// Colors of the lights that can be painted.
pub const COLORS: usize = 6;

/// Red, green and blue of light color `i`.
pub open spec fn color_of(i: int) -> (u8, u8, u8) {
    if i == 0 {
        (255, 190, 110)
    } else if i == 1 {
        (255, 80, 180)
    } else if i == 2 {
        (90, 200, 255)
    } else if i == 3 {
        (120, 255, 140)
    } else if i == 4 {
        (255, 250, 240)
    } else {
        (140, 110, 255)
    }
}

/// Red, green and blue of light color `i`.
pub fn palette(i: usize) -> (rgb: [u8; 3])
    requires
        i < COLORS,
    ensures
        (rgb[0], rgb[1], rgb[2]) == color_of(i as int),
{
    match i {
        0 => [255, 190, 110],
        1 => [255, 80, 180],
        2 => [90, 200, 255],
        3 => [120, 255, 140],
        4 => [255, 250, 240],
        _ => [140, 110, 255],
    }
}

/// What the choices of the user add up to.
#[derive(Clone, Copy, Debug, PartialEq, Eq, Structural)]
pub struct Session {
    /// Color of the light that is painted.
    pub color: usize,
    pub view: view::View,
    /// A light circles through the scene.
    pub orbit: bool,
    /// The circling light stands still.
    pub paused: bool,
    /// Quality level, counted from 0.
    pub level: usize,
    pub quality: Quality,
    /// Frames shown so far.
    pub frame: u32,
}

/// What is left to do for a key.
#[derive(Clone, Copy, Debug, PartialEq, Eq, Structural)]
pub enum Action {
    Nothing,
    /// Empty the scene.
    Clear,
    /// Paint the demo scene again.
    Reset,
    /// The quality changed, and the recorded work with it.
    Recapture,
    /// Save the picture of this frame.
    Shot(u32),
}

impl Session {
    pub open spec fn wf(self) -> bool {
        &&& self.color < COLORS
        &&& self.level < 3
    }

    /// A session that starts with `quality`. Its level is the one with as many
    /// rays, the middle one if there is none.
    pub fn new(q: Quality) -> (s: Session)
        ensures
            s.wf(),
            s.color == 0,
            s.view == view::View::Lit,
            s.orbit,
            !s.paused,
            s.quality == q,
            s.frame == 0,
            s.level == if q.rays == budget(1).rays {
                0int
            } else if q.rays == budget(3).rays {
                2
            } else {
                1
            },
    {
        Session {
            color: 0,
            view: view::View::Lit,
            orbit: true,
            paused: false,
            level: if q.rays == 8 {
                0
            } else if q.rays == 32 {
                2
            } else {
                1
            },
            quality: q,
            frame: 0,
        }
    }

    /// A key was pressed.
    pub fn press(&mut self, key: Key) -> (a: Action)
        requires
            old(self).wf(),
        ensures
            final(self).wf(),
            final(self).frame == old(self).frame,
            final(self).color == match key {
                Key::Digit(n) => if 1 <= n <= COLORS {
                    n - 1
                } else {
                    old(self).color as int
                },
                _ => old(self).color as int,
            },
            final(self).view.number() == if key == Key::V {
                (old(self).view.number() + 1) % 4
            } else {
                old(self).view.number()
            },
            final(self).orbit == (old(self).orbit != (key == Key::O)),
            final(self).paused == (old(self).paused != (key == Key::Space)),
            key == Key::Q ==> final(self).level == (old(self).level + 1) % 3 && final(self).quality
                == budget((old(self).level + 1) % 3 + 1),
            key != Key::Q ==> final(self).level == old(self).level && final(self).quality == old(
                self,
            ).quality,
            a == match key {
                Key::C => Action::Clear,
                Key::R => Action::Reset,
                Key::Q => Action::Recapture,
                Key::P => Action::Shot(old(self).frame),
                _ => Action::Nothing,
            },
    {
        match key {
            Key::Digit(n) => {
                if 1 <= n && n <= COLORS as u32 {
                    self.color = (n - 1) as usize;
                }
                Action::Nothing
            },
            Key::V => {
                self.view = self.view.next();
                Action::Nothing
            },
            Key::O => {
                self.orbit = !self.orbit;
                Action::Nothing
            },
            Key::Space => {
                self.paused = !self.paused;
                Action::Nothing
            },
            Key::C => Action::Clear,
            Key::R => Action::Reset,
            Key::Q => {
                self.level = (self.level + 1) % 3;
                self.quality = quality(self.level + 1);
                Action::Recapture
            },
            Key::P => Action::Shot(self.frame),
            _ => Action::Nothing,
        }
    }

    /// What the mouse paints: the right button a wall, the left one light, or
    /// nothing over what is there when it erases.
    pub fn brush(&self, down: Buttons, erase: bool) -> (value: Option<i32>)
        requires
            self.wf(),
        ensures
            value == if down.right {
                Some(packed(WALL, 70, 70, 80))
            } else if down.left && erase {
                Some(0i32)
            } else if down.left {
                Some(
                    packed(
                        LIGHT,
                        color_of(self.color as int).0,
                        color_of(self.color as int).1,
                        color_of(self.color as int).2,
                    ),
                )
            } else {
                None
            },
    {
        if down.right {
            Some(pack(WALL, [70, 70, 80]))
        } else if down.left && erase {
            Some(0)
        } else if down.left {
            Some(pack(LIGHT, palette(self.color)))
        } else {
            None
        }
    }

    /// Start the next frame. Returns its parity, which says which of the two
    /// light buffers it reads.
    pub fn advance(&mut self) -> (parity: usize)
        requires
            old(self).frame < u32::MAX,
        ensures
            parity == old(self).frame as int % 2,
            *final(self) == (Session { frame: (old(self).frame + 1) as u32, ..*old(self) }),
    {
        let parity: usize = (self.frame % 2) as usize;
        self.frame = self.frame + 1;
        parity
    }
}

/// Frame after frame, what one frame has written the next one reads.
pub proof fn law_light_passed_on(frame: int, parity: int, next: int)
    requires
        parity == frame % 2,
        next == (frame + 1) % 2,
    ensures
        1 - parity == next,
{
}

/// Pressing a key that turns something on or off twice changes nothing in the end. Four
/// presses of the key for views lead round, and three of the key for quality, up from the
/// lowest level through the others.
pub proof fn law_keys_undo(
    s: &mut Session,
    t: &mut Session,
    u: &mut Session,
    v: &mut Session,
    key: Key,
    a: Action,
    b: Action,
    c: Action,
    d: Action,
)
    requires
        old(s).wf(),
        call_ensures(Session::press, (s, key), a),
        call_ensures(Session::press, (t, key), b),
        call_ensures(Session::press, (u, key), c),
        call_ensures(Session::press, (v, key), d),
        *final(s) == *old(t),
        *final(t) == *old(u),
        *final(u) == *old(v),
    ensures
        key is Space ==> *final(s) == (Session { paused: !old(s).paused, ..*old(s) }),
        key is O ==> *final(s) == (Session { orbit: !old(s).orbit, ..*old(s) }),
        key is Space || key is O ==> *final(t) == *old(s) && a is Nothing,
        key is V ==> *final(v) == *old(s) && final(s).view != old(s).view && final(t).view != old(
            s,
        ).view && a is Nothing,
        key is Q ==> final(u).level == old(s).level && final(s).level == (if old(s).level == 2 {
            0int
        } else {
            old(s).level + 1
        }) && final(s).quality == budget(final(s).level + 1) && a is Recapture,
        key is C ==> *final(s) == *old(s) && a is Clear,
        key is R ==> *final(s) == *old(s) && a is Reset,
        key is P ==> *final(s) == *old(s) && a == Action::Shot(old(s).frame),
        key is E || key is W || key is Other ==> *final(s) == *old(s) && a is Nothing,
{
}

/// A digit picks the color with that number, and the left button then paints light of that
/// color. The right button paints walls, whatever the left one does.
pub proof fn law_brush_paints_what_was_picked(
    s: &mut Session,
    n: u32,
    a: Action,
    down: Buttons,
    erase: bool,
    value: Option<i32>,
)
    requires
        old(s).wf(),
        call_ensures(Session::press, (s, Key::Digit(n)), a),
        call_ensures(Session::brush, (final(s), down, erase), value),
    ensures
        1 <= n <= 6 ==> final(s).color == n - 1,
        n == 0 || n > 6 ==> *final(s) == *old(s),
        a is Nothing,
        down.right ==> value == Some(packed(1, 70, 70, 80)),
        !down.right && down.left && erase ==> value == Some(0i32),
        !down.right && down.left && !erase && 1 <= n <= 6 ==> value == Some(
            packed(2, color_of(n - 1).0, color_of(n - 1).1, color_of(n - 1).2),
        ),
        !down.right && !down.left ==> value is None,
{
}

/// Frames are counted one by one, and take turns with the two light buffers.
pub proof fn law_frames_take_turns(s: &mut Session, t: &mut Session, p: usize, q: usize)
    requires
        call_ensures(Session::advance, (s,), p),
        call_ensures(Session::advance, (t,), q),
        *final(s) == *old(t),
        old(s).frame < u32::MAX - 1,
    ensures
        p + q == 1,
        p == 0 <==> old(s).frame % 2 == 0,
        final(s).frame == old(s).frame + 1,
        *final(s) == (Session { frame: final(s).frame, ..*old(s) }),
{
}

} // verus!
