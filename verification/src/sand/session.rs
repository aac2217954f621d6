//! What the window does with what the user does, frame by frame.
use crate::input::{Buttons, Key};
use crate::sand::world::{EMPTY, SAND};
use vstd::prelude::*;

verus! {

/// What the choices of the user add up to.
#[derive(Clone, Copy, Debug, PartialEq, Eq, Structural)]
pub struct Session {
    /// The element that is painted.
    pub element: i32,
    pub paused: bool,
    /// Sand and water pour in.
    pub taps: bool,
    /// The uploaded paint layer may hold something.
    pub paint_dirty: bool,
    /// Number of the next frame.
    pub frame: u32,
}

/// What is left to do for a key.
#[derive(Clone, Copy, Debug, PartialEq, Eq, Structural)]
pub enum Action {
    Nothing,
    /// Empty the world in this buffer.
    Clear(usize),
    /// Put the demo scene into this buffer.
    Reset(usize),
    /// Save the picture of this frame.
    Shot(u32),
}

impl Session {
    /// The element that is painted is one that can be.
    pub open spec fn wf(self) -> bool {
        SAND <= self.element <= 8
    }

    /// A session whose world has had one frame already, and so is in the
    /// second buffer.
    pub fn new() -> (s: Session)
        ensures
            s.wf(),
            s == (Session { element: SAND, paused: false, taps: true, paint_dirty: true, frame: 1 }),
    {
        Session { element: SAND, paused: false, taps: true, paint_dirty: true, frame: 1 }
    }

    /// A key was pressed. The digits pick sand, water, oil, wood, wall, fire,
    /// smoke and ember.
    pub fn press(&mut self, key: Key) -> (a: Action)
        requires
            old(self).wf(),
        ensures
            final(self).wf(),
            final(self).element == match key {
                Key::Digit(n) => if 1 <= n <= 8 {
                    n as int
                } else {
                    old(self).element as int
                },
                _ => old(self).element as int,
            },
            final(self).paused == (old(self).paused != (key == Key::Space)),
            final(self).taps == (old(self).taps != (key == Key::E)),
            final(self).paint_dirty == old(self).paint_dirty,
            final(self).frame == old(self).frame,
            a == match key {
                Key::C => Action::Clear((old(self).frame as int % 2) as usize),
                Key::R => Action::Reset((old(self).frame as int % 2) as usize),
                Key::P => Action::Shot(old(self).frame),
                _ => Action::Nothing,
            },
    {
        match key {
            Key::Digit(n) => {
                if 1 <= n && n <= 8 {
                    self.element = n as i32;
                }
                Action::Nothing
            },
            Key::Space => {
                self.paused = !self.paused;
                Action::Nothing
            },
            Key::E => {
                self.taps = !self.taps;
                Action::Nothing
            },
            Key::C => Action::Clear((self.frame % 2) as usize),
            Key::R => Action::Reset((self.frame % 2) as usize),
            Key::P => Action::Shot(self.frame),
            _ => Action::Nothing,
        }
    }

    /// What the mouse paints: the left button the chosen element, the right one
    /// erases.
    pub fn brush(&self, down: Buttons) -> (kind: Option<i32>)
        ensures
            kind == if down.right {
                Some(EMPTY)
            } else if down.left {
                Some(self.element)
            } else {
                None
            },
    {
        if down.right {
            Some(EMPTY)
        } else if down.left {
            Some(self.element)
        } else {
            None
        }
    }

    /// Whether the taps pour in this frame.
    pub fn pours(&self) -> (b: bool)
        ensures
            b == (self.taps && !self.paused),
    {
        self.taps && !self.paused
    }

    /// Whether the paint layer has to be uploaded: whenever it has something in
    /// it, and once more after it was emptied, so that the uploaded copy is
    /// emptied too.
    pub fn uploads(&mut self, dirty: bool) -> (b: bool)
        ensures
            b == (dirty || old(self).paint_dirty),
            *final(self) == (Session { paint_dirty: dirty, ..*old(self) }),
    {
        let b: bool = dirty || self.paint_dirty;
        self.paint_dirty = dirty;
        b
    }

    /// Whether the world moves this frame, and if so from which buffer. While
    /// paused it moves only to take up paint.
    pub fn launches(&mut self, dirty: bool) -> (parity: Option<usize>)
        requires
            old(self).frame < u32::MAX,
        ensures
            parity == if !old(self).paused || dirty {
                Some((old(self).frame as int % 2) as usize)
            } else {
                None
            },
            *final(self) == (Session {
                frame: if parity is Some {
                    (old(self).frame + 1) as u32
                } else {
                    old(self).frame
                },
                ..*old(self)
            }),
    {
        if !self.paused || dirty {
            let parity: usize = (self.frame % 2) as usize;
            self.frame = self.frame + 1;
            Some(parity)
        } else {
            None
        }
    }
}

/// Nothing is painted on this layer.
pub open spec fn is_blank(layer: Seq<i32>) -> bool {
    forall|i: int| 0 <= i < layer.len() ==> #[trigger] layer[i] == 0
}

/// The uploaded copy of the paint layer is as the session believes: blank unless
/// it may hold something.
pub open spec fn is_copy_known(paint_dirty: bool, copy: Seq<i32>) -> bool {
    !paint_dirty ==> is_blank(copy)
}

/// The layer that the next frame reads is always the one that was painted,
/// though blank layers are not uploaded again and again: `copy` is the uploaded
/// layer before the frame, `uploaded` the one after it, and `dirty` whether
/// `layer` holds anything.
pub proof fn law_layer_up_to_date(
    paint_dirty: bool,
    dirty: bool,
    copy: Seq<i32>,
    layer: Seq<i32>,
    uploaded: Seq<i32>,
)
    requires
        is_copy_known(paint_dirty, copy),
        copy.len() == layer.len(),
        dirty <==> !is_blank(layer),
        uploaded == if dirty || paint_dirty {
            layer
        } else {
            copy
        },
    ensures
        uploaded == layer,
        is_copy_known(dirty, uploaded),
{
    if !dirty && !paint_dirty {
        assert(copy =~= layer);
    }
}

/// Buffers alternate: a frame leaves the world where the next one takes it from.
pub proof fn law_world_passed_on(frame: int)
    ensures
        1 - frame % 2 == (frame + 1) % 2,
{
}

/// The frame at which a rendered demo is lit, late enough that it still burns
/// at the end.
pub fn ignition(frames: u32) -> (frame: u32)
    ensures
        frame == frames - frames / 6,
        frame <= frames,
{
    frames - frames / 6
}

/// What is painted in the middle of a world that is checked: every tenth frame
/// one of the elements, in turn.
pub fn check_stroke(frame: u32) -> (kind: Option<i32>)
    ensures
        kind == if frame as int % 10 == 5 {
            Some((1 + frame as int / 10 % 8) as i32)
        } else {
            None
        },
        kind is Some ==> SAND <= kind->0 <= 8,
{
    if frame % 10 == 5 {
        Some(1 + (frame / 10 % 8) as i32)
    } else {
        None
    }
}

/// Pressing a key that turns something on or off twice changes nothing in the end. What
/// clears, resets or saves the world works on the buffer that the next frame reads.
pub proof fn law_keys_undo(s: &mut Session, t: &mut Session, key: Key, a: Action, b: Action)
    requires
        old(s).wf(),
        call_ensures(Session::press, (s, key), a),
        call_ensures(Session::press, (t, key), b),
        *final(s) == *old(t),
    ensures
        key is Space ==> *final(s) == (Session { paused: !old(s).paused, ..*old(s) }),
        key is E ==> *final(s) == (Session { taps: !old(s).taps, ..*old(s) }),
        key is Space || key is E ==> *final(t) == *old(s) && a is Nothing,
        key is C ==> *final(s) == *old(s) && a == Action::Clear((old(s).frame % 2) as usize),
        key is R ==> *final(s) == *old(s) && a == Action::Reset((old(s).frame % 2) as usize),
        key is P ==> *final(s) == *old(s) && a == Action::Shot(old(s).frame),
        key is O || key is Q || key is V || key is W || key is Other ==> *final(s) == *old(s) && a is Nothing,
{
}

/// A digit from 1 to 8 picks the element with that number, and the left button then paints
/// it. The right button erases, whatever the left one does.
pub proof fn law_brush_paints_what_was_picked(
    s: &mut Session,
    n: u32,
    a: Action,
    down: Buttons,
    kind: Option<i32>,
)
    requires
        old(s).wf(),
        call_ensures(Session::press, (s, Key::Digit(n)), a),
        call_ensures(Session::brush, (final(s), down), kind),
    ensures
        a is Nothing,
        n == 0 || n > 8 ==> *final(s) == *old(s),
        down.right ==> kind == Some(0i32),
        !down.right && down.left && 1 <= n <= 8 ==> kind == Some(n as i32),
        !down.right && !down.left ==> kind is None,
        *final(s) == (Session { element: final(s).element, ..*old(s) }),
{
}

/// Frames take turns with the two buffers. A paused world stands still, unless there is
/// paint to take up, and nothing pours into it.
pub proof fn law_frames_take_turns(
    s: &mut Session,
    t: &mut Session,
    dirty: bool,
    p: Option<usize>,
    q: Option<usize>,
    pours: bool,
)
    requires
        call_ensures(Session::pours, (old(s),), pours),
        call_ensures(Session::launches, (s, dirty), p),
        call_ensures(Session::launches, (t, dirty), q),
        *final(s) == *old(t),
        old(s).frame < u32::MAX - 1,
    ensures
        old(s).paused && !dirty ==> p is None && *final(s) == *old(s),
        !old(s).paused || dirty ==> p is Some && q is Some && p->0 + q->0 == 1 && p->0 == old(
            s,
        ).frame % 2,
        !old(s).paused || dirty ==> *final(s) == (Session {
            frame: (old(s).frame + 1) as u32,
            ..*old(s)
        }),
        pours <==> old(s).taps && !old(s).paused,
{
}

/// Paint is uploaded in every frame that has any and in the first one after that, and not
/// again until there is more.
pub proof fn law_blank_paint_is_uploaded_once(
    s: &mut Session,
    t: &mut Session,
    u: &mut Session,
    dirty: bool,
    a: bool,
    b: bool,
    c: bool,
)
    requires
        call_ensures(Session::uploads, (s, dirty), a),
        call_ensures(Session::uploads, (t, false), b),
        call_ensures(Session::uploads, (u, false), c),
        *final(s) == *old(t),
        *final(t) == *old(u),
    ensures
        dirty ==> a,
        b == dirty,
        !c,
{
}

/// A world that is checked gets a stroke in the middle of every ten frames, of the element
/// after that of the last stroke, from sand to embers and round again.
pub proof fn law_strokes_in_turn(frame: u32, now: Option<i32>, later: Option<i32>)
    requires
        frame <= u32::MAX - 10,
        call_ensures(check_stroke, (frame,), now),
        call_ensures(check_stroke, ((frame + 10) as u32,), later),
    ensures
        now is Some <==> frame % 10 == 5,
        now is Some <==> later is Some,
        now is Some ==> later->0 == (if now->0 == 8 {
            1int
        } else {
            now->0 + 1
        }),
        frame == 5 ==> now == Some(1i32),
{
}

} // verus!
