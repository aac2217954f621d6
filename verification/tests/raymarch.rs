use tileworld::input::Key;
use tileworld::raymarch::diff::Diff;
use tileworld::raymarch::scene::{preset, Quality, View, MAX_STEPS, PARAMS, SUN};
use tileworld::raymarch::session::{Action, Session};

#[test]
fn presets_are_clamped() {
    let low = Quality { max_steps: 64, check_every: 16, shadow_steps: 16 };
    let high = Quality { max_steps: 256, check_every: 16, shadow_steps: 64 };
    assert_eq!(preset(0), low);
    assert_eq!(preset(1), low);
    assert_eq!(preset(2), Quality { max_steps: 128, check_every: 16, shadow_steps: 32 });
    assert_eq!(preset(3), high);
    assert_eq!(preset(usize::MAX), high);
    assert_eq!(preset(3).without_exit(), Quality { check_every: 256, ..high });
}

#[test]
fn views_come_round() {
    let mut v = View::Shaded;
    for n in [1, 2, 0] {
        v = v.next();
        assert_eq!(v.code(), n);
    }
    assert_eq!((SUN, MAX_STEPS, PARAMS), (16, 23, 32));
}

#[test]
fn pictures_are_compared_channel_by_channel() {
    let a = [0x102030, 0x000000, 0xffffff];
    let b = [0x102030, 0x000900, 0xfffffe];
    let d = Diff::new(&a, &b);
    assert_eq!(d, Diff { max: 9, sum: 10, over_8: 1, pixels: 3 });
    assert_eq!(Diff::new(&a, &a), Diff { max: 0, sum: 0, over_8: 0, pixels: 3 });
    assert_eq!(Diff::new(&a, &[]), Diff { max: 0, sum: 0, over_8: 0, pixels: 3 });
    // What lies above the three channels does not count.
    assert_eq!(Diff::new(&[0xff00_0000], &[0]).sum, 0);
    assert_eq!(Diff::new(&[0x00ff_0000], &[0]).max, 255);
}

#[test]
fn keys_and_drags() {
    let mut s = Session::new(preset(2));
    assert_eq!(s.press(Key::Space), Action::Nothing);
    assert_eq!(s.press(Key::V), Action::Nothing);
    assert_eq!((s.paused, s.view), (true, View::Steps));
    assert_eq!(s.press(Key::Digit(1)), Action::Recapture);
    assert_eq!(s.quality, preset(1));
    assert_eq!(s.press(Key::Digit(4)), Action::Nothing);
    assert_eq!(s.press(Key::P), Action::Shot);
    assert!(!s.drag(true, false, true));
    assert!(s.auto_orbit);
    assert!(s.drag(true, true, true));
    assert!(!s.auto_orbit);
    assert_eq!(s.press(Key::O), Action::Nothing);
    assert!(s.auto_orbit);
    assert!(!s.drag(false, true, true));
    assert!(s.auto_orbit);
}
