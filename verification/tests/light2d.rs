use tileworld::brush::Stamp;
use tileworld::input::{Buttons, Key};
use tileworld::light2d::check::misses;
use tileworld::light2d::cpu::{
    decode, dist2, distance2, encode, jfa_step, jump_flood, nearest, plain_flood, seed_init,
};
use tileworld::light2d::exact::exact_dist2;
use tileworld::light2d::gpu::{
    final_seeds, flood, frame_pixels, jfa_step_tiled, light_buffers, split, Launch,
};
use tileworld::light2d::layout::{Layout, TILE};
use tileworld::light2d::ray::{cast, radiance, read_index, sight, Sight};
use tileworld::light2d::scene::{pack, Canvas, LIGHT, WALL};
use tileworld::light2d::session::{palette, Action, Session};
use tileworld::light2d::view::{frame_slot, quality, Quality, View};

fn fnv(cells: &[i32]) -> u64 {
    let mut h: u64 = 0xcbf2_9ce4_8422_2325;
    for v in cells {
        for b in v.to_le_bytes() {
            h = (h ^ b as u64).wrapping_mul(0x100_0000_01b3);
        }
    }
    h
}

fn stamp(cx: f32, cy: f32, radius: f32) -> Stamp {
    let r = radius.ceil() as i32;
    let (x0, y0) = (cx.round() as i32, cy.round() as i32);
    let mut marks = Vec::new();
    for y in y0 - r..=y0 + r {
        for x in x0 - r..=x0 + r {
            let (dx, dy) = (x as f32 - cx, y as f32 - cy);
            marks.push(dx * dx + dy * dy <= radius * radius);
        }
    }
    Stamp { x0, y0, r, marks }
}

/// A few dots, far enough apart that jumps can miss the nearest one.
fn dots(lay: Layout) -> Vec<i32> {
    let mut c = Canvas::new(lay);
    let mut x: u64 = 3;
    let mut next = || {
        x ^= x >> 12;
        x ^= x << 25;
        x ^= x >> 27;
        (x.wrapping_mul(0x2545_F491_4F6C_DD1D) >> 33) as u32
    };
    for _ in 0..60 {
        let (px, py) = ((next() % 96) as i32, (next() % 64) as i32);
        c.rect(px, py, px + 1, py + 1, pack(WALL, [1, 2, 3]));
    }
    c.cells
}

#[test]
fn jumps_halve_down_to_one_and_one_more() {
    let lay = Layout::new(352, 640);
    assert_eq!((lay.rows, lay.cols), (352, 640));
    assert_eq!(lay.jfa_offsets(), vec![512, 256, 128, 64, 32, 16, 8, 4, 2, 1, 1]);
    assert_eq!(Layout::new(1, 33).cols, 64);
    assert_eq!(Layout::new(0, 0).rows, 32);
}

#[test]
fn seeds_pack_positions() {
    assert_eq!(encode(0, 0), 8192 * 32768 + 8192);
    assert_eq!(decode(encode(40, 671)), (40, 671));
    assert_eq!(decode(0), (-8192, -8192));
    assert_eq!(dist2(encode(3, 4), 0, 0), 25);
    assert_eq!(dist2(0, 0, 0), 2 * 8192 * 8192);
}

#[test]
fn scenes_are_painted_like_this() {
    let lay = Layout::new(352, 640);
    let amber = stamp(640.0 * 0.1, 352.0 * 0.12, 9.0);
    let blue = stamp(640.0 * 0.9, 352.0 * 0.9, 7.0);
    assert_eq!(fnv(&Canvas::demo(lay, &amber, &blue).cells), 13588778827709162641);
    let lay = Layout::new(64, 96);
    assert_eq!(fnv(&Canvas::random(lay, 7).cells), 16825210252189310687);
}

#[test]
fn brushes_paint_and_erase() {
    let lay = Layout::new(32, 32);
    let mut c = Canvas::new(lay);
    let red = pack(LIGHT, [255, 0, 0]);
    c.stroke(&vec![Stamp::round(3, 3, 1), Stamp::round(5, 3, 1)], red);
    assert_eq!(c.cells.iter().filter(|&&v| v == red).count(), 9);
    c.disc(&Stamp::round(4, 3, 0), 0);
    assert_eq!(c.cells.iter().filter(|&&v| v == red).count(), 8);
    // The ghost ring is not paintable.
    c.disc(&Stamp::round(-2, 3, 1), red);
    assert_eq!(c.cells.iter().filter(|&&v| v == red).count(), 8);
    c.clear();
    assert!(c.cells.iter().all(|&v| v == 0));
}

#[test]
fn the_flood_is_this() {
    let lay = Layout::new(64, 96);
    let scene = Canvas::random(lay, 7).cells;
    let seeds = jump_flood(&lay, &scene);
    assert_eq!(fnv(&seeds), 13029461777125203716);
    assert_eq!(fnv(&distance2(&lay, &seeds)), 12421530266873823470);
    // A painted pixel is its own seed, and shows its own color.
    let near = nearest(&seeds, &scene, lay.buf_cols());
    for (i, &v) in scene.iter().enumerate() {
        if v != 0 {
            assert_eq!(decode(seeds[i]), ((i / 128) as i32, (i % 128) as i32));
            assert_eq!(near[i], v);
        }
    }
}

#[test]
fn an_empty_scene_has_no_seeds() {
    let lay = Layout::new(32, 32);
    let scene = Canvas::new(lay).cells;
    let seeds = jump_flood(&lay, &scene);
    assert!(seeds.iter().all(|&s| s == 0));
    assert!(nearest(&seeds, &scene, lay.buf_cols()).iter().all(|&v| v == 0));
    assert!(exact_dist2(&lay, &scene).iter().all(|d| d.is_none()));
}

#[test]
fn one_dot_reaches_every_pixel() {
    let lay = Layout::new(64, 32);
    let mut c = Canvas::new(lay);
    c.rect(31, 0, 32, 1, pack(WALL, [9, 9, 9]));
    let seeds = jump_flood(&lay, &c.cells);
    let exact = exact_dist2(&lay, &c.cells);
    for r in TILE..lay.buf_rows() {
        for k in TILE..lay.buf_cols() {
            let i = r * lay.buf_cols() + k;
            assert_eq!(decode(seeds[i]), (32, 63));
            assert_eq!(exact[i], Some(dist2(seeds[i], r as i32, k as i32) as u64));
        }
    }
    // The ghost ring stays empty.
    assert_eq!(seeds[5], 0);
}

#[test]
fn one_more_pass_mends_the_flood() {
    let lay = Layout::new(64, 96);
    let scene = dots(lay);
    let exact = exact_dist2(&lay, &scene);
    assert_eq!(exact.iter().map(|d| d.unwrap()).sum::<u64>(), 4260807);
    let offsets = lay.jfa_offsets();
    let mut plain = seed_init(&lay, &scene);
    for &k in &offsets[..offsets.len() - 1] {
        plain = jfa_step(&lay, &plain, k);
    }
    assert_eq!(misses(&lay, &plain, &exact), vec![(289, Some(281))]);
    assert_eq!(misses(&lay, &jump_flood(&lay, &scene), &exact), vec![]);
}

#[test]
fn tiles_jump_as_the_plain_pass_does() {
    let lay = Layout::new(64, 96);
    let mut seeds = seed_init(&lay, &Canvas::random(lay, 11).cells);
    for k in lay.jfa_offsets() {
        let next = jfa_step(&lay, &seeds, k);
        assert!(jfa_step_tiled(&lay, &seeds, k) == next);
        seeds = next;
    }
}

#[test]
fn long_jumps_go_by_blocks() {
    let j = split(64);
    assert_eq!((j.behind, j.back, j.front, j.ahead), (0, -2, 0, 2));
    let j = split(4);
    assert_eq!((j.behind, j.back, j.front, j.ahead), (28, -1, 4, 0));
}

#[test]
fn a_flood_is_launched_like_this() {
    let lay = Layout::new(32, 32);
    let plan = flood(&lay);
    assert_eq!(plan.len(), 10);
    assert!(matches!(plan[0], Launch::SeedInit));
    assert!(matches!(plan[1], Launch::Step { from: 0, k: 32 }));
    assert!(matches!(plan[2], Launch::Step { from: 1, k: 16 }));
    assert!(matches!(plan[7], Launch::Step { from: 0, k: 1 }));
    assert_eq!(final_seeds(&lay), 1);
    assert!(matches!(plan[8], Launch::Distance { from: 1 }));
    assert!(matches!(plan[9], Launch::Nearest { from: 1 }));
    assert_eq!(light_buffers(0), (0, 1));
    assert_eq!(light_buffers(1), (1, 0));
}

#[test]
fn rays_read_inside_the_buffer() {
    let lay = Layout::new(32, 32);
    assert_eq!(read_index(&lay, 3, 5), 3 * 64 + 5);
    assert_eq!(read_index(&lay, -1, 200), 63);
    assert_eq!(read_index(&lay, i32::MAX, i32::MIN), 63 * 64);
}

#[test]
fn a_ray_lands_on_the_first_surface() {
    let lay = Layout::new(32, 32);
    let mut c = Canvas::new(lay);
    c.rect(20, 8, 21, 24, pack(LIGHT, [10, 20, 30]));
    c.rect(24, 8, 25, 24, pack(WALL, [1, 1, 1]));
    let d2 = distance2(&lay, &jump_flood(&lay, &c.cells));
    let go = |start: (f32, f32), way: (f32, f32), steps: u32| {
        cast(
            &lay,
            &d2,
            start,
            steps,
            &|p: (f32, f32)| {
                let inside = p.0 >= 0.0 && p.0 < 64.0 && p.1 >= 0.0 && p.1 < 64.0;
                (inside, p.1.floor() as i32, p.0.floor() as i32)
            },
            &|p: (f32, f32), d: i32| {
                let t = ((d as f32).sqrt() - 1.0).max(1.0);
                (p.0 + way.0 * t, p.1 + way.1 * t)
            },
        )
    };
    let hit = go((40.5, 48.5), (1.0, 0.0), 64);
    assert_eq!(hit, Some(48 * 64 + 52));
    assert_eq!(sight(&c.cells, hit), Sight::Light(10, 20, 30));
    // From the other side it lands on the wall, and away from both nowhere.
    let hit = go((60.5, 48.5), (-1.0, 0.0), 64);
    assert_eq!(hit, Some(48 * 64 + 56));
    assert_eq!(sight(&c.cells, hit), Sight::Dark);
    assert_eq!(go((40.5, 48.5), (-1.0, 0.0), 64), None);
    assert_eq!(sight(&c.cells, None), Sight::Sky);
    // With too few steps it does not get there.
    assert_eq!(go((40.5, 48.5), (1.0, 0.0), 1), None);
}

#[test]
fn a_pixel_gathers_what_its_rays_see() {
    let lay = Layout::new(32, 32);
    let mut c = Canvas::new(lay);
    c.rect(0, 0, 32, 32, pack(LIGHT, [1, 2, 3]));
    let d2 = distance2(&lay, &jump_flood(&lay, &c.cells));
    let lit = radiance(
        &lay,
        &d2,
        &c.cells,
        4,
        8,
        |i: usize, ray: i32| ((i % 64) as i32, (i / 64) as i32, ray),
        |p: (i32, i32, i32)| (p.0 >= 0, p.1, p.0),
        |p: (i32, i32, i32), _| (p.0 - 1, p.1, p.2),
        |seen: Vec<Sight>| {
            let lights = seen.iter().filter(|s| matches!(s, Sight::Light(1, 2, 3))).count();
            (seen.len(), lights)
        },
    );
    assert_eq!(lit.len(), 64 * 64);
    assert_eq!(lit[40 * 64 + 40], (4, 4));
    assert_eq!(lit[0], (4, 0));
}

#[test]
fn a_frame_is_cut_out_of_its_buffer() {
    let lay = Layout::new(32, 32);
    let buf: Vec<u32> = (0..64 * 64).collect();
    let inner = frame_pixels(&lay, &buf);
    assert_eq!(inner.len(), 32 * 32);
    assert_eq!(inner[0], 32 * 64 + 32);
    assert_eq!(inner[33], 33 * 64 + 33);
}

#[test]
fn levels_and_views() {
    assert_eq!(quality(0), Quality { rays: 8, steps: 32, check_every: 8 });
    assert_eq!(quality(2), Quality { rays: 16, steps: 48, check_every: 8 });
    assert_eq!(quality(9), Quality { rays: 32, steps: 64, check_every: 16 });
    assert_eq!(quality(2).without_exit().check_every, 48);
    let mut v = View::Lit;
    for n in [1, 2, 3, 0] {
        v = v.next();
        assert_eq!(v.code(), n);
    }
    assert_eq!(frame_slot(4095), 4095);
    assert_eq!(frame_slot(4097), 1);
}

#[test]
fn keys_and_buttons() {
    let mut s = Session::new(quality(3));
    assert_eq!((s.level, s.frame), (2, 0));
    assert_eq!(Session::new(Quality { rays: 5, steps: 1, check_every: 1 }).level, 1);
    let left = Buttons { left: true, right: false };
    let right = Buttons { left: false, right: true };
    assert_eq!(s.brush(left, false), Some(pack(LIGHT, [255, 190, 110])));
    assert_eq!(s.press(Key::Digit(6)), Action::Nothing);
    assert_eq!(s.press(Key::Digit(7)), Action::Nothing);
    assert_eq!(palette(5), [140, 110, 255]);
    assert_eq!(s.brush(left, false), Some(pack(LIGHT, [140, 110, 255])));
    assert_eq!(s.brush(left, true), Some(0));
    assert_eq!(s.brush(right, true), Some(pack(WALL, [70, 70, 80])));
    assert_eq!(s.brush(Buttons { left: false, right: false }, true), None);
    assert_eq!(s.press(Key::Q), Action::Recapture);
    assert_eq!((s.level, s.quality), (0, quality(1)));
    assert_eq!(s.press(Key::V), Action::Nothing);
    assert_eq!(s.view, View::Radiance);
    s.press(Key::O);
    s.press(Key::Space);
    assert!(!s.orbit && s.paused);
    assert_eq!(s.press(Key::C), Action::Clear);
    assert_eq!(s.press(Key::R), Action::Reset);
    assert_eq!(s.advance(), 0);
    assert_eq!(s.advance(), 1);
    assert_eq!(s.press(Key::P), Action::Shot(2));
}

#[test]
fn packed_pixels() {
    assert_eq!(pack(LIGHT, [255, 190, 110]), 0x02ff_be6e);
    assert_eq!(pack(WALL, [70, 70, 80]), 0x0146_4650);
}

#[test]
fn the_extra_pass_is_one_more_at_one() {
    let lay = Layout::new(96, 128);
    let scene = Canvas::random(lay, 5).cells;
    let plain = plain_flood(&lay, &scene);
    let mut seeds = seed_init(&lay, &scene);
    let jumps = lay.jfa_offsets();
    for &k in &jumps[..jumps.len() - 1] {
        seeds = jfa_step(&lay, &seeds, k);
    }
    assert_eq!(plain, seeds);
    let extra = jump_flood(&lay, &scene);
    assert_eq!(extra, jfa_step(&lay, &plain, 1));
    let (a, b) = (distance2(&lay, &extra), distance2(&lay, &plain));
    assert!(a.iter().zip(&b).all(|(a, b)| a <= b));
}
