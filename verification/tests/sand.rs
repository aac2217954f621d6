use tileworld::brush::Stamp;
use tileworld::input::{Buttons, Key};
use tileworld::sand::canvas::{Canvas, Rng};
use tileworld::sand::check::{differing, tally};
use tileworld::sand::cpu::{block_random, density, hash, paint, react, step, update, world};
use tileworld::sand::gpu::{
    frame_pixels, hash_grid, paint_cell, pass_table, passes_ok, render, run, run_frame, step_tiled, Launch,
};
use tileworld::sand::session::{check_stroke, ignition, Action, Session};
use tileworld::sand::world::{
    cell, kind, name, Layout, DIR, EMBER, EMPTY, FIRE, OIL, PAINT, SAND, SMOKE, TILE, WALL, WATER,
    WOOD,
};

fn fnv(cells: &[i32]) -> u64 {
    let mut h: u64 = 0xcbf2_9ce4_8422_2325;
    for v in cells {
        for b in v.to_le_bytes() {
            h = (h ^ b as u64).wrapping_mul(0x100_0000_01b3);
        }
    }
    h
}

/// The cells that a brush between cells covers.
fn stamp(cx: f32, cy: f32, radius: f32) -> Stamp {
    let r = radius.ceil() as i32;
    let (x0, y0) = (cx.round() as i32, cy.round() as i32);
    let mut marks = Vec::new();
    for y in y0 - r..=y0 + r {
        for x in x0 - r..=x0 + r {
            let (dx, dy) = (x as f32 - cx, y as f32 - cy);
            marks.push(dx * dx + dy * dy <= radius * radius);
        }
    }
    Stamp { x0, y0, r, marks }
}

fn count(cells: &[i32], k: i32) -> usize {
    cells.iter().filter(|&&c| kind(c) == k).count()
}

fn show(lay: &Layout, buf: &[i32]) {
    let bc = lay.buf_cols();
    for r in TILE..TILE + lay.rows {
        let line: String = (TILE..TILE + lay.cols)
            .map(|c| match kind(buf[r * bc + c]) {
                EMPTY => '.',
                SAND => 's',
                WATER => 'w',
                WALL => '#',
                _ => '?',
            })
            .collect();
        println!("{line}");
    }
}

#[test]
fn water_levels() {
    let lay = Layout::new(32, 64);
    let mut c = Canvas::blank(lay);
    c.disc(&stamp(32.0, 26.0, 10.0), SAND);
    c.disc(&stamp(32.0, 8.0, 7.0), WATER);
    let mut buf = c.into_world();
    assert_eq!(fnv(&buf), 7203508842293134253);
    for pass in 0..200 {
        buf = step(&lay, &buf, pass, pass);
        if pass % 50 == 49 {
            println!("--- after {} passes", pass + 1);
            show(&lay, &buf);
        }
    }
    // Nothing was lost, and all the water has run down to the floor.
    assert_eq!(count(&buf, SAND), 262);
    assert_eq!(count(&buf, WATER), 149);
    let low = &buf[(TILE + 24) * lay.buf_cols()..];
    assert_eq!(count(low, WATER), 149);
    assert_eq!(fnv(&buf), 1619985392558471801);
}

#[test]
fn cells_are_packed() {
    assert_eq!(cell(SAND, 3), 0x301);
    assert_eq!(cell(WATER, 0x1f), 0xf02);
    assert_eq!(kind(0x301 | DIR), SAND);
    assert_eq!(name(EMPTY), "empty");
    assert_eq!(name(EMBER), "ember");
}

#[test]
fn the_generator_gives_these_cells() {
    let mut rng = Rng(0x9E37_79B9_7F4A_7C15);
    assert_eq!(rng.cell(SAND), 4353);
    assert_eq!(rng.cell(SAND), 3073);
    assert_eq!(rng.cell(SAND), 4353);
    assert_eq!(Rng(1).next(), 603088677);
}

#[test]
fn hashes_are_these() {
    assert_eq!(hash(0), 0);
    assert_eq!(hash(1), 1753845952);
    assert_eq!(hash(12345), 1867251053);
    assert_eq!(block_random(3, 7, 64), 1847353437);
}

#[test]
fn the_grid_of_hashes_counts_rows_by_4096() {
    let lay = Layout::new(32, 32);
    let grid = hash_grid(&lay);
    assert_eq!(grid.len(), 96 * 96);
    assert_eq!(grid[33 * 96 + 40], hash(33 * 4096 + 40));
    assert_eq!(grid[33 * 96 + 40], 1619458513);
}

#[test]
fn solids_are_heaviest_and_smoke_is_lightest() {
    let order = [SMOKE, FIRE, EMPTY, OIL, WATER, SAND, WALL];
    let d: Vec<i32> = order.iter().map(|&k| density(k)).collect();
    assert_eq!(d, vec![0, 1, 2, 3, 4, 5, 9]);
    assert_eq!(density(WOOD), 9);
    assert_eq!(density(EMBER), 9);
}

#[test]
fn elements_react() {
    let (fire, water, oil, wood, ember) = (
        cell(FIRE, 1),
        cell(WATER, 2),
        cell(OIL, 3),
        cell(WOOD, 4),
        cell(EMBER, 5),
    );
    // Fire next to water is smoke; on its own it burns on.
    assert_eq!(react(fire, water, 0, 0, 200), cell(SMOKE, 12));
    assert_eq!(react(fire, 0, 0, 0, 200), fire);
    assert_eq!(react(fire, 0, 0, 0, 15), cell(SMOKE, 0));
    assert_eq!(react(fire, 0, 0, 0, 19), EMPTY);
    // Oil and wood catch fire, with luck.
    assert_eq!(react(oil, fire, 0, 0, 127), cell(FIRE, 7));
    assert_eq!(react(oil, fire, 0, 0, 128), oil);
    assert_eq!(react(wood, ember, 0, 0, 39), cell(EMBER, 2));
    assert_eq!(react(wood, ember, 0, 0, 40), wood);
    // Embers are put out by water, or burn out.
    assert_eq!(react(ember, water, 0, 0, 255), cell(WOOD, 15));
    assert_eq!(react(ember, 0, 0, 0, 5), cell(SMOKE, 0));
    assert_eq!(react(ember, 0, 0, 0, 6), ember);
    // Flames come off embers into empty space; smoke thins out.
    assert_eq!(react(EMPTY, ember, 0, 0, 47), cell(FIRE, 2));
    assert_eq!(react(EMPTY, ember, 0, 0, 48), EMPTY);
    assert_eq!(react(cell(SMOKE, 9), 0, 0, 0, 3), EMPTY);
}

#[test]
fn blocks_update() {
    assert_eq!(update(cell(SAND, 3), 0, 0, 0, 0x12345678), [0, 0, 769, 0]);
    let flowing = cell(WATER, 1) | DIR;
    assert_eq!(
        update(flowing, 0, cell(WALL, 0), cell(WALL, 0), 0x7f7f7f7f),
        [0, 4354, 5, 5]
    );
    assert_eq!(
        update(cell(FIRE, 1), cell(WATER, 2), cell(OIL, 3), cell(WOOD, 4), 0x10101010),
        [263, 771, 514, 1028]
    );
}

#[test]
fn scenes_are_these() {
    let lay = Layout::new(352, 640);
    let demo = Canvas::demo(lay);
    assert_eq!(fnv(&demo.cells), 3244755430615911977);
    assert_eq!(fnv(&demo.into_world()), 11227064253907918473);
    let lay = Layout::new(64, 96);
    assert_eq!(fnv(&Canvas::random(lay, 7).into_world()), 9789384301925004199);
}

#[test]
fn a_frame_paints_and_then_steps() {
    let lay = Layout::new(64, 96);
    let world = Canvas::random(lay, 7).into_world();
    let mut layer = Canvas::blank(lay);
    assert!(layer.is_empty());
    layer.disc(&stamp(24.0, 3.0, 0.5), SAND);
    layer.disc(&stamp(72.0, 3.0, 0.5), WATER);
    assert!(!layer.is_empty());
    let next = run_frame(&lay, &world, &layer.cells, 5, 4);
    assert_eq!(fnv(&next), 3147821999380772313);
    layer.clear();
    assert!(layer.is_empty());
}

#[test]
fn tiles_step_as_the_plain_rules_do() {
    let lay = Layout::new(32, 64);
    let mut a = Canvas::random(lay, 3).into_world();
    for pass in 0..6 {
        let b = step(&lay, &a, pass, 100 + pass);
        assert!(step_tiled(&lay, &a, pass, 100 + pass) == b);
        a = b;
    }
}

#[test]
fn a_quiet_world_keeps_its_population() {
    let lay = Layout::new(32, 64);
    let mut c = Canvas::blank(lay);
    c.rect(0, 20, 64, 22, WALL);
    c.rect(10, 4, 20, 10, WATER);
    c.rect(15, 2, 40, 4, OIL);
    c.stroke(&vec![stamp(40.0, 8.0, 3.0), stamp(44.5, 8.0, 3.0)], SAND);
    let mut buf = c.into_world();
    let before: Vec<usize> = (0..9).map(|k| count(&buf, k)).collect();
    for pass in 0..40 {
        buf = step(&lay, &buf, pass, 7 * pass);
    }
    let after: Vec<usize> = (0..9).map(|k| count(&buf, k)).collect();
    assert_eq!(before, after);
    // The wall is where it was, and so are the ghosts around the world.
    for x in 0..64 {
        assert_eq!(kind(buf[lay.index(x, 21)]), WALL);
    }
    assert_eq!(buf[0], WALL);
}

#[test]
fn painting_replaces_and_erases() {
    let src = [cell(SAND, 1), cell(SAND, 2), cell(SAND, 3)];
    let layer = [0, PAINT | cell(WATER, 4), PAINT];
    assert_eq!(paint(&src, &layer), vec![cell(SAND, 1), cell(WATER, 4), EMPTY]);
}

#[test]
fn a_drawn_frame_has_these_colors() {
    let lay = Layout::new(32, 32);
    let mut c = Canvas::blank(lay);
    c.rect(0, 0, 1, 1, SAND);
    let cells = c.into_world();
    let shown = render(&lay, &cells, 9);
    let pixels: Vec<u32> = shown.iter().map(|&p| p as u32).collect();
    let inner = frame_pixels(&lay, &pixels);
    assert_eq!(inner.len(), 32 * 32);
    // Empty space is dark, whatever its shade.
    assert_eq!(inner[5], 0x0e0e14);
    // A grain of sand of shade 1 is tinted by seven steps of five.
    assert_eq!(cells[lay.index(0, 0)], 4353);
    assert_eq!(inner[0], (194 - 35) * 65536 + (168 - 35) * 256 + (98 - 35));
    assert_eq!(world(&lay, &cells)[0], 4353);
}

#[test]
fn a_sand_frame_is_launched_like_this() {
    let plan = run(0, 2);
    assert_eq!(plan.len(), 4);
    assert!(matches!(plan[0], Launch::Paint { from: 0 }));
    assert!(matches!(plan[1], Launch::Step { from: 1, pass: 0 }));
    assert!(matches!(plan[2], Launch::Step { from: 0, pass: 1 }));
    assert!(matches!(plan[3], Launch::Render { from: 1 }));
    assert!(passes_ok(2));
    assert!(!passes_ok(3));
    assert_eq!(pass_table(2).len(), 8);
}

#[test]
fn worlds_are_compared_and_counted() {
    assert_eq!(differing(&[1, 2, 3], &[1, 5, 3]), vec![1]);
    assert_eq!(differing(&[1, 2, 3, 4], &[0, 2]), vec![0]);
    assert_eq!(differing(&[4, 4], &[4, 4]), Vec::<usize>::new());
    let mut counts = vec![10usize; 9];
    tally(&mut counts, &[cell(SAND, 1), cell(SAND, 2), EMPTY, cell(EMBER, 3)]);
    assert_eq!(counts, vec![11, 12, 10, 10, 10, 10, 10, 10, 11]);
}

#[test]
fn keys_choose_what_is_painted() {
    let mut s = Session::new();
    let left = Buttons { left: true, right: false };
    let both = Buttons { left: true, right: true };
    let none = Buttons { left: false, right: false };
    assert_eq!(s.brush(left), Some(SAND));
    assert_eq!(s.press(Key::Digit(6)), Action::Nothing);
    assert_eq!(s.brush(left), Some(FIRE));
    assert_eq!(s.press(Key::Digit(9)), Action::Nothing);
    assert_eq!(s.brush(left), Some(FIRE));
    assert_eq!(s.brush(both), Some(EMPTY));
    assert_eq!(s.brush(none), None);
    assert_eq!(s.press(Key::C), Action::Clear(1));
    assert_eq!(s.press(Key::R), Action::Reset(1));
    assert_eq!(s.press(Key::P), Action::Shot(1));
    assert_eq!(s.press(Key::W), Action::Nothing);
}

#[test]
fn blank_paint_is_uploaded_once() {
    let mut s = Session::new();
    // The first frame clears the layer, later ones leave it alone.
    assert!(s.uploads(false));
    assert!(!s.uploads(false));
    // A stroke goes up, and after it a blank layer once.
    assert!(s.uploads(true));
    assert!(s.uploads(true));
    assert!(s.uploads(false));
    assert!(!s.uploads(false));
}

#[test]
fn a_paused_world_moves_only_for_paint() {
    let mut s = Session::new();
    assert!(s.pours());
    assert_eq!(s.launches(false), Some(1));
    assert_eq!(s.launches(false), Some(0));
    s.press(Key::Space);
    assert!(!s.pours());
    assert_eq!(s.launches(false), None);
    assert_eq!(s.frame, 3);
    assert_eq!(s.launches(true), Some(1));
    assert_eq!(s.frame, 4);
    s.press(Key::Space);
    s.press(Key::E);
    assert!(!s.pours());
}

#[test]
fn scripted_frames() {
    assert_eq!(ignition(240), 200);
    assert_eq!(ignition(5), 5);
    assert_eq!(check_stroke(5), Some(1));
    assert_eq!(check_stroke(15), Some(2));
    assert_eq!(check_stroke(85), Some(1));
    assert_eq!(check_stroke(6), None);
}

#[test]
fn paint_replaces_one_cell() {
    let (sand, water) = (cell(SAND, 3), cell(WATER, 9));
    assert_eq!(paint_cell(sand, 0), sand);
    assert_eq!(paint_cell(sand, PAINT | water), water);
    assert_eq!(paint_cell(sand, PAINT), EMPTY);
}

#[test]
fn what_moved_up_or_down_does_not_move_sideways() {
    // Smoke rises, and wanders no further in that pass.
    let smoke = cell(SMOKE, 1);
    assert_eq!(update(0, 0, smoke, 0, 1013904226), [smoke, 0, 0, 0]);
    // Oil slides down beside water, which cannot push it on and turns around.
    let (oil, water) = (cell(OIL, 2) | DIR, cell(WATER, 1));
    assert_eq!(update(oil, 0, water | DIR, 0, 288545018), [0, 0, water, oil]);
}

#[test]
fn random_scenes_hold_every_element() {
    let lay = Layout::new(352, 640);
    let c = Canvas::random(lay, 7);
    for k in SAND..=EMBER {
        assert!(c.cells.iter().any(|&v| v & PAINT != 0 && kind(v) == k));
    }
}

#[test]
fn no_grain_is_lost_or_changed() {
    let lay = Layout::new(32, 64);
    let mut c = Canvas::blank(lay);
    c.rect(0, 20, 64, 22, WALL);
    c.rect(10, 4, 20, 10, WATER);
    c.rect(15, 2, 40, 4, OIL);
    c.disc(&stamp(40.0, 8.0, 3.0), SAND);
    let mut buf = c.into_world();
    let grains = |buf: &[i32]| {
        let mut g: Vec<i32> = world(&lay, buf).iter().map(|v| v & !DIR).collect();
        g.sort();
        g
    };
    let before = grains(&buf);
    for pass in 0..40 {
        buf = step(&lay, &buf, pass, 7 * pass);
    }
    assert_eq!(grains(&buf), before);
}
