use tileworld::cloth::cpu::{initial, integrate, neighbor, normals, pair, shade, Cloth};
use tileworld::cloth::draw::{draw, fill, Bounds, Dot};
use tileworld::cloth::gpu::{end_parity, launches, pass_table, run, window, Launch};
use tileworld::cloth::raster::{band_here, band_rows, buckets, clip, triangles};
use tileworld::cloth::session::{Action, Session};
use tileworld::cloth::stretch::structural;
use tileworld::cloth::world::{is_first_color, nearest_pin, pinned, Batch, Layout, Pins, TILE};
use tileworld::input::Key;

type P = [f32; 4];

#[derive(Clone, Copy)]
struct Physics {
    dt: f32,
    gravity: f32,
    damping: f32,
    wind: [f32; 3],
    time: f32,
    sphere: [f32; 4],
    floor: f32,
    stiffness: [f32; 3],
    spacing: f32,
}

fn demo(lay: Layout) -> Physics {
    let h = lay.rows as f32;
    Physics {
        dt: 1.0 / 240.0,
        gravity: -981.0,
        damping: 0.998,
        wind: [0.0, 0.0, 600.0],
        time: 0.0,
        sphere: [0.0, -h * 0.15, 46.0, 40.0],
        floor: -h * 0.5 - 24.0,
        stiffness: [1.0, 0.9, 0.6],
        spacing: 1.0,
    }
}

fn rest(b: Batch, spacing: f32) -> f32 {
    if b.kind >= 2 {
        std::f32::consts::SQRT_2 * spacing
    } else {
        (1 << b.lg) as f32 * spacing
    }
}

fn hung(lay: Layout, pins: Pins, spacing: f32) -> Vec<P> {
    initial(&lay, [0.0; 4], |r: usize, c: usize| {
        [
            (c as f32 - (lay.cols - 1) as f32 * 0.5) * spacing,
            ((lay.rows - 1) as f32 * 0.5 - r as f32) * spacing,
            0.0,
            pins.weight(r, c, lay.cols) as f32,
        ]
    })
}

fn anchored(lay: Layout, pins: Pins, spacing: f32) -> Vec<P> {
    let pos = hung(lay, pins, spacing);
    let held = pinned(&lay, pins);
    initial(&lay, [0.0; 4], |r: usize, c: usize| match nearest_pin(&held, r, c) {
        Some(k) => {
            let (pr, pc) = held[k];
            let (dr, dc) = (pr as f32 - r as f32, pc as f32 - c as f32);
            let a = pos[lay.index(pr, pc)];
            [a[0], a[1], a[2], (dr * dr + dc * dc).sqrt() * spacing]
        }
        None => [0.0; 4],
    })
}

fn gust(time: f32, x: f32, y: f32) -> f32 {
    0.55 + 0.3 * (time * 1.7 + x * 0.05 + y * 0.03).sin()
        + 0.15 * (time * 3.1 - y * 0.08 + x * 0.02).sin()
}

fn moved(ph: &Physics, p: P, prev: P, n: P) -> P {
    if p[3] <= 0.0 {
        return p;
    }
    let dt2 = ph.dt * ph.dt;
    let g = gust(ph.time, p[0], p[1]);
    let wd = (n[0] * ph.wind[0] + n[1] * ph.wind[1] + n[2] * ph.wind[2]) * g;
    let a = [n[0] * wd, ph.gravity + n[1] * wd, n[2] * wd];
    let mut out = p;
    for k in 0..3 {
        out[k] = p[k] + (p[k] - prev[k]) * ph.damping + a[k] * dt2;
    }
    out
}

fn linked(ph: &Physics, b: Batch, p: P, q: Option<P>, anchor: P) -> P {
    let [mut x, mut y, mut z, w] = p;
    if let Some([qx, qy, qz, qw]) = q {
        let (dx, dy, dz) = (qx - x, qy - y, qz - z);
        let len = (dx * dx + dy * dy + dz * dz).sqrt().max(1e-6);
        let wsum = w + qw;
        let share = if wsum > 0.0 { w / wsum } else { 0.0 };
        let s = (len - rest(b, ph.spacing)) / len * share * ph.stiffness[b.k];
        x = x + dx * s;
        y = y + dy * s;
        z = z + dz * s;
    }
    if w > 0.0 {
        let [ax, ay, az, reach] = anchor;
        let (vx, vy, vz) = (x - ax, y - ay, z - az);
        let dist = (vx * vx + vy * vy + vz * vz).sqrt();
        let pull = reach / dist.max(1e-6);
        if reach > 0.0 && dist > reach {
            x = ax + vx * pull;
            y = ay + vy * pull;
            z = az + vz * pull;
        }
        let [sx, sy, sz, sr] = ph.sphere;
        let (vx, vy, vz) = (x - sx, y - sy, z - sz);
        let dist = (vx * vx + vy * vy + vz * vz).sqrt();
        let push = sr / dist.max(1e-6);
        if dist < sr {
            x = sx + vx * push;
            y = sy + vy * push;
            z = sz + vz * push;
        }
        y = y.max(ph.floor);
    }
    [x, y, z, w]
}

fn normal(l: P, r: P, u: P, d: P) -> P {
    let tx = [r[0] - l[0], r[1] - l[1], r[2] - l[2]];
    let ty = [d[0] - u[0], d[1] - u[1], d[2] - u[2]];
    let n = [
        tx[1] * ty[2] - tx[2] * ty[1],
        tx[2] * ty[0] - tx[0] * ty[2],
        tx[0] * ty[1] - tx[1] * ty[0],
    ];
    let len = (n[0] * n[0] + n[1] * n[1] + n[2] * n[2]).sqrt().max(1e-9);
    [n[0] / len, n[1] / len, n[2] / len, 0.0]
}

fn new_cloth(lay: Layout, pins: Pins, spacing: f32) -> Cloth<P> {
    let pos = hung(lay, pins, spacing);
    Cloth {
        prev: pos.clone(),
        nrm: normals(&lay, &pos, normal),
        anchor: anchored(lay, pins, spacing),
        pos,
    }
}

fn stretch(lay: &Layout, pos: &[P], spacing: f32) -> f32 {
    let links = structural(lay);
    let mut sum = 0.0f64;
    for &(i, j) in &links {
        let (p, q) = (pos[i], pos[j]);
        let d = [q[0] - p[0], q[1] - p[1], q[2] - p[2]];
        let len = (d[0] * d[0] + d[1] * d[1] + d[2] * d[2]).sqrt();
        sum += ((len - spacing) / spacing).abs() as f64;
    }
    (sum / links.len().max(1) as f64) as f32
}

/// Stretch must settle, not grow, with every constraint family on.
#[test]
fn stable() {
    let lay = Layout::new(32, 32);
    let mut ph = demo(lay);
    ph.sphere[3] = 0.0;
    for pins in [Pins::Top, Pins::Corners, Pins::Free] {
        let mut cloth = new_cloth(lay, pins, ph.spacing);
        let mut line = String::new();
        let mut worst = 0.0f32;
        for f in 0..120 {
            let now = ph;
            cloth.frame(
                &lay,
                4,
                2,
                |p: P, prev: P, n: P| moved(&now, p, prev, n),
                |b: Batch, p: P, q: Option<P>, a: P| linked(&now, b, p, q, a),
                normal,
            );
            ph.time += ph.dt * 4.0;
            let s = stretch(&lay, &cloth.pos, ph.spacing);
            if f >= 60 {
                worst = worst.max(s);
            }
            if f % 15 == 14 {
                line += &format!(" {:.2}", s * 100.0);
            }
        }
        println!("{:<10} stretch %:{line}", pins.name());
        assert!(worst < 0.08, "{}: stretch {worst}", pins.name());
    }
}

#[test]
fn an_iteration_has_twelve_batches() {
    let it = Batch::iteration();
    assert_eq!(it.len(), 12);
    assert_eq!(it[0].entry(), [0, 0, 0, 0]);
    assert_eq!(it[11].entry(), [1, 1, 1, 2]);
    let table = pass_table();
    assert_eq!(table.len(), 48);
    assert_eq!(&table[44..], &[1, 1, 1, 2]);
}

#[test]
fn partners_take_each_other() {
    for b in Batch::iteration() {
        for r in 40..60usize {
            for c in 40..60usize {
                let (dr, dc) = b.partner(r, c);
                let (pr, pc) = ((r as i32 + dr) as usize, (c as i32 + dc) as usize);
                assert_eq!(b.partner(pr, pc), (-dr, -dc));
                assert_ne!((dr, dc), (0, 0));
            }
        }
    }
}

#[test]
fn pins_hold_the_top_row() {
    let lay = Layout::new(32, 64);
    assert_eq!(Pins::Top.name(), "top row");
    assert_eq!(pinned(&lay, Pins::Top).len(), 64);
    assert_eq!(pinned(&lay, Pins::Corners), vec![(0, 0), (0, 63)]);
    assert_eq!(pinned(&lay, Pins::Sparse), vec![(0, 0), (0, 16), (0, 32), (0, 48), (0, 63)]);
    assert_eq!(pinned(&lay, Pins::Free), vec![]);
    let corners = pinned(&lay, Pins::Corners);
    assert_eq!(nearest_pin(&corners, 5, 31), Some(0));
    assert_eq!(nearest_pin(&corners, 5, 32), Some(1));
    assert_eq!(nearest_pin(&vec![], 5, 32), None);
}

#[test]
fn buffers_have_a_ghost_ring() {
    let lay = Layout::new(20, 40);
    assert_eq!((lay.rows, lay.cols, lay.buf_rows(), lay.buf_cols()), (32, 64, 96, 128));
    let buf = initial(&lay, (0, 0), |r: usize, c: usize| (r + 1, c + 1));
    assert_eq!(buf.len(), lay.len());
    assert_eq!(buf[lay.index(3, 4)], (4, 5));
    assert_eq!(buf[31 * 128 + 40], (0, 0));
    assert_eq!(neighbor(&lay, &buf, 32, 32, 0, 1), Some((1, 2)));
    assert_eq!(neighbor(&lay, &buf, 32, 32, -1, 0), None);
    assert_eq!(neighbor(&lay, &buf, 0, 0, -1, 0), None);
}

#[test]
fn passes_hand_on_what_they_meet() {
    let lay = Layout::new(32, 32);
    let pos = initial(&lay, 0usize, |r: usize, c: usize| 100 * r + c + 1);
    let anchor = vec![7usize; pos.len()];
    let sum = integrate(&pos, &anchor, &pos, |p: usize, q: usize, n: usize| p + 10 * q + n);
    assert_eq!(sum[lay.index(1, 2)], 103 + 70 + 103);
    let batch = Batch::iteration()[0];
    let met = pair(&lay, &pos, &anchor, batch, |p: usize, q: Option<usize>, a: usize| {
        q.unwrap_or(0) * 1000 + p + a
    });
    let (dr, dc) = batch.partner(TILE + 5, TILE + 5);
    let there = (100 * (5 + dr) + 5 + dc + 1) as usize;
    assert_eq!(met[lay.index(5, 5)], there * 1000 + 506 + 7);
    let around = normals(&lay, &pos, |l: usize, r: usize, u: usize, d: usize| {
        l + 10_000 * r + 100_000_000 * (u + d)
    });
    // In the corner the particle stands in for the neighbors it lacks.
    assert_eq!(around[lay.index(0, 0)], 1 + 20_000 + 100_000_000 * (1 + 101));
    let shown = shade(&lay, &pos, &anchor, |p: usize, n: usize, first: bool| (p, n, first));
    assert_eq!(shown[lay.index(15, 15)], (1516, 7, true));
    assert_eq!(shown[lay.index(16, 15)], (1616, 7, false));
    assert_eq!(shown[31 * 96 + 32], (0, 7, false));
    assert!(is_first_color(0, 0) && !is_first_color(16, 0) && is_first_color(17, 30));
}

#[test]
fn a_pinned_cloth_hangs_from_its_pins() {
    let lay = Layout::new(32, 32);
    let mut ph = demo(lay);
    ph.wind = [0.0; 3];
    ph.sphere[3] = 0.0;
    let mut cloth = new_cloth(lay, Pins::Corners, 1.0);
    let start = cloth.pos.clone();
    for _ in 0..10 {
        cloth.frame(
            &lay,
            2,
            1,
            |p: P, prev: P, n: P| moved(&ph, p, prev, n),
            |b: Batch, p: P, q: Option<P>, a: P| linked(&ph, b, p, q, a),
            normal,
        );
    }
    let (corner, middle) = (lay.index(0, 31), lay.index(16, 16));
    assert_eq!(cloth.pos[corner], start[corner]);
    assert!(cloth.pos[middle][1] < start[middle][1]);
    assert_eq!(cloth.pos[0], start[0]);
}

#[test]
fn a_cloth_frame_is_launched_like_this() {
    assert_eq!(launches(4, 2), 102);
    let plan = run(1, 1, 1);
    assert_eq!(plan.len(), 15);
    assert!(matches!(plan[0], Launch::Integrate { from: 1, prev: 1 }));
    assert!(matches!(plan[1], Launch::Pair { from: 0, pass: 0 }));
    assert!(matches!(plan[12], Launch::Pair { from: 1, pass: 11 }));
    assert!(matches!(plan[13], Launch::Normals { from: 0 }));
    assert!(matches!(plan[14], Launch::Shade { from: 0 }));
    assert_eq!(end_parity(1, 1), 0);
    assert_eq!(end_parity(1, 4), 1);
}

#[test]
fn windows_show_neighbors() {
    let lay = Layout::new(32, 64);
    let w = window(&lay, -1, 2);
    assert_eq!((w.row, w.row_end, w.col, w.col_end), (31, 64, 34, 99));
}

#[test]
fn links_to_the_right_and_down() {
    let lay = Layout::new(32, 64);
    let links = structural(&lay);
    assert_eq!(links.len(), 32 * 63 + 31 * 64);
    assert_eq!(links[0], (lay.index(0, 0), lay.index(0, 1)));
    assert_eq!(links[1], (lay.index(0, 0), lay.index(1, 0)));
    assert_eq!(links[links.len() - 1], (lay.index(31, 62), lay.index(31, 63)));
}

#[test]
fn cells_make_two_triangles() {
    let lay = Layout::new(32, 32);
    let tris = triangles(&lay);
    assert_eq!(tris.len(), 2 * 31 * 31);
    let (a, b, d, e) = (lay.index(0, 0), lay.index(0, 1), lay.index(1, 0), lay.index(1, 1));
    assert_eq!(tris[0], (a, b, d));
    assert_eq!(tris[1], (b, e, d));
}

#[test]
fn bands_share_the_work() {
    assert_eq!(band_rows(640, 28), 6);
    assert_eq!(band_rows(0, 4), 1);
    let band = band_here(640);
    assert!(1 <= band && band <= 160);
    let bins = buckets(&vec![(0, 3), (5, 9), (20, 25), (3, 4), (0, 0)], 10, 4);
    assert_eq!(bins, vec![vec![0, 3], vec![1, 3], vec![1]]);
    assert_eq!(clip(2, 9, 4, 3), Some((4, 6)));
    assert_eq!(clip(2, 3, 4, 3), None);
}

#[test]
fn the_nearest_shape_shows() {
    let far = Dot { depth: u32::MAX, color: 0 };
    let shapes = vec![
        Bounds { x0: 0, x1: 9, y0: 0, y1: 9 },
        Bounds { x0: 2, x1: 3, y0: 2, y1: 30 },
        Bounds { x0: 2, x1: 2, y0: 3, y1: 3 },
        Bounds { x0: 0, x1: 9, y0: 0, y1: 0 },
    ];
    let frag = |i: usize, x: usize, y: usize| {
        if x == 9 && y == 9 {
            None
        } else {
            Some(Dot { depth: [50, 40, 45, 1][i], color: i as u32 + 1 })
        }
    };
    for band in [1, 3, 7, 12] {
        let out = draw(&vec![far; 120], 10, 12, band, &shapes, frag);
        let color = |x: usize, y: usize| out[y * 10 + x].color;
        assert_eq!(color(0, 0), 1);
        assert_eq!(color(2, 2), 2);
        // The third shape lies behind the second.
        assert_eq!(color(2, 3), 2);
        assert_eq!(color(3, 11), 2);
        assert_eq!(color(9, 9), 0);
        assert_eq!(color(0, 11), 0);
        assert_eq!(out[0], Dot { depth: 50, color: 1 });
    }
    let mut dots = vec![far; 30];
    fill(&frag, 1, shapes[1], &mut dots, 10, 1, 3);
    assert_eq!(dots.iter().filter(|d| d.color == 2).count(), 4);
}

#[test]
fn keys_pin_and_pause() {
    let mut s = Session::new();
    assert_eq!(s.press(Key::Digit(3)), Action::Reset);
    assert_eq!(s.pins, Pins::Corners);
    assert_eq!(s.press(Key::Digit(5)), Action::Nothing);
    assert_eq!(s.press(Key::R), Action::Reset);
    assert_eq!(s.press(Key::P), Action::Shot(1));
    assert_eq!(s.press(Key::P), Action::Shot(2));
    s.press(Key::W);
    assert!(!s.wind_on);
    assert_eq!(s.launches(3), Some(0));
    assert_eq!(s.launches(4), Some(1));
    s.press(Key::Space);
    assert_eq!(s.launches(3), None);
    assert_eq!(s.parity, 1);
}

#[test]
fn ghosts_have_no_normal() {
    let lay = Layout::new(32, 64);
    let pos = hung(lay, Pins::Top, 1.0);
    let nrm = normals(&lay, &pos, normal);
    let bc = lay.buf_cols();
    for i in 0..lay.len() {
        if lay.is_world(i / bc, i % bc) {
            assert_ne!(nrm[i], [0.0; 4]);
        } else {
            assert_eq!(nrm[i], [0.0; 4]);
        }
    }
}

#[test]
fn the_plan_computes_a_frame() {
    let lay = Layout::new(32, 32);
    let ph = demo(lay);
    let motion = |p, q, n| moved(&ph, p, q, n);
    let link = |b, p, q, a| linked(&ph, b, p, q, a);
    for (parity, substeps, iterations) in [(0, 3, 2), (1, 2, 1), (1, 0, 1), (0, 1, 0)] {
        let mut cloth = new_cloth(lay, Pins::Corners, ph.spacing);
        let mut pos = [cloth.pos.clone(), cloth.pos.clone()];
        let mut prev = [cloth.prev.clone(), cloth.prev.clone()];
        let mut nrm = cloth.nrm.clone();
        let mut shown = Vec::new();
        for launch in run(parity, substeps, iterations) {
            match launch {
                Launch::Integrate { from, prev: was } => {
                    pos[1 - from] = integrate(&pos[from], &prev[was], &nrm, motion);
                    prev[1 - was] = pos[from].clone();
                }
                Launch::Pair { from, pass } => {
                    let b = Batch::iteration()[pass];
                    let rule = |p, q, a| link(b, p, q, a);
                    pos[1 - from] = pair(&lay, &pos[from], &cloth.anchor, b, rule);
                }
                Launch::Normals { from } => nrm = normals(&lay, &pos[from], normal),
                Launch::Shade { from } => shown = shade(&lay, &pos[from], &nrm, |p: P, _, _| p),
            }
        }
        cloth.frame(&lay, substeps, iterations, motion, link, normal);
        let end = end_parity(parity, substeps);
        assert_eq!(pos[end], cloth.pos);
        assert_eq!(prev[end], cloth.prev);
        assert_eq!(nrm, cloth.nrm);
        assert_eq!(shown, cloth.pos);
    }
}
