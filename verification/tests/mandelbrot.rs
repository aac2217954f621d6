use tileworld::mandelbrot::bench::median;
use tileworld::mandelbrot::cpu::{escape, render_rayon, render_serial};
use tileworld::mandelbrot::view::{Kernel, View};
use tileworld::march::blocks::picture;
use tileworld::march::lanes::lane;

/// The point that a pixel stands for, and where it has come to.
type Z = (f32, f32, f32, f32);

fn start(view: &View, r: usize, c: usize) -> Z {
    let step = 3.2 / view.width as f32;
    let cr = c as f32 * step - 2.25 + step / 2.0;
    let ci = step * view.height as f32 / 2.0 - step / 2.0 - r as f32 * step;
    (0.0, 0.0, cr, ci)
}

fn rule(z: Z) -> Option<Z> {
    let (zr, zi, cr, ci) = z;
    let (zr2, zi2) = (zr * zr, zi * zi);
    if zr2 + zi2 > 256.0 {
        None
    } else {
        Some((zr2 - zi2 + cr, (zr + zr) * zi + ci, cr, ci))
    }
}

#[test]
fn a_view_looks_at_least_once_an_iteration() {
    let v = View::new(40, 30, 100, 0);
    assert_eq!((v.width, v.height, v.max_iter, v.check_every), (40, 30, 100, 1));
    assert_eq!(View::new(1, 1, 1, -5).check_every, 1);
    let v = View::new(40, 30, 100, 16);
    assert_eq!(v.looks_every(Kernel::EarlyExit), 16);
    assert_eq!(v.looks_every(Kernel::Fixed), 100);
    assert_eq!(View::new(1, 1, 0, 16).looks_every(Kernel::Fixed), 1);
}

#[test]
fn programs_cover_the_picture() {
    assert_eq!(View::new(1920, 1080, 1, 1).programs(64), (17, 30, 510));
    assert_eq!(View::new(64, 64, 1, 1).programs(64), (1, 1, 1));
    assert_eq!(View::new(0, 5, 1, 1).programs(4), (2, 0, 0));
}

#[test]
fn serial_parallel_and_tiled_pictures_agree() {
    let view = View::new(37, 21, 60, 8);
    let pixel = |r: usize, c: usize| lane(start(&view, r, c), view.max_iter, rule);
    let serial = render_serial(&view, pixel);
    assert_eq!(serial.len(), 37 * 21);
    assert_eq!(render_rayon(&view, pixel), serial);
    for kernel in [Kernel::Fixed, Kernel::EarlyExit] {
        let tiled = picture(
            view.height,
            view.width,
            16,
            view.max_iter,
            view.looks_every(kernel),
            |r: usize, c: usize| start(&view, r, c),
            rule,
        );
        let ends: Vec<(Z, u32)> = tiled.iter().map(|&(z, n, _)| (z, n)).collect();
        assert_eq!(ends, serial);
    }
    // The middle of the set never escapes, the corner soon does.
    let (mid, corner) = (10 * 37 + 20, 0);
    assert_eq!(serial[mid].1, 60);
    assert!(serial[corner].1 < 10);
}

#[test]
fn the_middle_time() {
    assert_eq!(median(&vec![5]), 5);
    assert_eq!(median(&vec![9, 1, 5]), 5);
    assert_eq!(median(&vec![4, 1, 3, 2]), 3);
    assert_eq!(median(&vec![7, 7, 1, 7, 2]), 7);
}

#[test]
fn an_escaped_point_stays_escaped() {
    // c = 1: 0, 1, 2, 5, 26, and 26 is out.
    let z = |n: u32| escape((0.0, 0.0, 1.0, 0.0), n, rule);
    assert_eq!(z(0), None);
    assert_eq!(z(3), None);
    for n in 4..50 {
        assert_eq!(z(n), Some(((26.0, 0.0, 1.0, 0.0), 4)));
    }
    // The origin stays where it is.
    for n in [0, 1, 100, 10000] {
        assert_eq!(escape((0.0, 0.0, 0.0, 0.0), n, rule), None);
    }
}
