use tileworld::filters::cpu::{blur_h, blur_v, grayscale, run, sobel};
use tileworld::filters::dims::Dims;
use tileworld::filters::gpu;
use tileworld::filters::gpu::{span, Launch};
use tileworld::filters::scene::synthetic_image;

fn fnv(bytes: &[u8]) -> u64 {
    let mut h: u64 = 0xcbf2_9ce4_8422_2325;
    for v in bytes {
        for b in (*v as u32).to_le_bytes() {
            h = (h ^ b as u64).wrapping_mul(0x100_0000_01b3);
        }
    }
    h
}

fn ramp(n: usize) -> Vec<u8> {
    (0..n).map(|i| ((i * 37 + 11) % 256) as u8).collect()
}

#[test]
fn sizes_grow_by_the_radius() {
    let d = Dims { rows: 3, cols: 4, blur_passes: 2 };
    assert_eq!((d.radius(), d.padded_rows(), d.padded_cols()), (5, 13, 14));
    assert_eq!(
        d.stage_shapes(),
        vec![(13, 10), (9, 10), (9, 6), (5, 6), (3, 4)]
    );
}

#[test]
fn padding_repeats_the_edges() {
    let d = Dims { rows: 1, cols: 2, blur_passes: 0 };
    let out = d.pad_rgba(&[1, 2, 3, 4, 5, 6]);
    assert_eq!(out.len(), 3 * 4 * 4);
    let row = [1, 2, 3, 255, 1, 2, 3, 255, 4, 5, 6, 255, 4, 5, 6, 255];
    assert_eq!(&out[..16], &row);
    assert_eq!(&out[32..], &row);
}

#[test]
fn a_small_picture_has_these_edges() {
    let d = Dims { rows: 3, cols: 4, blur_passes: 1 };
    let edges = run(&d, &d.pad_rgba(&ramp(36)));
    assert_eq!(edges, vec![255, 174, 76, 74, 202, 110, 128, 174, 146, 60, 180, 255]);
    let d = Dims { rows: 8, cols: 9, blur_passes: 2 };
    assert_eq!(fnv(&run(&d, &d.pad_rgba(&ramp(8 * 9 * 3)))), 8538479065946469133);
}

#[test]
fn a_plain_picture_has_no_edges() {
    let d = Dims { rows: 4, cols: 5, blur_passes: 3 };
    let rgb: Vec<u8> = [12u8, 200, 77].repeat(20);
    assert!(run(&d, &d.pad_rgba(&rgb)).iter().all(|&e| e == 0));
}

#[test]
fn stages_one_by_one() {
    assert_eq!(grayscale(&[255, 255, 255, 0, 255, 0, 0, 9], 2), vec![255, 77]);
    let img: Vec<u8> = vec![0, 0, 16, 0, 0, 0].repeat(5);
    let mid = blur_h(&img, 5, 6);
    assert_eq!(&mid[..2], &[96, 64]);
    assert_eq!(blur_v(&mid, 5, 2), vec![6, 4]);
    assert_eq!(sobel(&[0, 0, 10, 0, 0, 10, 0, 0, 10], 3, 3), vec![40]);
    assert_eq!(sobel(&[0, 0, 255, 0, 0, 255, 0, 0, 255], 3, 3), vec![255]);
}

#[test]
fn shown_stages_are_cut_to_size() {
    let d = Dims { rows: 1, cols: 1, blur_passes: 1 };
    let gray: Vec<u8> = (0..49).collect();
    let blurred: Vec<u8> = (0..9).collect();
    assert_eq!(d.stages(&gray, Some(&blurred)), (vec![24], vec![4]));
    let d = Dims { rows: 1, cols: 1, blur_passes: 0 };
    assert_eq!(d.stages(&blurred, None), (vec![4], vec![4]));
}

#[test]
fn the_chain_is_launched_like_this() {
    let plan = gpu::run(2);
    assert_eq!(plan.len(), 6);
    assert!(matches!(plan[0], Launch::Grayscale));
    assert!(matches!(plan[1], Launch::BlurH { pass: 0 }));
    assert!(matches!(plan[2], Launch::BlurV { pass: 0 }));
    assert!(matches!(plan[3], Launch::BlurH { pass: 1 }));
    assert!(matches!(plan[5], Launch::Sobel));
    let s = span(10, 4, 1);
    assert_eq!((s.start, s.end), (1, 7));
}

#[test]
fn the_test_picture_is_this() {
    let (w, h) = (30u32, 24u32);
    let mut back = Vec::new();
    for y in 0..h {
        for x in 0..w {
            let (fx, fy) = (x as f32 / w as f32, y as f32 / h as f32);
            back.push((30.0 + 150.0 * fx) as u8);
            back.push((40.0 + 120.0 * fy) as u8);
            back.push((110.0 - 60.0 * fx) as u8);
        }
    }
    assert_eq!(fnv(&back), 4422016353974737797);
    let img = synthetic_image(w, h, 7, back);
    assert_eq!(&img[..6], &[53, 42, 98, 33, 28, 103]);
    assert_eq!(fnv(&img), 12013546487405671129);
}

#[test]
fn the_plan_computes_the_chain() {
    for passes in 0..4 {
        let d = Dims { rows: 7, cols: 9, blur_passes: passes };
        let source = d.pad_rgba(&ramp(7 * 9 * 3));
        let (h, w) = (d.padded_rows(), d.padded_cols());
        let mut gray = Vec::new();
        let mut mids: Vec<Vec<u16>> = vec![Vec::new(); passes];
        let mut outs: Vec<Vec<u8>> = vec![Vec::new(); passes];
        let mut edges = Vec::new();
        for launch in gpu::run(passes) {
            match launch {
                Launch::Grayscale => gray = grayscale(&source, h * w),
                Launch::BlurH { pass } => {
                    let src = if pass == 0 { &gray } else { &outs[pass - 1] };
                    mids[pass] = blur_h(src, h - 4 * pass, w - 4 * pass);
                }
                Launch::BlurV { pass } => {
                    outs[pass] = blur_v(&mids[pass], h - 4 * pass, w - 4 * pass - 4);
                }
                Launch::Sobel => edges = sobel(outs.last().unwrap_or(&gray), 9, 11),
            }
        }
        assert_eq!(edges, run(&d, &source));
    }
}
