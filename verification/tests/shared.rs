use tileworld::brush::Stamp;
use tileworld::grid::{crop, div_ceil, round_to_tiles};
use tileworld::parallel::map_grid;
use tileworld::pixels::{as_u32, is_scale, outline, rgb, rgb_bytes, RING};
use tileworld::random::{advance, draw31, draw32};
use tileworld::tiles::load;

#[test]
fn sizes_round_up_to_tiles() {
    assert_eq!(round_to_tiles(0, 32), 32);
    assert_eq!(round_to_tiles(32, 32), 32);
    assert_eq!(round_to_tiles(33, 32), 64);
    assert_eq!(div_ceil(0, 5), 0);
    assert_eq!(div_ceil(11, 5), 3);
}

#[test]
fn a_rectangle_is_cut_out() {
    let buf: Vec<u8> = (0..20).collect();
    assert_eq!(crop(&buf, 5, 1, 2, 3), vec![6, 7, 8, 11, 12, 13]);
}

#[test]
fn the_generator_goes_on_like_this() {
    let a = advance(1);
    assert_eq!(a, 33554433);
    assert_eq!((draw32(a), draw31(a)), (1206177355, 603088677));
    let b = advance(a);
    assert_eq!(b, 1126174793148417);
    assert_eq!((draw32(b), draw31(b)), (2882512552, 1441256276));
}

#[test]
fn the_generator_never_comes_to_zero() {
    let mut x = 1;
    for _ in 0..1000 {
        x = advance(x);
        assert_ne!(x, 0);
    }
}

#[test]
fn tiles_are_padded() {
    let src: Vec<i32> = (0..12).collect();
    assert_eq!(load(&src, 3, 4, 2, 1, 1, 0, 1, 0, 0, -1), 7);
    assert_eq!(load(&src, 3, 4, 2, 1, 1, 1, 1, 1, 1, -1), -1);
}

#[test]
fn grids_are_made_in_order() {
    let out = map_grid(40, 30, |r: usize, c: usize| r * 1000 + c);
    assert_eq!(out.len(), 1200);
    for r in 0..40 {
        for c in 0..30 {
            assert_eq!(out[r * 30 + c], r * 1000 + c);
        }
    }
    assert_eq!(map_grid(0, 5, |_, _| 1).len(), 0);
}

#[test]
fn brushes_on_a_cell_are_round() {
    let s = Stamp::round(10, -4, 2);
    assert_eq!(s.marks.iter().filter(|&&m| m).count(), 13);
    assert!(s.is_marked(12, -4));
    assert!(!s.is_marked(12, -5));
    // A brush may reach the last coordinate there is.
    let s = Stamp::round(i32::MAX - 1, i32::MIN + 1, 1);
    assert!(s.is_marked(i32::MAX, i32::MIN + 1));
    assert!(!s.is_marked(i32::MAX, i32::MIN));
}

#[test]
fn pixels_keep_their_bits() {
    assert_eq!(as_u32(&[0x123456, -1, i32::MIN]), vec![0x123456, 0xffff_ffff, 0x8000_0000]);
    assert_eq!(rgb(1, 2, 3), 0x010203);
    assert_eq!(rgb_bytes(&[0x010203, rgb(255, 0, 128)]), vec![1, 2, 3, 255, 0, 128]);
}

#[test]
fn a_ring_is_drawn_inside_the_picture() {
    let mut px = vec![7u32; 6];
    outline(&mut px, 2, 3, &vec![(0, 0), (2, 1), (3, 0), (0, 2), (-1, 0), (1, -1)]);
    assert_eq!(px, vec![RING, 7, 7, 7, 7, RING]);
}

#[test]
fn windows_scale_by_powers_of_two() {
    let ok: Vec<usize> = (0..10).filter(|&n| is_scale(n, 4)).collect();
    assert_eq!(ok, vec![1, 2, 4]);
    assert!(is_scale(8, 8));
}
