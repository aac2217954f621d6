use tileworld::life::cpu::{random_soup, step};
use tileworld::life::gpu::{capture, gens_per_launch, launches, life_step};
use tileworld::life::layout::Layout;
use tileworld::life::session::{Plan, Session};
use tileworld::life::view::{draw, shade};

fn fnv(bytes: &[u8]) -> u64 {
    let mut h: u64 = 0xcbf2_9ce4_8422_2325;
    for v in bytes {
        for b in (*v as u32).to_le_bytes() {
            h = (h ^ b as u64).wrapping_mul(0x100_0000_01b3);
        }
    }
    h
}

fn after(cells: &[u8], rows: usize, cols: usize, gens: usize) -> Vec<u8> {
    let (mut a, mut b) = (cells.to_vec(), vec![0u8; cells.len()]);
    for _ in 0..gens {
        step(&a, &mut b, rows, cols);
        std::mem::swap(&mut a, &mut b);
    }
    a
}

#[test]
fn a_soup_is_this() {
    let cells = random_soup(8, 10, 1 << 30, 42);
    assert_eq!(&cells[..20], &[0, 0, 1, 0, 0, 0, 1, 0, 1, 0, 0, 1, 0, 1, 1, 0, 1, 1, 1, 1]);
    assert_eq!(cells.iter().map(|&c| c as usize).sum::<usize>(), 21);
    let later = after(&cells, 8, 10, 3);
    assert_eq!(later.iter().map(|&c| c as usize).sum::<usize>(), 31);
    assert_eq!(fnv(&later), 7754541262887983940);
    assert!(random_soup(4, 4, 0, 9).iter().all(|&c| c == 0));
}

#[test]
fn a_glider_comes_round_the_torus() {
    let mut cells = vec![0u8; 8 * 8];
    for (r, c) in [(0, 1), (1, 2), (2, 0), (2, 1), (2, 2)] {
        cells[r * 8 + c] = 1;
    }
    let four = after(&cells, 8, 8, 4);
    for r in 0..8 {
        for c in 0..8 {
            assert_eq!(four[(r + 1) % 8 * 8 + (c + 1) % 8], cells[r * 8 + c]);
        }
    }
    assert_eq!(after(&cells, 8, 8, 32), cells);
}

#[test]
fn still_lifes_and_blinkers() {
    let mut block = vec![0u8; 36];
    for i in [7, 8, 13, 14] {
        block[i] = 1;
    }
    assert_eq!(after(&block, 6, 6, 5), block);
    let mut blinker = vec![0u8; 36];
    for i in [13, 14, 15] {
        blinker[i] = 1;
    }
    let turned = after(&blinker, 6, 6, 1);
    assert_ne!(turned, blinker);
    assert_eq!(after(&turned, 6, 6, 1), blinker);
}

#[test]
fn padding_wraps_around() {
    let lay = Layout::new(3, 5, 4);
    assert_eq!((lay.rows, lay.cols, lay.buf_rows(), lay.buf_cols()), (4, 8, 12, 16));
    let cells: Vec<u8> = (0..32).collect();
    let buf = lay.pad(&cells);
    assert_eq!(buf[4 * 16 + 4], 0);
    assert_eq!(buf[3 * 16 + 4], 24);
    assert_eq!(buf[4 * 16 + 3], 7);
    assert_eq!(buf[8 * 16 + 12], 0);
    assert_eq!(lay.unpad(&buf), cells);
}

#[test]
fn the_kernel_plays_life() {
    let lay = Layout::new(16, 24, 8);
    let mut cells = random_soup(lay.rows, lay.cols, 1 << 30, 5);
    let mut buf = lay.pad(&cells);
    for _ in 0..4 {
        buf = life_step(&lay, &buf);
        cells = after(&cells, lay.rows, lay.cols, 1);
        assert_eq!(lay.unpad(&buf), cells);
        // The ghosts are up to date again.
        assert_eq!(buf, lay.pad(&cells));
    }
}

#[test]
fn launches_come_in_pairs() {
    assert_eq!(gens_per_launch(0), 2);
    assert_eq!(gens_per_launch(5), 6);
    assert_eq!(launches(100, 6), 17);
    assert_eq!(launches(0, 6), 1);
    let plan = capture(3);
    assert_eq!(plan.len(), 4);
    assert_eq!((plan[0].from, plan[1].from, plan[3].from), (0, 1, 1));
}

#[test]
fn dying_cells_leave_a_trail() {
    assert_eq!(shade(0), 0x080c1c);
    assert_eq!(shade(255), (208 << 16) | (252 << 8) | 255);
    let (mut heat, frame) = draw(vec![0, 100, 10], &[1, 0, 0]);
    assert_eq!(heat, vec![255, 76, 0]);
    assert_eq!(frame, vec![shade(255), shade(76), shade(0)]);
    for _ in 0..11 {
        heat = draw(heat, &[0, 0, 0]).0;
    }
    assert_eq!(heat, vec![0, 0, 0]);
}

#[test]
fn keys_pause_and_reseed() {
    let mut s = Session::new(u64::MAX);
    assert_eq!(s.frame(false, false), Plan { reseed: None, launch: true });
    assert_eq!(s.frame(true, false), Plan { reseed: None, launch: false });
    assert_eq!(s.frame(false, true), Plan { reseed: Some(0), launch: false });
    assert_eq!(s.frame(true, true), Plan { reseed: Some(1), launch: true });
}
