use tileworld::march::blocks::{block, picture};
use tileworld::march::lanes::{lane, tile};

/// Count down, and stop at zero.
fn down(p: u32) -> Option<u32> {
    if p == 0 {
        None
    } else {
        Some(p - 1)
    }
}

#[test]
fn a_lane_stops_by_its_rule_or_its_budget() {
    assert_eq!(lane(5, 10, down), (0, 5));
    assert_eq!(lane(5, 5, down), (0, 5));
    assert_eq!(lane(5, 3, down), (2, 3));
    assert_eq!(lane(5, 0, down), (5, 0));
}

#[test]
fn a_larger_budget_changes_nothing_for_a_lane_that_stopped() {
    for max in 6..40 {
        assert_eq!(lane(5, max, down), (0, 5));
    }
}

#[test]
fn lanes_of_a_tile_end_as_they_would_alone() {
    let starts = vec![5, 0, 9, 2];
    for every in 1..15 {
        let (ends, _) = tile(&starts, 7, every, &down);
        let alone: Vec<(u32, u32)> = starts.iter().map(|&p| lane(p, 7, down)).collect();
        assert_eq!(ends, alone);
    }
}

#[test]
fn a_tile_looks_between_groups_of_steps() {
    let starts = vec![3, 1];
    // The lane of three steps is seen to have stopped in the fourth.
    assert_eq!(tile(&starts, 100, 1, &down).1, 4);
    assert_eq!(tile(&starts, 100, 2, &down).1, 4);
    assert_eq!(tile(&starts, 100, 3, &down).1, 6);
    assert_eq!(tile(&starts, 100, 16, &down).1, 16);
    assert_eq!(tile(&starts, 10, 16, &down).1, 10);
    assert_eq!(tile(&starts, 3, 1, &down).1, 3);
    assert_eq!(tile(&starts, 0, 1, &down).1, 0);
}

#[test]
fn a_block_covers_its_pixels() {
    let (ends, steps) = block(2, 1, 2, 50, 8, &|r: usize, c: usize| (10 * r + c) as u32, &down);
    assert_eq!(ends, vec![(0, 24), (0, 25), (0, 34), (0, 35)]);
    assert_eq!(steps, 40);
}

#[test]
fn a_picture_does_not_depend_on_its_blocks() {
    let start = |r: usize, c: usize| (r * 7 + c * 3) as u32 % 11;
    let mut seen = Vec::new();
    for r in 0..5 {
        for c in 0..9 {
            seen.push(lane(start(r, c), 8, down));
        }
    }
    for size in [1, 2, 3, 4, 16] {
        for every in [1, 3, 8] {
            let out = picture(5, 9, size, 8, every, start, down);
            let ends: Vec<(u32, u32)> = out.iter().map(|&(p, n, _)| (p, n)).collect();
            assert_eq!(ends, seen);
            assert!(out.iter().all(|&(_, n, t)| n <= t && t <= 8));
        }
    }
    // A block of one pixel takes that pixel's steps and one more.
    let out = picture(5, 9, 1, 100, 1, start, down);
    assert!(out.iter().all(|&(_, n, t)| t == n + 1));
    assert_eq!(picture(5, 0, 4, 8, 1, start, down).len(), 0);
}
