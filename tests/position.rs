use hex_spiral::position::{
    are_grouped, are_neighbors, is_at_ring_tip, is_path_consistent, neighboring_positions, ring,
    ring_edge_index, ring_neighboring_positions, ring_offset, DirectionalNeighborIter,
};
use itertools::Itertools;

use hex_spiral::position::DirectionalNeighborIter as DNI;

fn take(mut iter: DirectionalNeighborIter, n: usize) -> Vec<usize> {
    (0..n).map(|_| iter.next().unwrap()).collect()
}

#[test]
fn ring_offsets() {
    let offsets = [0, 1, 7, 19, 37, 61, 91];
    for (i, offset) in offsets.into_iter().enumerate() {
        assert_eq!(ring_offset(i), offset);
    }
}

#[test]
fn position_rings() {
    let offsets = [0, 1, 7, 19, 37, 61, 91];
    for (i, window) in offsets.windows(2).enumerate() {
        if let [beg, end] = window {
            for pos in *beg..*end {
                assert_eq!(ring(pos), i);
            }
        }
    }
}

#[test]
fn ring_tips() {
    for pos in 1..=6 {
        assert!(is_at_ring_tip(pos), "{}", pos);
    }
    for pos in [7, 9, 11, 13, 15, 17] {
        assert!(is_at_ring_tip(pos), "{}", pos);
    }
    for pos in [61, 66, 71, 76, 81, 86] {
        assert!(is_at_ring_tip(pos), "{}", pos);
    }
}

#[test]
fn ring_edges() {
    for pos in [8, 10, 12, 14, 16, 18] {
        assert!(!is_at_ring_tip(pos), "{}", pos);
    }
    for pos in (62..66)
        .chain(67..71)
        .chain(72..76)
        .chain(77..81)
        .chain(82..86)
    {
        assert!(!is_at_ring_tip(pos), "{}", pos);
    }
}

#[test]
fn edge_indices_non_tips() {
    for pos in [8, 21].into_iter().chain(38..=40).chain(62..=65) {
        assert_eq!(ring_edge_index(pos), 0);
    }
    for pos in [10, 23, 24].into_iter().chain(42..=44).chain(67..=70) {
        assert_eq!(ring_edge_index(pos), 1);
    }
    for pos in [12, 26, 27].into_iter().chain(46..=48).chain(72..=75) {
        assert_eq!(ring_edge_index(pos), 2);
    }
    for pos in [14, 29, 30].into_iter().chain(50..=52).chain(77..=80) {
        assert_eq!(ring_edge_index(pos), 3);
    }
    for pos in [16, 32, 33].into_iter().chain(54..=56).chain(82..=85) {
        assert_eq!(ring_edge_index(pos), 4);
    }
    for pos in [18, 35, 36].into_iter().chain(58..=60).chain(87..=90) {
        assert_eq!(ring_edge_index(pos), 5);
    }
}

#[test]
fn ring_neighbors() {
    assert_eq!(ring_neighboring_positions(1), [6, 2]);
    assert_eq!(ring_neighboring_positions(2), [1, 3]);
    assert_eq!(ring_neighboring_positions(3), [2, 4]);
    assert_eq!(ring_neighboring_positions(4), [3, 5]);
    assert_eq!(ring_neighboring_positions(5), [4, 6]);
    assert_eq!(ring_neighboring_positions(6), [5, 1]);
    assert_eq!(ring_neighboring_positions(18), [17, 7]);
    assert_eq!(ring_neighboring_positions(58), [57, 59]);
}

#[test]
fn ring_tip_neighbors() {
    assert_eq!(neighboring_positions(1), [7, 8, 2, 0, 6, 18]);
    assert_eq!(neighboring_positions(2), [8, 9, 10, 3, 0, 1]);
    assert_eq!(neighboring_positions(3), [2, 10, 11, 12, 4, 0]);
    assert_eq!(neighboring_positions(4), [0, 3, 12, 13, 14, 5]);
    assert_eq!(neighboring_positions(5), [6, 0, 4, 14, 15, 16]);
    assert_eq!(neighboring_positions(6), [18, 1, 0, 5, 16, 17]);
    assert_eq!(neighboring_positions(7), [19, 20, 8, 1, 18, 36]);
    assert_eq!(neighboring_positions(9), [21, 22, 23, 10, 2, 8]);
    assert_eq!(neighboring_positions(11), [10, 24, 25, 26, 12, 3]);
    assert_eq!(neighboring_positions(13), [4, 12, 27, 28, 29, 14]);
    assert_eq!(neighboring_positions(15), [16, 5, 14, 30, 31, 32]);
    assert_eq!(neighboring_positions(17), [35, 18, 6, 16, 33, 34]);
    assert_eq!(neighboring_positions(28), [13, 27, 48, 49, 50, 29]);
    assert_eq!(neighboring_positions(53), [54, 31, 52, 80, 81, 82]);
    assert_eq!(neighboring_positions(57), [87, 58, 34, 56, 85, 86]);
}

#[test]
fn ring_edge_neighbors() {
    assert_eq!(neighboring_positions(8), [20, 21, 9, 2, 1, 7]);
    assert_eq!(neighboring_positions(10), [9, 23, 24, 11, 3, 2]);
    assert_eq!(neighboring_positions(12), [3, 11, 26, 27, 13, 4]);
    assert_eq!(neighboring_positions(14), [5, 4, 13, 29, 30, 15]);
    assert_eq!(neighboring_positions(16), [17, 6, 5, 15, 32, 33]);
    assert_eq!(neighboring_positions(18), [36, 7, 1, 6, 17, 35]);
    assert_eq!(neighboring_positions(38), [62, 63, 39, 20, 19, 37]);
    assert_eq!(neighboring_positions(40), [64, 65, 41, 22, 21, 39]);
    assert_eq!(neighboring_positions(42), [41, 67, 68, 43, 23, 22]);
    assert_eq!(neighboring_positions(44), [43, 69, 70, 45, 25, 24]);
    assert_eq!(neighboring_positions(46), [25, 45, 72, 73, 47, 26]);
    assert_eq!(neighboring_positions(48), [27, 47, 74, 75, 49, 28]);
    assert_eq!(neighboring_positions(50), [29, 28, 49, 77, 78, 51]);
    assert_eq!(neighboring_positions(52), [31, 30, 51, 79, 80, 53]);
    assert_eq!(neighboring_positions(54), [55, 32, 31, 53, 82, 83]);
    assert_eq!(neighboring_positions(56), [57, 34, 33, 55, 84, 85]);
    assert_eq!(neighboring_positions(58), [88, 59, 35, 34, 57, 87]);
    assert_eq!(neighboring_positions(60), [90, 37, 19, 36, 59, 89]);
}

#[test]
fn groups() {
    assert!([2, 8, 9]
        .into_iter()
        .permutations(3)
        .all(|perm| are_grouped(&perm)));
    assert!([1, 0, 4]
        .into_iter()
        .permutations(3)
        .all(|perm| are_grouped(&perm)));
    assert!([71, 45, 25, 24, 23, 22, 41, 66]
        .into_iter()
        .permutations(8)
        .all(|perm| are_grouped(&perm)));
    assert!([0, 1, 2, 3, 4, 5, 6]
        .into_iter()
        .permutations(7)
        .all(|perm| are_grouped(&perm)));
    assert!([5, 17, 18]
        .into_iter()
        .permutations(3)
        .all(|perm| !are_grouped(&perm)));
    assert!([2, 3, 5, 6]
        .into_iter()
        .permutations(4)
        .all(|perm| !are_grouped(&perm)));
    assert!([1, 4]
        .into_iter()
        .permutations(2)
        .all(|perm| !are_grouped(&perm)));

    assert!(are_grouped(&[11, 10, 2, 1, 6, 5, 15, 30, 29, 28, 27, 26]));
    assert!(!are_grouped(&[
        1, 2, 3, 4, 5, 16, 17, 35, 36, 20, 21, 22, 23, 24, 25, 26
    ]));
    assert!(are_grouped(&[
        1, 2, 3, 4, 5, 16, 17, 35, 36, 19, 20, 21, 22, 23, 24, 25, 26
    ]));
}

#[test]
fn directional_neighbor_iter() {
    assert_eq!(take(DNI::new(75, 0), 9), vec![48, 27, 12, 3, 2, 8, 20, 38, 62]);
    assert_eq!(take(DNI::new(76, 0), 10), vec![49, 28, 13, 4, 0, 1, 7, 19, 37, 61]);
    assert_eq!(take(DNI::new(77, 0), 9), vec![50, 29, 14, 5, 6, 18, 36, 60, 90]);

    assert_eq!(take(DNI::new(80, 1), 9), vec![52, 30, 14, 4, 3, 10, 23, 42, 67]);
    assert_eq!(take(DNI::new(81, 1), 10), vec![53, 31, 15, 5, 0, 2, 9, 22, 41, 66]);
    assert_eq!(take(DNI::new(82, 1), 9), vec![54, 32, 16, 6, 1, 8, 21, 40, 65]);

    assert_eq!(take(DNI::new(85, 2), 9), vec![56, 33, 16, 5, 4, 12, 26, 46, 72]);
    assert_eq!(take(DNI::new(86, 2), 10), vec![57, 34, 17, 6, 0, 3, 11, 25, 45, 71]);
    assert_eq!(take(DNI::new(87, 2), 9), vec![58, 35, 18, 1, 2, 10, 24, 44, 70]);
}

#[test]
fn walk_position_is_tracked() {
    let mut iter = DirectionalNeighborIter::new(76, 0);
    assert_eq!(iter.curr_pos(), 76);
    assert_eq!(iter.next(), Some(49));
    assert_eq!(iter.curr_pos(), 49);
}

#[test]
fn walk_windows_are_paths() {
    for start in [75, 76, 77, 80, 81, 86, 0, 18] {
        for dir in 0..6 {
            let steps = take(DirectionalNeighborIter::new(start, dir), 12);
            for lo in 0..steps.len() {
                for hi in lo + 2..=steps.len() {
                    assert!(is_path_consistent(&steps[lo..hi]));
                }
            }
        }
    }
}

#[test]
fn ring_containment_and_offsets() {
    for p in 0..10_000usize {
        let k = ring(p);
        assert!(ring_offset(k) <= p && p < ring_offset(k + 1));
    }
    for k in 1..200usize {
        assert_eq!(ring_offset(k), 3 * k * (k - 1) + 1);
    }
}

#[test]
fn neighbors_are_symmetric() {
    for a in 0..400usize {
        for b in neighboring_positions(a) {
            assert!(are_neighbors(b, a), "{} {}", a, b);
        }
        for b in 0..400usize {
            assert_eq!(are_neighbors(a, b), are_neighbors(b, a), "{} {}", a, b);
        }
    }
}

#[test]
fn six_distinct_neighbors() {
    assert_eq!(neighboring_positions(0), [1, 2, 3, 4, 5, 6]);
    for p in 0..2_000usize {
        let n = neighboring_positions(p);
        assert_eq!(n.iter().unique().count(), 6, "{}", p);
        assert!(!n.contains(&p));
    }
}

#[test]
fn neighbors_rotate_with_the_edge() {
    // 53 is a tip on edge 4 of ring 4: its base order is rotated right by four.
    let n = neighboring_positions(53);
    let base = [81, 82, 54, 31, 52, 80];
    for i in 0..6 {
        assert_eq!(n[(i + 4) % 6], base[i]);
    }
    assert_eq!(ring_edge_index(53), 4);
}

#[test]
fn path_consistency() {
    assert!(is_path_consistent(&[76, 49, 28, 13, 4, 0, 1]));
    assert!(!is_path_consistent(&[76, 49, 13]));
    assert!(is_path_consistent(&[0, 1]));
    assert!(!is_path_consistent(&[0, 7]));
}

#[test]
fn group_edge_cases() {
    assert!(are_grouped(&[]));
    assert!(are_grouped(&[42]));
    assert!(are_grouped(&[1, 1, 2]));
    assert!(!are_grouped(&[1, 4]));
    assert!(are_grouped(&[11, 10, 2, 1, 6, 5, 15, 30, 29, 28, 27, 26]));
}
