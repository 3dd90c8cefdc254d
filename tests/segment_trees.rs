use range_trees::coverage::NodeSegments;
use range_trees::max_tree::SegmentTree;

#[test]
fn min_and_max_0() {
    let arr = [1, 4, 2, 3, 4];
    let mut tree = SegmentTree::new(&arr, (0, arr.len() - 1));

    assert_eq!(tree.query((4, 4)).unwrap(), 4);
    assert_eq!(tree.query((4, 4)).unwrap(), 4);
    assert_eq!(tree.query((2, 3)).unwrap(), 3);
    assert_eq!(tree.query((0, 2)).unwrap(), 4);
    assert_eq!(tree.query((0, 3)).unwrap(), 4);
}

#[test]
fn min_and_max_1() {
    let arr = [9, 4, 1, 6, 5, 10, 6, 8, 7, 4];
    let mut tree = SegmentTree::new(&arr, (0, arr.len() - 1));

    tree.update((5, 6), 10);
    assert_eq!(tree.query((4, 7)).unwrap(), 10);
    assert_eq!(tree.query((7, 7)).unwrap(), 8);
    assert_eq!(tree.query((3, 9)).unwrap(), 10);
    assert_eq!(tree.query((5, 7)).unwrap(), 10);
    assert_eq!(tree.query((9, 9)).unwrap(), 4);
    tree.update((2, 9), 4);
    assert_eq!(tree.query((1, 3)).unwrap(), 4);
    assert_eq!(tree.query((0, 8)).unwrap(), 9);
    assert_eq!(tree.query((8, 9)).unwrap(), 4);
}

#[test]
fn min_and_max_2() {
    let arr = [8, 1, 7, 3, 4, 5, 5, 5, 3, 5];
    let mut tree = SegmentTree::new(&arr, (0, arr.len() - 1));

    tree.update((3, 8), 5);
    tree.update((9, 9), 5);
    assert_eq!(tree.query((4, 8)).unwrap(), 5);
    tree.update((4, 4), 4);
    tree.update((9, 9), 5);
    tree.update((8, 8), 3);
    assert_eq!(tree.query((7, 9)).unwrap(), 5);
    tree.update((4, 7), 5);
    tree.update((3, 5), 3);
    tree.update((1, 6), 3);
}

#[test]
fn min_and_max_3() {
    let arr = [2, 5, 10, 9, 1, 7, 8, 7, 4, 1];
    let mut tree = SegmentTree::new(&arr, (0, arr.len() - 1));

    assert_eq!(tree.query((1, 7)).unwrap(), 10);
    assert_eq!(tree.query((5, 8)).unwrap(), 8);

    tree.update((7, 9), 1);
    tree.update((1, 5), 5);

    assert_eq!(tree.query((3, 8)).unwrap(), 8);
    assert_eq!(tree.query((8, 8)).unwrap(), 1);

    tree.update((9, 9), 1);
    tree.update((0, 0), 2);

    assert_eq!(tree.query((5, 7)).unwrap(), 8);
    assert_eq!(tree.query((4, 5)).unwrap(), 5);
}

#[test]
fn min_and_max_4() {
    let arr = [
        6, 5, 8, 9, 9, 9, 13, 18, 9, 11, 3, 16, 16, 2, 14, 17, 9, 9, 3, 11,
    ];
    let mut tree = SegmentTree::new(&arr, (0, arr.len() - 1));

    tree.update((18, 19), 11);
    assert_eq!(tree.query((4, 15)).unwrap(), 18);
    assert_eq!(tree.query((9, 12)).unwrap(), 16);
    tree.update((15, 19), 11);
    tree.update((0, 8), 9);
    assert_eq!(tree.query((12, 12)).unwrap(), 16);
    assert_eq!(tree.query((1, 8)).unwrap(), 9);
    assert_eq!(tree.query((4, 16)).unwrap(), 16);
    tree.update((15, 17), 9);
    tree.update((13, 16), 2);
    assert_eq!(tree.query((0, 5)).unwrap(), 9);
    assert_eq!(tree.query((0, 13)).unwrap(), 16);
    assert_eq!(tree.query((5, 18)).unwrap(), 16);
    assert_eq!(tree.query((5, 13)).unwrap(), 16);
    assert_eq!(tree.query((0, 16)).unwrap(), 16);
    assert_eq!(tree.query((14, 16)).unwrap(), 2);
    tree.update((10, 14), 14);
    assert_eq!(tree.query((5, 7)).unwrap(), 9);
    tree.update((14, 14), 14);
    tree.update((17, 18), 9);
}

#[test]
fn is_there_0() {
    assert_eq!(
        NodeSegments::is_there(
            10,
            vec![
                (8, 9),
                (3, 8),
                (4, 6),
                (1, 1),
                (5, 9),
                (6, 7),
                (8, 9),
                (0, 7),
                (1, 2),
                (2, 7)
            ],
            vec![
                (1, 7, 8),
                (4, 6, 6),
                (7, 7, 6),
                (5, 9, 3),
                (7, 8, 1),
                (1, 2, 0),
                (3, 7, 0),
                (4, 8, 6),
                (6, 9, 8)
            ]
        ),
        vec![false, true, false, true, false, false, false, true, false]
    );
}

#[test]
fn is_there_1() {
    assert_eq!(
        NodeSegments::is_there(
            10,
            vec![
                (4, 7),
                (0, 8),
                (9, 9),
                (3, 6),
                (6, 9),
                (5, 6),
                (5, 5),
                (1, 3),
                (7, 7),
                (3, 8)
            ],
            vec![
                (0, 4, 6),
                (8, 9, 8),
                (9, 9, 1),
                (2, 9, 4),
                (8, 9, 1),
                (4, 6, 5),
                (2, 8, 7)
            ]
        ),
        vec![false, false, false, true, false, false, false]
    );
}

#[test]
fn is_there_2() {
    assert_eq!(
        NodeSegments::is_there(
            10,
            vec![
                (8, 9),
                (1, 5),
                (9, 9),
                (6, 6),
                (8, 9),
                (6, 6),
                (8, 9),
                (2, 4),
                (3, 7),
                (0, 0)
            ],
            vec![
                (4, 5, 6),
                (5, 5, 2),
                (5, 5, 4),
                (8, 9, 8),
                (7, 8, 8),
                (0, 3, 7),
                (7, 9, 5),
                (6, 7, 1),
                (8, 8, 7),
                (7, 9, 6)
            ]
        ),
        vec![false, true, false, false, false, false, false, true, false, false]
    );
}

#[test]
fn is_there_3() {
    assert_eq!(
        NodeSegments::is_there(
            10,
            vec![
                (4, 6),
                (6, 7),
                (6, 9),
                (2, 6),
                (9, 9),
                (2, 6),
                (7, 8),
                (1, 7),
                (3, 4),
                (9, 9)
            ],
            vec![(2, 4, 2), (3, 6, 8), (2, 2, 3), (3, 3, 6), (5, 8, 9)]
        ),
        vec![false, false, true, false, false]
    );
}

#[test]
fn is_there_4() {
    assert_eq!(
        NodeSegments::is_there(
            10,
            vec![
                (3, 8),
                (4, 8),
                (2, 4),
                (6, 6),
                (2, 3),
                (6, 7),
                (0, 7),
                (1, 4),
                (3, 9),
                (7, 8)
            ],
            vec![(1, 5, 5), (4, 4, 8), (6, 9, 6), (6, 8, 1), (5, 5, 4)]
        ),
        vec![false, false, true, false, true]
    );
}

#[test]
fn is_there_5() {
    assert_eq!(
        NodeSegments::is_there(
            10,
            vec![
                (8, 9),
                (3, 9),
                (4, 9),
                (1, 3),
                (0, 7),
                (8, 9),
                (7, 8),
                (5, 8),
                (5, 5),
                (4, 7)
            ],
            vec![(7, 8, 8), (8, 9, 1), (1, 6, 3), (1, 7, 0)]
        ),
        vec![false, false, true, false]
    );
}

#[test]
fn is_there_6() {
    assert_eq!(
        NodeSegments::is_there(
            10,
            vec![
                (4, 6),
                (9, 9),
                (2, 8),
                (5, 7),
                (4, 8),
                (3, 6),
                (0, 6),
                (7, 8),
                (5, 9),
                (9, 9)
            ],
            vec![
                (7, 8, 2),
                (5, 7, 0),
                (0, 7, 1),
                (3, 7, 2),
                (7, 7, 4),
                (8, 8, 2)
            ]
        ),
        vec![false, false, true, false, false, false]
    );
}

#[test]
fn is_there_7() {
    assert_eq!(
        NodeSegments::is_there(
            10,
            vec![
                (0, 9),
                (1, 7),
                (6, 8),
                (9, 9),
                (6, 9),
                (5, 6),
                (8, 8),
                (2, 2),
                (2, 8),
                (4, 6)
            ],
            vec![
                (0, 7, 5),
                (8, 8, 2),
                (9, 9, 3),
                (3, 4, 2),
                (4, 7, 1),
                (3, 4, 1),
                (3, 9, 1),
                (7, 7, 5),
                (3, 9, 9)
            ]
        ),
        vec![true, false, true, false, false, false, false, true, false]
    );
}

fn clamp_brute(values: &mut Vec<i32>, lo: usize, hi: usize, v: i32) {
    for i in lo..=hi {
        if values[i] > v {
            values[i] = v;
        }
    }
}

fn max_brute(values: &Vec<i32>, lo: usize, hi: usize) -> Option<i32> {
    values[lo..=hi].iter().copied().max()
}

#[test]
fn replayed_clamps_match_brute_force() {
    let arr = [6, 5, 8, 9, 9, 9, 13, 18, 9, 11, 3, 16, 16, 2, 14, 17, 9, 9, 3, 11];
    let mut values = arr.to_vec();
    let mut tree = SegmentTree::new(&arr, (0, arr.len() - 1));
    let updates = [((18, 19), 11), ((15, 19), 11), ((0, 8), 9), ((15, 17), 9), ((13, 16), 2), ((10, 14), 14), ((3, 3), -4)];
    for &((lo, hi), v) in updates.iter() {
        tree.update((lo, hi), v);
        clamp_brute(&mut values, lo, hi, v);
        for a in 0..arr.len() {
            for b in a..arr.len() {
                assert_eq!(tree.query((a, b)), max_brute(&values, a, b));
            }
        }
    }
}

#[test]
fn query_twice_gives_same_answer() {
    let arr = [9, 4, 1, 6, 5, 10, 6, 8, 7, 4];
    let mut tree = SegmentTree::new(&arr, (0, arr.len() - 1));
    tree.update((0, 9), 7);
    let first = tree.query((2, 8));
    let second = tree.query((2, 8));
    assert_eq!(first, Some(7));
    assert_eq!(first, second);
}

#[test]
fn query_outside_tree_is_none() {
    let arr = [3, 1, 2];
    let mut tree = SegmentTree::new(&arr, (0, 2));
    assert_eq!(tree.query((5, 9)), None);
    assert_eq!(tree.query((2, 9)), Some(2));
    assert_eq!(tree.query((2, 1)), None);
}

#[test]
fn empty_range_builds_empty_tree() {
    let arr = [3, 1, 2];
    let mut tree = SegmentTree::new(&arr, (2, 1));
    assert_eq!(tree.query((0, 2)), None);
}

#[test]
fn tree_over_inner_range() {
    let arr = [100, 1, 7, 3, 100];
    let mut tree = SegmentTree::new(&arr, (1, 3));
    assert_eq!(tree.query((0, 4)), Some(7));
    tree.update((2, 2), 2);
    assert_eq!(tree.query((0, 4)), Some(3));
}

#[test]
fn single_element_tree() {
    let arr = [-5];
    let mut tree = SegmentTree::new(&arr, (0, 0));
    assert_eq!(tree.query((0, 0)), Some(-5));
    tree.update((0, 0), -9);
    assert_eq!(tree.query((0, 0)), Some(-9));
    tree.update((0, 0), 4);
    assert_eq!(tree.query((0, 0)), Some(-9));
}

#[test]
fn coverage_ignores_segment_order() {
    let segments = vec![(8, 9), (3, 8), (4, 6), (1, 1), (5, 9), (6, 7), (8, 9), (0, 7), (1, 2), (2, 7)];
    let mut reversed = segments.clone();
    reversed.reverse();
    let queries = vec![(1, 7, 8), (4, 6, 6), (7, 7, 6), (5, 9, 3), (7, 8, 1), (1, 2, 0), (3, 7, 0), (4, 8, 6), (6, 9, 8)];
    assert_eq!(
        NodeSegments::is_there(10, segments, queries.clone()),
        NodeSegments::is_there(10, reversed, queries)
    );
}

#[test]
fn coverage_above_the_top_level_is_dropped() {
    let segments = vec![(0, 1), (0, 1), (0, 1), (1, 1)];
    let queries = vec![(0, 1, 0), (0, 1, 1), (0, 1, 2), (0, 0, 2)];
    assert_eq!(NodeSegments::is_there(2, segments, queries), vec![false, false, false, false]);
}

#[test]
fn coverage_with_no_segments() {
    let queries = vec![(0, 0, 0), (0, 4, 1), (3, 4, 0)];
    assert_eq!(NodeSegments::is_there(5, vec![], queries), vec![true, false, true]);
}

#[test]
fn coverage_matches_direct_count() {
    let n = 12;
    let segments = vec![(0, 11), (2, 5), (4, 9), (4, 4), (10, 11), (3, 7), (6, 6)];
    let mut level = vec![0usize; n];
    for &(a, b) in segments.iter() {
        for p in a..=b {
            level[p] += 1;
        }
    }
    let mut queries = Vec::new();
    let mut expected = Vec::new();
    for i in 0..n {
        for j in i..n {
            for k in 0..=n {
                queries.push((i, j, k));
                expected.push((i..=j).any(|p| level[p] == k));
            }
        }
    }
    assert_eq!(NodeSegments::is_there(n, segments, queries), expected);
}

fn model_add(levels: &mut Vec<Option<i64>>, lo: usize, hi: usize, d: i64, max_k: i64) {
    for p in lo..=hi {
        levels[p] = match levels[p] {
            Some(l) if l + d >= 0 && l + d <= max_k => Some(l + d),
            _ => None,
        };
    }
}

#[test]
fn decrement_below_zero_drops_the_position() {
    let mut tree = NodeSegments::build((0, 0), 1).unwrap();
    tree.update((0, 0), -1);
    assert_eq!(tree.query((0, 0), 0), false);
    assert_eq!(tree.query((0, 0), 1), false);
    tree.update((0, 0), 1);
    assert_eq!(tree.query((0, 0), 0), false);
    assert_eq!(tree.query((0, 0), 1), false);
}

#[test]
fn increment_and_decrement_cancel() {
    let mut tree = NodeSegments::build((0, 4), 3).unwrap();
    tree.update((1, 3), 1);
    tree.update((2, 2), -1);
    assert_eq!(tree.query((2, 2), 0), true);
    assert_eq!(tree.query((1, 1), 1), true);
    assert_eq!(tree.query((2, 2), 1), false);
    assert_eq!(tree.query((0, 4), 2), false);
}

#[test]
fn pending_drop_is_not_undone_by_a_later_delta() {
    let mut tree = NodeSegments::build((0, 3), 1).unwrap();
    tree.update((0, 3), 1);
    tree.update((0, 3), 1);
    tree.update((0, 3), -1);
    for p in 0..4 {
        assert_eq!(tree.query((p, p), 0), false);
        assert_eq!(tree.query((p, p), 1), false);
    }
}

#[test]
fn signed_adds_match_pointwise_model() {
    let n = 9usize;
    let max_k = 3usize;
    let mut tree = NodeSegments::build((0, n - 1), max_k).unwrap();
    let mut levels: Vec<Option<i64>> = vec![Some(0); n];
    let ops: [((usize, usize), i32); 14] = [
        ((0, 8), 1), ((2, 5), 1), ((4, 4), -1), ((0, 3), 2), ((5, 8), -1), ((1, 7), 1),
        ((3, 6), -2), ((0, 8), 1), ((6, 6), 5), ((2, 2), -1), ((0, 4), -1), ((7, 8), 1),
        ((1, 1), 1), ((0, 8), -1),
    ];
    for &((lo, hi), d) in ops.iter() {
        tree.update((lo, hi), d);
        model_add(&mut levels, lo, hi, d as i64, max_k as i64);
        for a in 0..n {
            for b in a..n {
                for k in 0..=max_k {
                    let expected = (a..=b).any(|p| levels[p] == Some(k as i64));
                    assert_eq!(tree.query((a, b), k), expected);
                }
            }
        }
    }
}

#[test]
fn unit_adds_commute_without_drops() {
    let mut first = NodeSegments::build((0, 5), 4).unwrap();
    let mut second = NodeSegments::build((0, 5), 4).unwrap();
    first.update((0, 5), 1);
    second.update((0, 5), 1);
    first.update((1, 4), 1);
    first.update((2, 3), -1);
    second.update((2, 3), -1);
    second.update((1, 4), 1);
    for a in 0..6 {
        for b in a..6 {
            for k in 0..=4 {
                assert_eq!(first.query((a, b), k), second.query((a, b), k));
            }
        }
    }
}
