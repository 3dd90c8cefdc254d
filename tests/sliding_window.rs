use range_trees::sliding_window::{brute_force, bst, heap, linear};

#[test]
fn it_works() {
    let result = brute_force(&vec![1, 3, -1, -3, 5, 3, 6, 7], 3);
    assert_eq!(result, vec![3, 3, 5, 5, 6, 7]);

    let result = bst(&vec![1, 3, -1, -3, 5, 3, 6, 7], 3);
    assert_eq!(result, vec![3, 3, 5, 5, 6, 7]);

    let result = heap(&vec![1, 3, -1, -3, 5, 3, 6, 7], 3);
    assert_eq!(result, vec![3, 3, 5, 5, 6, 7]);

    let result = linear(&vec![1, 3, -1, -3, 5, 3, 6, 7], 3);
    assert_eq!(result, vec![3, 3, 5, 5, 6, 7]);
}

#[test]
fn window_longer_than_input_gives_nothing() {
    let v = vec![4, 2, 7];
    assert_eq!(brute_force(&v, 4), Vec::<i32>::new());
    assert_eq!(heap(&v, 4), Vec::<i32>::new());
    assert_eq!(bst(&v, 4), Vec::<i32>::new());
    assert_eq!(linear(&v, 4), Vec::<i32>::new());
}

#[test]
fn window_of_one_and_of_all() {
    let v = vec![4, -2, 7, 7, -9];
    for f in [brute_force, heap, bst, linear] {
        assert_eq!(f(&v, 1), v.clone());
        assert_eq!(f(&v, 5), vec![7]);
    }
}

#[test]
fn all_four_agree_on_repeated_values() {
    let v = vec![5, 5, 1, 5, 3, 3, 8, 8, 2, 2, 9, -1];
    let expected = vec![5, 5, 5, 5, 8, 8, 8, 8, 9, 9];
    for f in [brute_force, heap, bst, linear] {
        assert_eq!(f(&v, 3), expected);
    }
}
