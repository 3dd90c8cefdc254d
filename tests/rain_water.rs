use range_trees::rain_water::trap;

#[test]
fn trap_elevation_map() {
    let result = trap(vec![0, 1, 0, 2, 1, 0, 1, 3, 2, 1, 2, 1]);
    assert_eq!(result, 6);
}

#[test]
fn single_bar_holds_nothing() {
    assert_eq!(trap(vec![5]), 0);
}

#[test]
fn valley_holds_water() {
    assert_eq!(trap(vec![4, 2, 0, 3, 2, 5]), 9);
    assert_eq!(trap(vec![3, 0, 3]), 3);
    assert_eq!(trap(vec![1, 2, 3]), 0);
}
