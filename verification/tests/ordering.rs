use lad::order::stable_order;

#[test]
fn positions_come_by_ascending_key() {
    assert_eq!(stable_order(&vec![30, 10, 20]), vec![1, 2, 0]);
}

#[test]
fn equal_keys_keep_their_order() {
    assert_eq!(stable_order(&vec![5, 1, 5, 1, 5]), vec![1, 3, 0, 2, 4]);
}

#[test]
fn negative_keys_come_first() {
    assert_eq!(stable_order(&vec![0, -1, i64::MAX, i64::MIN]), vec![3, 1, 0, 2]);
}

#[test]
fn no_keys_give_no_positions() {
    assert_eq!(stable_order(&Vec::new()), Vec::<usize>::new());
}

#[test]
fn sorted_keys_keep_their_positions() {
    assert_eq!(stable_order(&vec![1, 2, 2, 3]), vec![0, 1, 2, 3]);
}

#[test]
fn descending_keys_are_reversed() {
    assert_eq!(stable_order(&vec![4, 3, 2, 1]), vec![3, 2, 1, 0]);
}
