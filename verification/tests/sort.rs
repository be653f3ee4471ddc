use ioi_solutions::sort::sort_indices_by_key;

#[test]
fn sort_by_key_is_stable() {
    let keys = vec![3, 1, 2, 1, 3, 0];
    assert_eq!(sort_indices_by_key(&keys), vec![5, 1, 3, 2, 0, 4]);
}

#[test]
fn sort_empty() {
    assert_eq!(sort_indices_by_key(&vec![]), Vec::<usize>::new());
}

#[test]
fn sort_negative_keys() {
    let keys = vec![-5, 10, -7, 0];
    assert_eq!(sort_indices_by_key(&keys), vec![2, 0, 3, 1]);
}
