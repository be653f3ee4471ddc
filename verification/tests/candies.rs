use ioi_solutions::candies::segtree::SegTree;
use ioi_solutions::candies::solve;

fn simulate(c: &[i32], days: &[(i32, i32, i32)]) -> Vec<i32> {
    let mut s = vec![0i64; c.len()];
    for &(l, r, v) in days {
        for i in l..=r {
            let i = i as usize;
            s[i] = (s[i] + v as i64).max(0).min(c[i] as i64);
        }
    }
    s.into_iter().map(|x| x as i32).collect()
}

#[test]
fn candies_sample() {
    assert_eq!(solve(vec![10, 15, 13], vec![(0, 2, 20), (0, 1, -11)]), vec![0, 4, 13]);
}

#[test]
fn candies_no_days() {
    assert_eq!(solve(vec![3, 4], vec![]), vec![0, 0]);
}

#[test]
fn candies_zero_capacity() {
    assert_eq!(solve(vec![0, 5], vec![(0, 1, 7), (0, 0, -2)]), vec![0, 5]);
}

#[test]
fn candies_match_simulation() {
    let c = vec![5, 1, 8, 3, 10, 2];
    let days = vec![
        (0, 5, 4),
        (1, 3, -2),
        (2, 4, 7),
        (0, 2, -5),
        (3, 5, 3),
        (1, 1, 9),
        (0, 5, -1),
        (4, 5, 6),
    ];
    assert_eq!(solve(c.clone(), days.clone()), simulate(&c, &days));
}

#[test]
fn segtree_add_and_find_point() {
    let mut t = SegTree::new(4);
    t.add(1, 4, 5);
    t.add(3, 4, -7);
    // values: [0, 5, 5, -2, -2]
    assert_eq!(t.find_point(7), (5, -2, 5));
    assert_eq!(t.find_point(0), (-2, -2, -2));
    assert_eq!(t.find_point(100), (0, -2, 5));
}

#[test]
fn candies_each_box_alone() {
    let c = vec![10, 15, 13, 4, 7];
    let days = vec![(0, 2, 20), (1, 4, -11), (3, 3, 6), (0, 4, -3), (2, 4, 9)];
    let all = solve(c.clone(), days.clone());
    for i in 0..c.len() {
        let own: Vec<(i32, i32, i32)> = days
            .iter()
            .filter(|d| d.0 as usize <= i && i <= d.1 as usize)
            .map(|d| (0, 0, d.2))
            .collect();
        let alone = solve(vec![c[i]], own);
        assert_eq!(all[i], alone[0]);
    }
}

#[test]
fn segtree_find_point_after_shift() {
    let mut t = SegTree::new(4);
    t.add(1, 4, 5);
    t.add(3, 4, -7);
    let before = t.find_point(7);
    t.add(0, 4, 12);
    let after = t.find_point(7);
    assert_eq!(after, (before.0 + 12, before.1 + 12, before.2 + 12));
}
