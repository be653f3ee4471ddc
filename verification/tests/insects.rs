use ioi_solutions::insects::run;

fn rarest(types: &[i32]) -> usize {
    let mut counts = std::collections::BTreeMap::new();
    for &t in types {
        *counts.entry(t).or_insert(0usize) += 1;
    }
    *counts.values().min().unwrap()
}

#[test]
fn insects_sample() {
    let (result, _) = run(vec![5, 8, 9, 5, 9, 9]);
    assert_eq!(result, 1);
}

#[test]
fn insects_single_type() {
    let (result, _) = run(vec![4, 4, 4, 4]);
    assert_eq!(result, 4);
}

#[test]
fn insects_all_different() {
    let (result, _) = run(vec![1, 2, 3, 4, 5]);
    assert_eq!(result, 1);
}

#[test]
fn insects_one_insect() {
    let (result, calls) = run(vec![7]);
    assert_eq!(result, 1);
    assert_eq!(calls, 1);
}

#[test]
fn insects_match_counting() {
    let mut seed: u64 = 99;
    let mut next = |m: u64| {
        seed = seed.wrapping_mul(6364136223846793005).wrapping_add(1442695040888963407);
        (seed >> 33) % m
    };
    for _ in 0..40 {
        let n = 1 + next(40) as usize;
        let kinds = 1 + next(6) as i32;
        let types: Vec<i32> = (0..n).map(|_| next(kinds as u64) as i32).collect();
        let (result, calls) = run(types.clone());
        assert_eq!(result, rarest(&types));
        assert!(calls >= 1);
    }
}

#[test]
fn insects_every_insect_moved_inside_at_least_once() {
    for types in [vec![5, 8, 9, 5, 9, 9], vec![1, 1, 2, 2, 3, 3, 3], vec![6; 9]] {
        let n = types.len() as i32;
        let (_, calls) = run(types);
        assert!(calls >= n);
    }
}
