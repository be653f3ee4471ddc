use ioi_solutions::fish::solve;

/// Best total weight over all pier lengths (0 means no pier), by trying them all.
fn brute(n: i64, fish: &[(i64, i64, i64)]) -> i64 {
    let n = n as usize;
    let mut len = vec![0usize; n];
    let mut best = 0;
    loop {
        let mut total = 0;
        for &(x, y, w) in fish {
            let (x, y) = (x as usize, y as usize);
            let covered = |c: usize| len[c] > y;
            if !covered(x) && ((x > 0 && covered(x - 1)) || (x + 1 < n && covered(x + 1))) {
                total += w;
            }
        }
        best = best.max(total);
        let mut c = 0;
        while c < n && len[c] == n {
            len[c] = 0;
            c += 1;
        }
        if c == n {
            return best;
        }
        len[c] += 1;
    }
}

#[test]
fn fish_sample() {
    assert_eq!(solve(5, vec![(0, 2, 5), (1, 1, 2), (4, 4, 1), (3, 3, 3)]), 8);
}

#[test]
fn fish_alternate_columns() {
    let fish = vec![(0, 0, 10), (2, 0, 10), (4, 0, 10)];
    assert_eq!(solve(5, fish.clone()), brute(5, &fish));
}

#[test]
fn fish_seven_catfish() {
    let fish = vec![(0, 0, 10), (1, 2, 20), (2, 2, 30), (3, 1, 50), (4, 2, 70), (4, 4, 20), (5, 3, 40)];
    assert_eq!(solve(6, fish.clone()), brute(6, &fish));
}

#[test]
fn fish_no_fish() {
    assert_eq!(solve(3, vec![]), 0);
}

#[test]
fn fish_single_column() {
    assert_eq!(solve(1, vec![(0, 0, 7)]), 0);
}

#[test]
fn fish_match_brute_force() {
    let mut seed: u64 = 7;
    let mut next = |m: u64| {
        seed = seed.wrapping_mul(6364136223846793005).wrapping_add(1442695040888963407);
        (seed >> 33) % m
    };
    for _ in 0..30 {
        let n = 1 + next(5) as i64;
        let mut cells = std::collections::BTreeSet::new();
        let m = next(8);
        for _ in 0..m {
            cells.insert((next(n as u64) as i64, next(n as u64) as i64));
        }
        let fish: Vec<(i64, i64, i64)> =
            cells.into_iter().map(|(x, y)| (x, y, 1 + next(100) as i64)).collect();
        assert_eq!(solve(n, fish.clone()), brute(n, &fish));
    }
}

#[test]
fn fish_empty_column_between_piers() {
    // The best placement leaves column 2 empty between two piers of length 3.
    let fish = vec![(0, 0, 100), (2, 0, 50), (2, 1, 10), (2, 2, 10)];
    assert_eq!(solve(4, fish.clone()), 170);
    assert_eq!(brute(4, &fish), 170);
}

#[test]
fn fish_same_cell_twice() {
    let fish = vec![(1, 0, 4), (1, 0, 6), (0, 1, 3)];
    assert_eq!(solve(3, fish.clone()), brute(3, &fish));
}

#[test]
fn fish_order_of_list_does_not_matter() {
    let fish = vec![(0, 2, 5), (1, 1, 2), (4, 4, 1), (3, 3, 3)];
    let mut reversed = fish.clone();
    reversed.reverse();
    assert_eq!(solve(5, fish), solve(5, reversed));
}

#[test]
fn fish_more_catfish_never_lower_the_catch() {
    let fish = vec![(0, 2, 5), (1, 1, 2), (4, 4, 1), (3, 3, 3)];
    let base = solve(5, fish.clone());
    let mut more = fish;
    more.push((2, 0, 4));
    assert!(solve(5, more) >= base);
}

#[test]
fn fish_heavier_catfish_never_lower_the_catch() {
    let fish = vec![(0, 2, 5), (1, 1, 2), (4, 4, 1), (3, 3, 3)];
    let base = solve(5, fish.clone());
    for j in 0..fish.len() {
        let mut heavier = fish.clone();
        heavier[j].2 += 7;
        assert!(solve(5, heavier) >= base);
    }
}
