use ioi_solutions::dungeons::solve;

fn simulate(s: &[i32], p: &[i32], w: &[i32], l: &[i32], x: i32, z: i32) -> i64 {
    let n = s.len() as i32;
    let (mut x, mut z) = (x, z as i64);
    while x != n {
        let i = x as usize;
        if z >= s[i] as i64 {
            z += s[i] as i64;
            x = w[i];
        } else {
            z += p[i] as i64;
            x = l[i];
        }
    }
    z
}

#[test]
fn dungeons_sample() {
    let s = vec![2, 6, 9];
    let p = vec![3, 1, 2];
    let w = vec![2, 2, 3];
    let l = vec![1, 0, 1];
    assert_eq!(solve(3, s, p, w, l, vec![(0, 1), (2, 3)]), vec![24, 25]);
}

#[test]
fn dungeons_start_at_the_end() {
    assert_eq!(solve(1, vec![5], vec![1], vec![1], vec![0], vec![(1, 7)]), vec![7]);
}

#[test]
fn dungeons_match_simulation() {
    // A small deterministic pseudo-random game.
    let mut seed: u64 = 12345;
    let mut next = |m: u64| {
        seed = seed.wrapping_mul(6364136223846793005).wrapping_add(1442695040888963407);
        (seed >> 33) % m
    };
    for _ in 0..20 {
        let n = 1 + next(8) as usize;
        let mut s = Vec::new();
        let mut p = Vec::new();
        let mut w = Vec::new();
        let mut l = Vec::new();
        for i in 0..n {
            s.push(1 + next(30) as i32);
            p.push(1 + next(30) as i32);
            // winning moves forward
            w.push((i + 1 + next((n - i) as u64) as usize) as i32);
            l.push(next(n as u64 + 1) as i32);
        }
        let mut queries = Vec::new();
        for _ in 0..10 {
            queries.push((next(n as u64 + 1) as i32, 1 + next(40) as i32));
        }
        let expected: Vec<i64> =
            queries.iter().map(|&(x, z)| simulate(&s, &p, &w, &l, x, z)).collect();
        assert_eq!(solve(n as i32, s, p, w, l, queries), expected);
    }
}
