use ioi_solutions::mushrooms::bits::{init_bits_problem, solve_bits_problem, sorted};
use ioi_solutions::mushrooms::solver::{solve, solve_92, Action, Solver};
use ioi_solutions::mushrooms::types::{a_if, Known, Type};

/// What the machine answers: neighbours of different species.
fn answer(species: &[bool], q: &[usize]) -> usize {
    q.windows(2).filter(|w| species[w[0]] != species[w[1]]).count()
}

/// Runs a solver against a machine for `species`; checks each query; returns the
/// answer and the number of queries.
fn drive(mut solver: Solver, species: &[bool]) -> (usize, usize) {
    let n = species.len();
    let mut queries = 0;
    loop {
        match solver.next() {
            Action::Query(q) => {
                assert!(q.len() >= 2);
                let mut seen = vec![false; n];
                for &x in &q {
                    assert!(x < n);
                    assert!(!seen[x]);
                    seen[x] = true;
                }
                queries += 1;
                solver.receive(answer(species, &q));
            }
            Action::Answer(a) => return (a, queries),
        }
    }
}

fn random_species(n: usize, seed: &mut u64) -> Vec<bool> {
    (0..n)
        .map(|i| {
            *seed = seed.wrapping_mul(6364136223846793005).wrapping_add(1442695040888963407);
            i == 0 || (*seed >> 40) % 3 != 0
        })
        .collect()
}

#[test]
fn mushrooms_two_mushrooms() {
    assert_eq!(drive(solve(2), &[true, false]), (1, 1));
    assert_eq!(drive(solve(2), &[true, true]), (2, 1));
}

#[test]
fn mushrooms_three_mushrooms() {
    assert_eq!(drive(solve(3), &[true, false, true]).0, 2);
    assert_eq!(drive(solve_92(3), &[true, false, false]).0, 1);
}

#[test]
fn mushrooms_full_strategy_counts() {
    let mut seed = 1u64;
    for n in [4usize, 5, 10, 57, 200, 1000, 2345] {
        let species = random_species(n, &mut seed);
        let expected = species.iter().filter(|&&s| s).count();
        assert_eq!(drive(solve(n), &species).0, expected);
    }
}

#[test]
fn mushrooms_simple_strategy_counts() {
    let mut seed = 2u64;
    for n in [4usize, 5, 6, 149, 151, 300, 1234] {
        let species = random_species(n, &mut seed);
        let expected = species.iter().filter(|&&s| s).count();
        assert_eq!(drive(solve_92(n), &species).0, expected);
    }
}

#[test]
fn mushrooms_all_one_species() {
    let species = vec![true; 500];
    assert_eq!(drive(solve(500), &species).0, 500);
    let mut other = vec![false; 500];
    other[0] = true;
    assert_eq!(drive(solve(500), &other).0, 1);
}

#[test]
fn mushrooms_full_strategy_uses_fewer_queries() {
    let mut seed = 3u64;
    let species = random_species(20000, &mut seed);
    let expected = species.iter().filter(|&&s| s).count();
    let (a, full) = drive(solve(20000), &species);
    assert_eq!(a, expected);
    let (b, simple) = drive(solve_92(20000), &species);
    assert_eq!(b, expected);
    assert!(full <= simple);
    assert!(full <= 226);
}

#[test]
fn a_if_and_xor() {
    assert!(a_if(true) == Type::A);
    assert!(a_if(false) == Type::B);
    assert!(Type::A.xor(true) == Type::B);
    assert!(Type::A.xor(false) == Type::A);
    assert!(Type::B.xor(true) == Type::A);
    assert!(Type::B.xor(false) == Type::B);
    assert_eq!(Type::A.index(), 0);
    assert_eq!(Type::B.index(), 1);
}

#[test]
fn known_lists_and_queries() {
    let mut k = Known::new();
    assert_eq!(k.max_query(), 1);
    k.push(Type::B, 1);
    k.push(Type::B, 2);
    assert_eq!(k.max_query(), 2);
    let (q, freq) = k.build_query(&vec![5], 6);
    assert!(freq == Type::B);
    assert_eq!(q, vec![1, 5, 2, 6]);
    // Answer 3: mushroom 5 differs from the B list, and so does 6.
    let (count, t) = k.record(freq, 1, 6, 3);
    assert_eq!(count, 1);
    assert!(t == Type::A);
    assert_eq!(k.a, vec![0, 6]);
}

#[test]
fn sorted_orders_by_length() {
    let qs = vec![vec![1, 2, 3], vec![0], vec![4, 5], vec![6]];
    assert_eq!(sorted(&qs), vec![1, 3, 2, 0]);
}

#[test]
fn init_bits_problem_sizes() {
    let bp = init_bits_problem();
    assert_eq!(bp.len(), 10);
    let ns: Vec<usize> = bp.iter().map(|p| p.n).collect();
    assert_eq!(&ns[..5], &[1, 2, 5, 13, 33]);
    for (m, p) in bp.iter().enumerate() {
        assert_eq!(p.queries.len(), 1 << m);
        assert_eq!(p.queries[p.queries.len() - 1], (0..p.n).collect::<Vec<usize>>());
        assert!(p.min_known >= 3);
    }
    assert_eq!(bp[0].min_known, 3);
    assert_eq!(bp[1].min_known, 4);
    assert_eq!(bp[2].min_known, 8);
}

#[test]
fn solve_bits_problem_recovers_bits() {
    let bp = init_bits_problem();
    let mut seed = 5u64;
    for m in 0..10 {
        for _ in 0..3 {
            let bits: Vec<bool> = (0..bp[m].n)
                .map(|_| {
                    seed = seed.wrapping_mul(6364136223846793005).wrapping_add(1442695040888963407);
                    (seed >> 41) % 2 == 1
                })
                .collect();
            let results: Vec<usize> =
                bp[m].queries.iter().map(|q| q.iter().filter(|&&x| bits[x]).count()).collect();
            assert_eq!(solve_bits_problem(&bp, m, results), bits);
        }
    }
}

#[test]
fn sorted_twice_keeps_the_order() {
    let queries: Vec<Vec<usize>> = vec![vec![1, 2, 3], vec![4], vec![], vec![5, 6], vec![7]];
    let order = sorted(&queries);
    assert_eq!(order, vec![2, 1, 4, 3, 0]);
    let by_length: Vec<Vec<usize>> = order.iter().map(|&k| queries[k].clone()).collect();
    assert_eq!(sorted(&by_length), vec![0, 1, 2, 3, 4]);
}
