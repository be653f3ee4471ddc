use ioi_solutions::euclid::euclid;

#[test]
fn test_euclid() {
    assert_eq!(euclid(5, 3), (-1, 2, 1));
    assert_eq!(euclid(10, 4), (1, -2, 2));
    assert_eq!(euclid(10, 10), (1, 0, 10));
}

#[test]
fn euclid_bezout_identity_holds() {
    for a in -30i64..=30 {
        for b in -30i64..=30 {
            let (x, y, d) = euclid(a, b);
            assert_eq!(a * x + b * y, d);
            if d != 0 {
                assert_eq!(a % d, 0);
                assert_eq!(b % d, 0);
            } else {
                assert_eq!((a, b), (0, 0));
            }
        }
    }
}

#[test]
fn euclid_zero_arguments() {
    assert_eq!(euclid(0, 7), (0, 1, 7));
    assert_eq!(euclid(0, 0), (1, 0, 0));
    assert_eq!(euclid(7, 0), (1, 0, 7));
}

#[test]
fn euclid_negative_arguments() {
    let (x, y, d) = euclid(-12, 18);
    assert_eq!(-12 * x + 18 * y, d);
    assert_eq!(d.abs(), 6);
}

#[test]
fn euclid_large_coprime_values() {
    let a = 1_000_000_007i64;
    let b = 998_244_353i64;
    let (x, y, d) = euclid(a, b);
    assert_eq!(d, 1);
    assert_eq!((a as i128) * (x as i128) + (b as i128) * (y as i128), 1);
}

#[test]
fn euclid_base_cases_at_the_smallest_value() {
    assert_eq!(euclid(i64::MIN, i64::MIN), (1, 0, i64::MIN));
    assert_eq!(euclid(0, i64::MIN), (0, 1, i64::MIN));
}
