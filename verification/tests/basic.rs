use kraitchik::arith::{ceil_sqrt, gcd, mul_mod, pow_mod, sub_u32};
use kraitchik::basis::PRIMES;
use kraitchik::congruence::build_congruence;
use kraitchik::kraitchik::{kraitchik, FactorError};
use kraitchik::relation::Relation;
use kraitchik::search::find_square_subset;
use kraitchik::trial::trial_division;

/// Rebuild sign * product of PRIMES[i]^e[i] from an exponent vector.
fn reconstruct(e: &[u8]) -> i128 {
    let mut acc: i128 = 1;
    for (i, &p) in PRIMES.iter().enumerate().skip(1) {
        for _ in 0..e[i] {
            acc *= p as i128;
        }
    }
    if e[0] % 2 == 1 {
        acc = -acc;
    }
    acc
}

fn slot_of(p: i32) -> usize {
    PRIMES.iter().position(|&q| q == p).unwrap()
}

#[test]
fn tests() {
    let nums = [2, 20, 89, 42, 77, 1000, -9, 9979];
    for i in nums {
        println!("{:?}", trial_division(i));
    }

    let _nums_1 = [481, 793, 949, 1079, 1261, 9913, 9979];
    let nums_2 = [9913];
    for i in nums_2 {
        let (a, b) = kraitchik(i).unwrap();
        println!("{:?}", (a, b, a * b));
    }
}

#[test]
fn trial_division_boundary() {
    // 2
    let e = trial_division(2);
    assert_eq!(e[0], 0);
    assert_eq!(e[slot_of(2)], 1);
    assert_eq!(reconstruct(&e), 2);
    // 20 = 2^2 * 5
    let e = trial_division(20);
    assert_eq!(e[0], 0);
    assert_eq!(e[slot_of(2)], 2);
    assert_eq!(e[slot_of(5)], 1);
    assert_eq!(reconstruct(&e), 20);
    // 89 is prime and inside the basis
    let e = trial_division(89);
    assert_eq!(e[slot_of(89)], 1);
    assert_eq!(reconstruct(&e), 89);
    // 42 = 2 * 3 * 7
    let e = trial_division(42);
    assert_eq!(e[slot_of(2)], 1);
    assert_eq!(e[slot_of(3)], 1);
    assert_eq!(e[slot_of(7)], 1);
    assert_eq!(reconstruct(&e), 42);
    // 77 = 7 * 11
    let e = trial_division(77);
    assert_eq!(e[slot_of(7)], 1);
    assert_eq!(e[slot_of(11)], 1);
    assert_eq!(reconstruct(&e), 77);
    // 1000 = 2^3 * 5^3
    let e = trial_division(1000);
    assert_eq!(e[slot_of(2)], 3);
    assert_eq!(e[slot_of(5)], 3);
    assert_eq!(reconstruct(&e), 1000);
    // -9: sign slot set, 3^2
    let e = trial_division(-9);
    assert_eq!(e[0], 1);
    assert_eq!(e[slot_of(3)], 2);
    assert_eq!(reconstruct(&e), -9);
}

#[test]
fn trial_division_round_trip_smooth() {
    // inputs whose magnitude is a product of basis primes only
    for n in [2, 20, 42, 77, 1000, -9, 9979, 9913, -997, 994009] {
        let e = trial_division(n);
        assert_eq!(reconstruct(&e), n as i128);
    }
}

#[test]
fn trial_division_non_smooth_residual() {
    // 1009 is prime and larger than the basis bound 997
    let e = trial_division(1009);
    let r = reconstruct(&e);
    assert_eq!(r, 1);
    assert!(r < 1009);
    // 2018 = 2 * 1009: only the 2 is representable
    let e = trial_division(2018);
    let r = reconstruct(&e);
    assert_eq!(r, 2);
    assert_eq!(2018 % r, 0);
    assert!(r < 2018);
    // -3027 = -(3 * 1009)
    let e = trial_division(-3027);
    let r = reconstruct(&e);
    assert_eq!(r, -3);
    assert_eq!(e[0], 1);
}

#[test]
fn factorize_9979() {
    let (a, b) = kraitchik(9979).unwrap();
    assert_eq!(a as i64 * b as i64, 9979);
    assert!(a > 1 && a < 9979);
    assert!(b > 1 && b < 9979);
    assert_eq!(9979 % a, 0);
    assert_eq!(9979 % b, 0);
}

#[test]
fn factorize_9913() {
    let (a, b) = kraitchik(9913).unwrap();
    assert_eq!(a as i64 * b as i64, 9913);
    assert!(a > 1 && a < 9913);
    assert!(b > 1 && b < 9913);
}

#[test]
fn factorize_deterministic() {
    let first = kraitchik(9913);
    let second = kraitchik(9913);
    assert_eq!(first, second);
    let first = kraitchik(9979);
    let second = kraitchik(9979);
    assert_eq!(first, second);
}

#[test]
fn bad_subset_not_reselected() {
    // a single relation with an all-zero (hence all-even) vector
    let rels = vec![Relation { x: 5, exps: vec![0u8; 169] }];
    let bad: Vec<Vec<Relation>> = Vec::new();
    let found = find_square_subset(&rels, &bad).unwrap();
    assert_eq!(found.len(), 1);
    assert_eq!(found[0].x, 5);
    // once that exact subset is recorded bad, it is never selected again
    let bad = vec![found];
    assert!(find_square_subset(&rels, &bad).is_none());
}

#[test]
fn search_picks_proper_subset() {
    // only the strict subset {x = 5} is even: the full set and {x = 7} are
    // odd, so the enumeration must yield proper subsets to find it
    let mut odd = vec![0u8; 169];
    odd[1] = 1;
    let rels = vec![
        Relation { x: 7, exps: odd },
        Relation { x: 5, exps: vec![0u8; 169] },
    ];
    let bad: Vec<Vec<Relation>> = Vec::new();
    let found = find_square_subset(&rels, &bad).unwrap();
    assert_eq!(found.len(), 1);
    assert_eq!(found[0].x, 5);
}

#[test]
fn congruence_scenario() {
    // n = 21, x = 5: Q(5) = 4 = 2^2, an even singleton subset
    let subset = vec![Relation { x: 5, exps: trial_division(4) }];
    let (u, v) = build_congruence(&subset, 21);
    assert_eq!((u, v), (5, 2));
    // congruence validity and nontriviality
    assert_eq!((u * u) % 21, (v * v) % 21);
    assert_ne!(u % 21, v % 21);
    assert_ne!((u + v) % 21, 0);
    // factor extraction: both gcds are proper factors here
    let a = gcd(sub_u32(u, v), 21);
    let b = gcd((u + v) as i32, 21);
    assert_eq!((a, b), (3, 7));
    assert_eq!(a * b, 21);
}

#[test]
fn error_perfect_square() {
    assert_eq!(kraitchik(9), Err(FactorError::PerfectSquare));
    assert_eq!(kraitchik(49), Err(FactorError::PerfectSquare));
}

#[test]
fn error_overflow_cursor() {
    // 3 is prime: no nontrivial congruence exists, and the downward cursor
    // runs off the end of its range
    assert_eq!(kraitchik(3), Err(FactorError::Overflow));
}

#[test]
fn arithmetic_helpers() {
    assert_eq!(gcd(12, 18), 6);
    assert_eq!(gcd(-12, 18), 6);
    assert_eq!(gcd(5, 0), 5);
    assert_eq!(gcd(0, 5), 5);
    assert_eq!(sub_u32(3, 10), -7);
    assert_eq!(sub_u32(10, 3), 7);
    assert_eq!(ceil_sqrt(9979), 100);
    assert_eq!(ceil_sqrt(100), 10);
    assert_eq!(ceil_sqrt(2), 2);
    assert_eq!(ceil_sqrt(1), 1);
    assert_eq!(mul_mod(123456, 654321, 9979), (123456u64 * 654321u64 % 9979) as u32);
    assert_eq!(pow_mod(7, 5, 9979), 16807 % 9979);
    assert_eq!(pow_mod(2, 0, 17), 1);
}
