use qf_funding::isqrt::sqrt_u128;
use qf_funding::ledger::{aggregate_by_contributor, contributions_for_project, contributions_for_round};
use qf_funding::matching::{
    calculate_project_ideal_match, calculate_project_match, find_optimal_alpha, mul_div_below,
};
use qf_funding::{Contribution, Identity, QfError};

fn who(n: u8) -> Identity {
    let mut bytes = [0u8; 20];
    bytes[0] = n;
    Identity { bytes }
}

fn c(n: u8, amount: u128, project_id: u32, round_id: u32) -> Contribution {
    Contribution { amount, contributor: who(n), project_id, round_id, timestamp: 0 }
}

#[test]
fn sqrt_small_values() {
    let expected = [
        (0u128, 0u128), (1, 1), (2, 1), (3, 1), (4, 2), (8, 2), (9, 3), (15, 3), (16, 4),
        (24, 4), (25, 5), (99, 9), (100, 10), (101, 10), (120, 10), (121, 11),
    ];
    for (x, r) in expected {
        assert_eq!(sqrt_u128(x), r, "sqrt of {}", x);
    }
}

#[test]
fn sqrt_bounds_hold() {
    for x in 0u128..20000 {
        let r = sqrt_u128(x);
        assert!(r * r <= x && x < (r + 1) * (r + 1), "sqrt of {}", x);
    }
    let big = [u128::MAX, u128::MAX - 1, 1u128 << 100, (1u128 << 64) * (1u128 << 63) + 12345];
    for x in big {
        let r = sqrt_u128(x);
        assert!(r.checked_mul(r).unwrap() <= x);
        assert!((r + 1).checked_mul(r + 1).map_or(true, |v| v > x));
    }
    assert_eq!(sqrt_u128(u128::MAX), u64::MAX as u128);
    assert_eq!(sqrt_u128(1_000_000_000_000_000_000_000_000_000_000_000_000), 1_000_000_000_000_000_000);
}

#[test]
fn alpha_two_projects() {
    assert_eq!(find_optimal_alpha(&vec![69, 66], true, 100), Ok(7407));
    let m1 = calculate_project_match(69, 7407);
    let m2 = calculate_project_match(66, 7407);
    assert_eq!(m1, 51);
    assert_eq!(m2, 48);
    assert!(m1 + m2 <= 100);
}

#[test]
fn alpha_edge_cases() {
    assert_eq!(find_optimal_alpha(&vec![69, 66], true, 0), Ok(0));
    assert_eq!(find_optimal_alpha(&vec![69, 66], false, 100), Ok(0));
    assert_eq!(find_optimal_alpha(&vec![0, 0], true, 100), Ok(10000));
    assert_eq!(find_optimal_alpha(&vec![60, 40], true, 100), Ok(10000));
    assert_eq!(find_optimal_alpha(&vec![], true, 100), Ok(10000));
    assert_eq!(find_optimal_alpha(&vec![u128::MAX, 1], true, 100), Err(QfError::Overflow));
    // a pool too large to multiply by 10000 in 128 bits
    let pool = u128::MAX / 2;
    assert_eq!(find_optimal_alpha(&vec![u128::MAX], true, pool), Ok(4999));
}

#[test]
fn mul_div_exact() {
    assert_eq!(mul_div_below(100, 10000, 135), 7407);
    assert_eq!(mul_div_below(0, 10000, 7), 0);
    assert_eq!(mul_div_below(u128::MAX - 1, 10000, u128::MAX), 9999);
    // MAX is divisible by 3: exactly 3 * MAX / MAX
    assert_eq!(mul_div_below(u128::MAX / 3, 9, u128::MAX), 3);
    assert_eq!(mul_div_below(u128::MAX / 3 - 1, 9, u128::MAX), 2);
    assert_eq!(mul_div_below(5, u32::MAX, 7), (5u128 * u32::MAX as u128) / 7);
}

#[test]
fn project_match_exact() {
    assert_eq!(calculate_project_match(49, 10000), 49);
    assert_eq!(calculate_project_match(49, 8771), 42);
    assert_eq!(calculate_project_match(16, 8771), 14);
    assert_eq!(calculate_project_match(12345, 0), 0);
    assert_eq!(calculate_project_match(u128::MAX, 10000), u128::MAX);
    assert_eq!(calculate_project_match(u128::MAX, 5000), u128::MAX / 2);
}

#[test]
fn ideal_match_groups_by_contributor() {
    let split = vec![c(1, 2, 1, 1), c(2, 9, 1, 1), c(1, 2, 1, 1)];
    let whole = vec![c(1, 4, 1, 1), c(2, 9, 1, 1)];
    // (2 + 3)^2 either way
    assert_eq!(calculate_project_ideal_match(&split), Ok(25));
    assert_eq!(calculate_project_ideal_match(&whole), Ok(25));
    assert_eq!(calculate_project_ideal_match(&vec![]), Ok(0));
    let seven = vec![c(1, 5, 1, 1), c(2, 3, 1, 1), c(3, 2, 1, 1), c(4, 1, 1, 1), c(5, 1, 1, 1), c(6, 1, 1, 1)];
    assert_eq!(calculate_project_ideal_match(&seven), Ok(49));
}

#[test]
fn ideal_match_overflow() {
    let two = vec![c(1, u128::MAX / 2, 1, 1), c(2, u128::MAX / 2, 1, 1)];
    // 2 * floor(sqrt(MAX/2)) squared exceeds 128 bits
    assert_eq!(calculate_project_ideal_match(&two), Err(QfError::Overflow));
}

#[test]
fn aggregation_and_filters() {
    let ledger = vec![c(1, 3, 1, 1), c(2, 4, 2, 1), c(1, 5, 1, 1), c(3, 6, 1, 2), c(2, 7, 1, 1)];
    let r1 = contributions_for_round(&ledger, 1);
    assert_eq!(r1.len(), 4);
    let p1 = contributions_for_project(&r1, 1);
    assert_eq!(p1, vec![c(1, 3, 1, 1), c(1, 5, 1, 1), c(2, 7, 1, 1)]);
    assert_eq!(aggregate_by_contributor(&p1), vec![(who(1), 8), (who(2), 7)]);
    assert_eq!(aggregate_by_contributor(&vec![]), vec![]);
}
