use factorize::factor::{factor, trial_division, Factor, FactorError};
use std::time::Duration;

fn is_prime(n: u64) -> bool {
    if n < 2 {
        return false;
    }
    let mut d = 2;
    while d * d <= n {
        if n % d == 0 {
            return false;
        }
        d += 1;
    }
    true
}

#[test]
fn zero_and_one_are_refused_without_deadline() {
    assert_eq!(factor(0, None), Err(FactorError::NeitherPrimeNorComposite(0)));
    assert_eq!(factor(1, None), Err(FactorError::NeitherPrimeNorComposite(1)));
    assert_eq!(trial_division(0), Err(FactorError::NeitherPrimeNorComposite(0)));
    assert_eq!(trial_division(1), Err(FactorError::NeitherPrimeNorComposite(1)));
}

#[test]
fn zero_and_one_are_refused_with_deadline() {
    let instant = Some(Duration::ZERO);
    let long = Some(Duration::from_secs(3600));
    assert_eq!(factor(0, instant), Err(FactorError::NeitherPrimeNorComposite(0)));
    assert_eq!(factor(1, instant), Err(FactorError::NeitherPrimeNorComposite(1)));
    assert_eq!(factor(0, long), Err(FactorError::NeitherPrimeNorComposite(0)));
    assert_eq!(factor(1, long), Err(FactorError::NeitherPrimeNorComposite(1)));
}

#[test]
fn two_is_prime() {
    assert_eq!(factor(2, None), Ok(Factor::Prime(2)));
    assert_eq!(trial_division(2), Ok(Factor::Prime(2)));
}

#[test]
fn two_is_prime_whatever_the_deadline() {
    assert_eq!(factor(2, Some(Duration::ZERO)), Ok(Factor::Prime(2)));
}

#[test]
fn twelve_has_a_repeated_factor() {
    assert_eq!(factor(12, None), Ok(Factor::Composite(vec![2, 2, 3])));
    assert_eq!(trial_division(12), Ok(Factor::Composite(vec![2, 2, 3])));
}

#[test]
fn small_numbers() {
    assert_eq!(factor(3, None), Ok(Factor::Prime(3)));
    assert_eq!(factor(4, None), Ok(Factor::Composite(vec![2, 2])));
    assert_eq!(factor(5, None), Ok(Factor::Prime(5)));
    assert_eq!(factor(6, None), Ok(Factor::Composite(vec![2, 3])));
    assert_eq!(factor(7, None), Ok(Factor::Prime(7)));
    assert_eq!(factor(8, None), Ok(Factor::Composite(vec![2, 2, 2])));
    assert_eq!(factor(9, None), Ok(Factor::Composite(vec![3, 3])));
    assert_eq!(factor(10, None), Ok(Factor::Composite(vec![2, 5])));
    assert_eq!(factor(25, None), Ok(Factor::Composite(vec![5, 5])));
    assert_eq!(factor(49, None), Ok(Factor::Composite(vec![7, 7])));
    assert_eq!(factor(97, None), Ok(Factor::Prime(97)));
    assert_eq!(factor(360, None), Ok(Factor::Composite(vec![2, 2, 2, 3, 3, 5])));
    assert_eq!(factor(1001, None), Ok(Factor::Composite(vec![7, 11, 13])));
}

#[test]
fn powers_of_two() {
    assert_eq!(factor(64, None), Ok(Factor::Composite(vec![2; 6])));
    assert_eq!(factor(1 << 63, None), Ok(Factor::Composite(vec![2; 63])));
}

#[test]
fn the_last_factor_is_what_is_left() {
    // 2 * 3 * 1_000_000_007: the search converges long before the last prime.
    assert_eq!(
        factor(6_000_000_042, None),
        Ok(Factor::Composite(vec![2, 3, 1_000_000_007]))
    );
}

#[test]
fn the_largest_number() {
    assert_eq!(
        factor(u64::MAX, None),
        Ok(Factor::Composite(vec![3, 5, 17, 257, 641, 65_537, 6_700_417]))
    );
}

#[test]
fn a_square_of_a_prime_near_the_root_of_the_domain() {
    // 65_521 is the largest prime below 2^16.
    assert_eq!(
        factor(65_521 * 65_521, None),
        Ok(Factor::Composite(vec![65_521, 65_521]))
    );
}

#[test]
fn the_largest_prime_of_the_domain() {
    // The candidates go up to 2^32 + 1, whose square does not fit in 64 bits.
    let p: u64 = 18_446_744_073_709_551_557;
    assert_eq!(factor(p, None), Ok(Factor::Prime(p)));
}

#[test]
fn factors_multiply_back_and_come_in_order() {
    for n in 2..3000u64 {
        match factor(n, None) {
            Ok(Factor::Prime(p)) => {
                assert_eq!(p, n);
                assert!(is_prime(n));
            }
            Ok(Factor::Composite(list)) => {
                assert!(!is_prime(n));
                assert!(list.len() >= 2);
                assert_eq!(list.iter().product::<u64>(), n);
                assert!(list.windows(2).all(|pair| pair[0] <= pair[1]));
                assert!(list.iter().all(|&p| is_prime(p)));
            }
            Err(error) => panic!("{} gave {:?}", n, error),
        }
    }
}

#[test]
fn prime_exactly_without_divisor_up_to_the_root() {
    for n in 2..3000u64 {
        let mut d = 2;
        let mut divisor_found = false;
        while d * d <= n {
            if n % d == 0 {
                divisor_found = true;
            }
            d += 1;
        }
        assert_eq!(factor(n, None) == Ok(Factor::Prime(n)), !divisor_found);
    }
}

#[test]
fn two_attempts_agree() {
    for n in [0u64, 1, 2, 12, 97, 1001, 6_000_000_042, u64::MAX] {
        assert_eq!(factor(n, None), factor(n, None));
        assert_eq!(factor(n, None), trial_division(n));
    }
}

#[test]
fn a_long_deadline_changes_nothing() {
    let long = Some(Duration::from_secs(3600));
    for n in 0..500u64 {
        assert_eq!(factor(n, long), factor(n, None));
    }
}

#[test]
fn timeout_after_the_factor_two() {
    // 18 = 2 * 3 * 3: the deadline has passed when the candidate 3 is reached.
    assert_eq!(
        factor(18, Some(Duration::ZERO)),
        Err(FactorError::Timeout(Some(vec![2])))
    );
    // 2^5 * 9
    assert_eq!(
        factor(288, Some(Duration::ZERO)),
        Err(FactorError::Timeout(Some(vec![2, 2, 2, 2, 2])))
    );
}

#[test]
fn timeout_with_partial_progress_is_a_proper_prefix() {
    // p is the largest prime below 2^63: after the factor 2 the search would
    // go on for seconds.
    let p: u64 = 9_223_372_036_854_775_783;
    let n = 2 * p;
    match factor(n, Some(Duration::from_millis(1))) {
        Err(FactorError::Timeout(Some(list))) => {
            assert_eq!(list, vec![2]);
            assert!(list.iter().all(|&q| n % q == 0));
            assert_eq!(n % list.iter().product::<u64>(), 0);
        }
        other => panic!("{:?}", other),
    }
}

#[test]
fn timeout_before_any_factor() {
    assert_eq!(factor(9, Some(Duration::ZERO)), Err(FactorError::Timeout(None)));
    assert_eq!(factor(11, Some(Duration::ZERO)), Err(FactorError::Timeout(None)));
    let p: u64 = 18_446_744_073_709_551_557;
    assert_eq!(factor(p, Some(Duration::ZERO)), Err(FactorError::Timeout(None)));
    assert_eq!(
        factor(p, Some(Duration::from_millis(1))),
        Err(FactorError::Timeout(None))
    );
}

#[test]
fn no_timeout_once_the_search_is_over() {
    // After the factor 2 nothing is left to try: the clock is never read.
    assert_eq!(factor(3, Some(Duration::ZERO)), Ok(Factor::Prime(3)));
    assert_eq!(factor(7, Some(Duration::ZERO)), Ok(Factor::Prime(7)));
    assert_eq!(
        factor(16, Some(Duration::ZERO)),
        Ok(Factor::Composite(vec![2, 2, 2, 2]))
    );
    assert_eq!(factor(14, Some(Duration::ZERO)), Ok(Factor::Composite(vec![2, 7])));
}
