use factorize::factor::{Factor, FactorError};
use factorize::search::Search;

#[test]
fn a_search_step_by_step() {
    // 30030 = 2 * 3 * 5 * 7 * 11 * 13
    let mut search = Search::start(30030);
    assert!(!search.converged());
    search.step(); // 3
    search.step(); // 5
    assert!(!search.converged());
    search.step(); // 7
    // 143 is left, and 9 * 9 <= 143
    assert!(!search.converged());
    search.step(); // 9
    search.step(); // 11
    // 13 is left, and 13 * 13 > 13
    assert!(search.converged());
    assert_eq!(search.finish(), Factor::Composite(vec![2, 3, 5, 7, 11, 13]));
}

#[test]
fn an_interrupted_search_holds_the_factors_below_its_candidate() {
    let search = Search::start(30030);
    assert_eq!(search.interrupt(), FactorError::Timeout(Some(vec![2])));

    let mut search = Search::start(30030);
    search.step();
    assert_eq!(search.interrupt(), FactorError::Timeout(Some(vec![2, 3])));

    let mut search = Search::start(30030);
    search.step();
    search.step();
    search.step();
    assert_eq!(search.interrupt(), FactorError::Timeout(Some(vec![2, 3, 5, 7])));
}

#[test]
fn a_candidate_is_divided_out_completely() {
    // 3^4 * 5^2 * 101
    let n = 81 * 25 * 101;
    let mut search = Search::start(n);
    assert_eq!(Search::start(n).interrupt(), FactorError::Timeout(None));
    search.step();
    assert_eq!(search.interrupt(), FactorError::Timeout(Some(vec![3, 3, 3, 3])));
    let mut search = Search::start(n);
    search.step();
    search.step();
    assert_eq!(
        search.interrupt(),
        FactorError::Timeout(Some(vec![3, 3, 3, 3, 5, 5]))
    );
}

#[test]
fn a_search_on_a_prime_finds_nothing() {
    let mut search = Search::start(101);
    let mut steps = 0;
    while !search.converged() {
        search.step();
        steps += 1;
    }
    // candidates 3, 5, 7 and 9 are tried; 11 * 11 > 101
    assert_eq!(steps, 4);
    assert_eq!(search.finish(), Factor::Prime(101));
}

#[test]
fn a_search_on_a_power_of_two_is_over_at_once() {
    let search = Search::start(1024);
    assert!(search.converged());
    assert_eq!(search.finish(), Factor::Composite(vec![2; 10]));
}

#[test]
fn a_search_on_three_is_over_at_once() {
    let search = Search::start(3);
    assert!(search.converged());
    assert_eq!(search.finish(), Factor::Prime(3));
}

#[test]
fn a_search_is_not_over_while_the_square_fits() {
    // 4_294_967_291 is the largest prime below 2^32; its square fits in 64
    // bits, and the candidate 65_537 is far from it.
    let n: u64 = 4_294_967_291 * 4_294_967_291;
    let mut search = Search::start(n);
    for _ in 0..32_767 {
        search.step();
    }
    // candidates 3, 5, ..., 65_535 have been tried
    assert!(!search.converged());
    assert_eq!(search.interrupt(), FactorError::Timeout(None));
}
