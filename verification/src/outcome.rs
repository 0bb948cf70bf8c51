//! What a factorization attempt can come to, as mathematics: the outcome of
//! a search that runs to its end, and the outcomes of one that is cut short.

use crate::factors::{
    factors_below, is_prime_factorization, lemma_factors_below_divide,
    lemma_factors_below_is_prefix, lemma_prime_factorization_unique,
    lemma_prime_factors_are_prime_divisors, lemma_prime_factors_non_decreasing,
    lemma_prime_factors_product, lemma_product_concat, non_decreasing, prime_factors, product,
};
use crate::number::{
    divides, is_prime, lemma_divides_quotient, lemma_least_divisor_is, lemma_prime_by_root,
    no_divisor_up_to_root,
};
use vstd::arithmetic::div_mod::lemma_div_is_ordered_by_denominator;
use vstd::prelude::*;

verus! {

/// The content of the result of one factorization attempt.
pub enum Outcome {
    /// The number is prime.
    Prime(nat),
    /// The number is composite; these are its prime factors.
    Composite(Seq<nat>),
    /// The number is 0 or 1 and has no factorization.
    DomainError(nat),
    /// The deadline passed; these factors, if any, had been found.
    Timeout(Option<Seq<nat>>),
}

/// The elements of `s` as natural numbers.
pub open spec fn as_nats(s: Seq<u64>) -> Seq<nat> {
    s.map_values(|x: u64| x as nat)
}

/// The candidates that the search tries after the factor 2 is removed: the
/// odd numbers from 3 on.
pub open spec fn is_candidate(f: nat) -> bool {
    f >= 3 && f % 2 == 1
}

/// What is left of `n` when its prime factors below `f` are divided out.
pub open spec fn remainder_at(n: nat, f: nat) -> nat {
    n / product(factors_below(n, f))
}

/// Whether the search for the factors of `n` is over when it reaches the
/// candidate `f`: its square exceeds what is left of `n`.
pub open spec fn converged_at(n: nat, f: nat) -> bool {
    f * f > remainder_at(n, f)
}

/// The outcome of a search that runs to its end.
pub open spec fn full_outcome(n: nat) -> Outcome {
    if n < 2 {
        Outcome::DomainError(n)
    } else if is_prime(n) {
        Outcome::Prime(n)
    } else {
        Outcome::Composite(prime_factors(n))
    }
}

/// The outcome of a search that is cut short before it tries the
/// candidate `f`: the prime factors below `f`, or nothing if there are none.
pub open spec fn timeout_outcome(n: nat, f: nat) -> Outcome {
    let found = factors_below(n, f);
    Outcome::Timeout(
        if found.len() == 0 {
            None
        } else {
            Some(found)
        },
    )
}

/// Whether a search for the factors of `n` can be cut short before the
/// candidate `f`: it is only asked for the time while it has not converged.
pub open spec fn can_time_out_at(n: nat, f: nat) -> bool {
    n >= 3 && is_candidate(f) && !converged_at(n, f)
}

/// Whether `out` is an outcome of factoring `n`. Without a deadline there is
/// one, that of the full search. With a deadline the search may also be cut
/// short before any candidate that it reaches.
pub open spec fn is_outcome(n: nat, bounded: bool, out: Outcome) -> bool {
    out == full_outcome(n) || (bounded && exists|f: nat|
        #[trigger] can_time_out_at(n, f) && out == timeout_outcome(n, f))
}

/// What is left of a positive number is positive and no greater than the
/// number, and is the number divided by what has been found.
pub proof fn lemma_remainder(n: nat, f: nat)
    requires
        n >= 1,
    ensures
        1 <= remainder_at(n, f) <= n,
        n == product(factors_below(n, f)) * remainder_at(n, f),
{
    lemma_factors_below_divide(n, f);
    let p = product(factors_below(n, f));
    lemma_divides_quotient(p, n);
    assert(1 <= n / p <= n) by (nonlinear_arith)
        requires
            n == p * (n / p),
            p >= 1,
            n >= 1,
    ;
}

/// A search on a number that fits in 64 bits converges before its candidate
/// reaches 2^32.
pub proof fn lemma_unconverged_candidate(n: nat, f: nat)
    requires
        1 <= n <= u64::MAX,
        !converged_at(n, f),
    ensures
        f < 0x1_0000_0000,
{
    lemma_remainder(n, f);
    assert(f < 0x1_0000_0000) by (nonlinear_arith)
        requires
            f * f <= remainder_at(n, f),
            remainder_at(n, f) <= 0xffff_ffff_ffff_ffff,
    ;
}

/// A search that has converged at one candidate has converged at every
/// later one: the candidates before which it can be cut short are the first
/// of the odd numbers from 3 on.
pub proof fn lemma_converged_for_good(n: nat, earlier: nat, later: nat)
    requires
        n >= 1,
        earlier <= later,
        converged_at(n, earlier),
    ensures
        converged_at(n, later),
{
    let all = prime_factors(n);
    let few = factors_below(n, earlier);
    let many = factors_below(n, later);
    lemma_factors_below_is_prefix(n, earlier);
    lemma_factors_below_is_prefix(n, later);
    if few.len() > many.len() {
        assert(few[many.len() as int] == all[many.len() as int]);
    }
    let between = all.subrange(few.len() as int, many.len() as int);
    assert(many =~= few + between);
    lemma_product_concat(few, between);
    lemma_remainder(n, earlier);
    lemma_remainder(n, later);
    assert(product(between) >= 1 && product(few) <= product(many)) by (nonlinear_arith)
        requires
            product(many) == product(few) * product(between),
            n == product(many) * remainder_at(n, later),
            n == product(few) * remainder_at(n, earlier),
            n >= 1,
    ;
    lemma_div_is_ordered_by_denominator(n as int, product(few) as int, product(many) as int);
    assert(later * later >= earlier * earlier) by (nonlinear_arith)
        requires
            earlier <= later,
    ;
}

/// Without a deadline a number has one outcome: two attempts on the same
/// number come to the same.
pub proof fn lemma_one_outcome(n: nat, first: Outcome, second: Outcome)
    requires
        is_outcome(n, false, first),
        is_outcome(n, false, second),
    ensures
        first == second,
{
}

/// 0 and 1 are refused, with or without a deadline, and the error holds the
/// number.
pub proof fn lemma_domain_error(n: nat, bounded: bool, out: Outcome)
    requires
        n < 2,
        is_outcome(n, bounded, out),
    ensures
        out == Outcome::DomainError(n),
{
}

/// The factors of a composite outcome multiply back to the number, each of
/// them is a prime that divides it, and none is greater than one that
/// follows it.
pub proof fn lemma_composite(n: nat, bounded: bool, list: Seq<nat>)
    requires
        is_outcome(n, bounded, Outcome::Composite(list)),
    ensures
        product(list) == n,
        non_decreasing(list),
        forall|i: int| 0 <= i < list.len() ==> is_prime(#[trigger] list[i]) && divides(list[i], n),
        list.len() >= 2,
{
    assert(list == prime_factors(n));
    lemma_prime_factors_product(n);
    lemma_prime_factors_non_decreasing(n);
    lemma_prime_factors_are_prime_divisors(n);
    if list.len() < 2 {
        assert(list.len() == 1);
        assert(list.drop_first() =~= Seq::<nat>::empty());
        assert(product(list) == list[0]) by {
            assert(product(list.drop_first()) == 1);
            assert(list[0] * 1 == list[0]) by (nonlinear_arith);
        }
        assert(is_prime(list[0]));
    }
}

/// A composite outcome holds the only factorization of the number into
/// primes.
pub proof fn lemma_composite_unique(n: nat, bounded: bool, list: Seq<nat>, other: Seq<nat>)
    requires
        is_outcome(n, bounded, Outcome::Composite(list)),
        is_prime_factorization(other),
        product(other) == n,
    ensures
        other == list,
{
    lemma_prime_factorization_unique(other);
}

/// For a number of at least 2, the outcome without a deadline is `Prime`
/// exactly if nothing from 2 up to its square root divides it.
pub proof fn lemma_prime_outcome(n: nat, out: Outcome)
    requires
        n >= 2,
        is_outcome(n, false, out),
    ensures
        out == Outcome::Prime(n) <==> no_divisor_up_to_root(n),
        out is Prime <==> is_prime(n),
{
    lemma_prime_by_root(n);
}

/// The factors that come with a timeout are the first of the prime factors
/// of the number, but not all of them: none is greater than one that follows
/// it, each is a prime that divides the number, and so does their product.
pub proof fn lemma_timeout(n: nat, list: Seq<nat>)
    requires
        is_outcome(n, true, Outcome::Timeout(Some(list))),
    ensures
        list.is_prefix_of(prime_factors(n)),
        0 < list.len() < prime_factors(n).len(),
        non_decreasing(list),
        forall|i: int| 0 <= i < list.len() ==> is_prime(#[trigger] list[i]) && divides(list[i], n),
        divides(product(list), n),
{
    let out = Outcome::Timeout(Some(list));
    let f = choose|f: nat| #[trigger] can_time_out_at(n, f) && out == timeout_outcome(n, f);
    assert(list == factors_below(n, f));
    let all = prime_factors(n);
    lemma_factors_below_is_prefix(n, f);
    lemma_factors_below_divide(n, f);
    lemma_remainder(n, f);
    lemma_prime_factors_non_decreasing(n);
    lemma_prime_factors_are_prime_divisors(n);
    if list.len() == all.len() {
        let high = all.skip(list.len() as int);
        assert(high =~= Seq::<nat>::empty());
        assert(product(high) == 1);
        assert(remainder_at(n, f) == 1) by (nonlinear_arith)
            requires
                n == product(list) * 1,
                n == product(list) * remainder_at(n, f),
                n >= 1,
        ;
        assert(f * f >= 9) by (nonlinear_arith)
            requires
                f >= 3,
        ;
    }
    assert forall|i: int| 0 <= i < list.len() implies is_prime(#[trigger] list[i]) && divides(
        list[i],
        n,
    ) by {
        assert(list[i] == all[i]);
    }
    assert forall|i: int, j: int| 0 <= i <= j < list.len() implies list[i] <= list[j] by {
        assert(list[i] == all[i] && list[j] == all[j]);
    }
}

/// A timeout without factors means that the number has no prime factor below
/// the candidate that the search stopped at; the number is odd.
pub proof fn lemma_timeout_empty(n: nat)
    requires
        is_outcome(n, true, Outcome::Timeout(None)),
    ensures
        n >= 9,
        !divides(2, n),
{
    let out = Outcome::Timeout(None);
    let f = choose|f: nat| #[trigger] can_time_out_at(n, f) && out == timeout_outcome(n, f);
    assert(factors_below(n, f).len() == 0);
    assert(product(factors_below(n, f)) == 1);
    lemma_remainder(n, f);
    assert(n == remainder_at(n, f)) by (nonlinear_arith)
        requires
            n == 1 * remainder_at(n, f),
    ;
    assert(n >= 9) by (nonlinear_arith)
        requires
            f * f <= n,
            f >= 3,
    ;
    if divides(2, n) {
        lemma_least_divisor_is(n, 2);
        assert(prime_factors(n)[0] == 2);
        lemma_factors_below_is_prefix(n, f);
    }
}

} // verus!
