//! The prime factors of a natural number, as a sequence, and what holds of
//! them: their product, their order, and the part of them below a bound.

use crate::number::{
    divides, is_prime, least_divisor, lemma_divides_of_quotient, lemma_divisor_bound,
    lemma_least_divisor, lemma_least_divisor_is, lemma_multiple, lemma_prime_divides_product,
    lemma_prime_least_divisor, lemma_quotient_smaller, no_divisor_below,
};
use vstd::arithmetic::div_mod::lemma_div_basics;
use vstd::prelude::*;

verus! {

/// The prime factors of `n` with multiplicity, least first. Empty for 0 and 1.
pub open spec fn prime_factors(n: nat) -> Seq<nat>
    decreases n,
    via prime_factors_decreases
{
    if n < 2 {
        Seq::empty()
    } else {
        seq![least_divisor(n)] + prime_factors(n / least_divisor(n))
    }
}

#[via_fn]
proof fn prime_factors_decreases(n: nat) {
    if n >= 2 {
        lemma_least_divisor(n);
        lemma_quotient_smaller(least_divisor(n), n);
    }
}

/// The product of the elements of `s`; 1 for the empty sequence.
pub open spec fn product(s: Seq<nat>) -> nat
    decreases s.len(),
{
    if s.len() == 0 {
        1
    } else {
        s.first() * product(s.drop_first())
    }
}

/// No element of `s` is greater than one that follows it.
pub open spec fn non_decreasing(s: Seq<nat>) -> bool {
    forall|i: int, j: int| 0 <= i <= j < s.len() ==> s[i] <= s[j]
}

/// The predicate "less than `bound`".
pub open spec fn below(bound: nat) -> spec_fn(nat) -> bool {
    |p: nat| p < bound
}

/// The prime factors of `n` that are less than `bound`, with multiplicity,
/// least first.
pub open spec fn factors_below(n: nat, bound: nat) -> Seq<nat> {
    prime_factors(n).filter(below(bound))
}

/// The product of a concatenation is the product of the products.
pub proof fn lemma_product_concat(a: Seq<nat>, b: Seq<nat>)
    ensures
        product(a + b) == product(a) * product(b),
    decreases a.len(),
{
    if a.len() == 0 {
        assert(a + b =~= b);
        assert(product(a) * product(b) == product(b)) by (nonlinear_arith)
            requires
                product(a) == 1,
        ;
    } else {
        assert((a + b).drop_first() =~= a.drop_first() + b);
        lemma_product_concat(a.drop_first(), b);
        let x = a.first();
        let pa = product(a.drop_first());
        let pb = product(b);
        assert(x * (pa * pb) == (x * pa) * pb) by (nonlinear_arith);
    }
}

/// Appending one element multiplies the product by it.
pub proof fn lemma_product_push(s: Seq<nat>, x: nat)
    ensures
        product(s.push(x)) == product(s) * x,
{
    assert(s.push(x) =~= s + seq![x]);
    lemma_product_concat(s, seq![x]);
    assert(seq![x].drop_first() =~= Seq::<nat>::empty());
    assert(product(seq![x]) == x) by {
        assert(product(Seq::<nat>::empty()) == 1);
        assert(x * 1 == x) by (nonlinear_arith);
    }
}

/// The prime factors of `n >= 2` are its least divisor, followed by the
/// prime factors of the quotient.
pub proof fn lemma_prime_factors_step(n: nat, p: nat)
    requires
        n >= 1,
        p >= 2,
        divides(p, n),
        no_divisor_below(n, p),
    ensures
        prime_factors(n) == seq![p] + prime_factors(n / p),
{
    lemma_least_divisor_is(n, p);
}

/// The product of the prime factors of a positive number is that number.
pub proof fn lemma_prime_factors_product(n: nat)
    requires
        n >= 1,
    ensures
        product(prime_factors(n)) == n,
    decreases n,
{
    if n >= 2 {
        let p = least_divisor(n);
        lemma_least_divisor(n);
        lemma_quotient_smaller(p, n);
        lemma_prime_factors_product(n / p);
        lemma_product_concat(seq![p], prime_factors(n / p));
        lemma_product_push(Seq::<nat>::empty(), p);
        assert(Seq::<nat>::empty().push(p) =~= seq![p]);
        crate::number::lemma_divides_quotient(p, n);
        assert(1 * p == p) by (nonlinear_arith);
    }
}

/// Each prime factor of `n` is a prime that divides `n`.
pub proof fn lemma_prime_factors_are_prime_divisors(n: nat)
    ensures
        forall|i: int|
            0 <= i < prime_factors(n).len() ==> is_prime(#[trigger] prime_factors(n)[i])
                && divides(prime_factors(n)[i], n),
    decreases n,
{
    if n >= 2 {
        let p = least_divisor(n);
        lemma_least_divisor(n);
        lemma_quotient_smaller(p, n);
        lemma_prime_factors_are_prime_divisors(n / p);
        assert forall|i: int| 0 <= i < prime_factors(n).len() implies is_prime(
            #[trigger] prime_factors(n)[i],
        ) && divides(prime_factors(n)[i], n) by {
            if i > 0 {
                let e = prime_factors(n / p)[i - 1];
                assert(prime_factors(n)[i] == e);
                lemma_divides_of_quotient(e, p, n);
            }
        }
    }
}

/// Where nothing from 2 up to `bound` divides `n`, every prime factor of `n`
/// is at least `bound`.
pub proof fn lemma_prime_factors_at_least(n: nat, bound: nat)
    requires
        no_divisor_below(n, bound),
    ensures
        forall|i: int| 0 <= i < prime_factors(n).len() ==> #[trigger] prime_factors(n)[i] >= bound,
{
    lemma_prime_factors_are_prime_divisors(n);
    assert forall|i: int| 0 <= i < prime_factors(n).len() implies #[trigger] prime_factors(n)[i]
        >= bound by {
        let e = prime_factors(n)[i];
        assert(is_prime(e) && divides(e, n));
    }
}

/// The prime factors come least first.
pub proof fn lemma_prime_factors_non_decreasing(n: nat)
    ensures
        non_decreasing(prime_factors(n)),
    decreases n,
{
    if n >= 2 {
        let p = least_divisor(n);
        let q = n / p;
        lemma_least_divisor(n);
        lemma_quotient_smaller(p, n);
        lemma_prime_factors_non_decreasing(q);
        assert(no_divisor_below(q, p)) by {
            assert forall|d: nat| 2 <= d < p implies !#[trigger] divides(d, q) by {
                if divides(d, q) {
                    lemma_divides_of_quotient(d, p, n);
                }
            }
        }
        lemma_prime_factors_at_least(q, p);
        let s = prime_factors(n);
        assert forall|i: int, j: int| 0 <= i <= j < s.len() implies s[i] <= s[j] by {
            if j > 0 {
                assert(s[j] == prime_factors(q)[j - 1]);
                if i > 0 {
                    assert(s[i] == prime_factors(q)[i - 1]);
                }
            }
        }
    }
}

/// A number of at least 2 is prime exactly if it is its only prime factor.
pub proof fn lemma_prime_factors_of_prime(n: nat)
    requires
        n >= 2,
    ensures
        is_prime(n) <==> prime_factors(n) == seq![n],
{
    lemma_prime_least_divisor(n);
    lemma_least_divisor(n);
    let p = least_divisor(n);
    if p == n {
        lemma_div_basics(n as int);
        assert(prime_factors(1) =~= Seq::<nat>::empty());
        assert(prime_factors(n) =~= seq![n]);
    } else {
        assert(prime_factors(n)[0] == p);
    }
}

/// A filter keeps a sequence whose elements are all below the bound.
proof fn lemma_below_keeps(s: Seq<nat>, bound: nat)
    requires
        forall|i: int| 0 <= i < s.len() ==> s[i] < bound,
    ensures
        s.filter(below(bound)) == s,
    decreases s.len(),
{
    reveal(Seq::filter);
    if s.len() > 0 {
        lemma_below_keeps(s.drop_last(), bound);
        assert(s.drop_last().push(s.last()) =~= s);
    }
}

/// A filter empties a sequence none of whose elements is below the bound.
proof fn lemma_below_drops(s: Seq<nat>, bound: nat)
    requires
        forall|i: int| 0 <= i < s.len() ==> s[i] >= bound,
    ensures
        s.filter(below(bound)) == Seq::<nat>::empty(),
    decreases s.len(),
{
    reveal(Seq::filter);
    if s.len() > 0 {
        lemma_below_drops(s.drop_last(), bound);
    }
}

/// Where the prime factors of `n` fall into a first part below `bound` and
/// a second part not below it, the first part is `factors_below(n, bound)`.
pub proof fn lemma_factors_below_split(n: nat, bound: nat, low: Seq<nat>, high: Seq<nat>)
    requires
        low + high == prime_factors(n),
        forall|i: int| 0 <= i < low.len() ==> low[i] < bound,
        forall|i: int| 0 <= i < high.len() ==> high[i] >= bound,
    ensures
        factors_below(n, bound) == low,
{
    Seq::filter_distributes_over_add(low, high, below(bound));
    lemma_below_keeps(low, bound);
    lemma_below_drops(high, bound);
    assert(low + Seq::<nat>::empty() =~= low);
}

/// In a non-decreasing sequence the elements below `bound` come first: the
/// result is how many there are.
proof fn lemma_split_point(s: Seq<nat>, bound: nat) -> (k: int)
    requires
        non_decreasing(s),
    ensures
        0 <= k <= s.len(),
        forall|i: int| 0 <= i < k ==> s[i] < bound,
        forall|i: int| k <= i < s.len() ==> s[i] >= bound,
    decreases s.len(),
{
    if s.len() == 0 {
        0
    } else if s.last() < bound {
        s.len() as int
    } else {
        let k = lemma_split_point(s.drop_last(), bound);
        assert forall|i: int| 0 <= i < k implies s[i] < bound by {
            assert(s[i] == s.drop_last()[i]);
        }
        assert forall|i: int| k <= i < s.len() implies s[i] >= bound by {
            if i < s.len() - 1 {
                assert(s[i] == s.drop_last()[i]);
            }
        }
        k
    }
}

/// The prime factors below a bound are the first of the prime factors, and
/// those that follow them are not below the bound.
pub proof fn lemma_factors_below_is_prefix(n: nat, bound: nat)
    ensures
        factors_below(n, bound).is_prefix_of(prime_factors(n)),
        forall|i: int|
            factors_below(n, bound).len() <= i < prime_factors(n).len() ==> prime_factors(n)[i]
                >= bound,
        forall|i: int|
            0 <= i < factors_below(n, bound).len() ==> #[trigger] factors_below(n, bound)[i]
                < bound,
{
    let s = prime_factors(n);
    lemma_prime_factors_non_decreasing(n);
    let k = lemma_split_point(s, bound);
    assert(s.take(k) + s.skip(k) =~= s);
    lemma_factors_below_split(n, bound, s.take(k), s.skip(k));
}

/// The product of the prime factors below a bound, times the product of
/// the others, is the number; so the first product divides it.
pub proof fn lemma_factors_below_divide(n: nat, bound: nat)
    requires
        n >= 1,
    ensures
        product(factors_below(n, bound)) >= 1,
        divides(product(factors_below(n, bound)), n),
        n == product(factors_below(n, bound)) * product(
            prime_factors(n).skip(factors_below(n, bound).len() as int),
        ),
{
    let s = prime_factors(n);
    let low = factors_below(n, bound);
    lemma_factors_below_is_prefix(n, bound);
    let high = s.skip(low.len() as int);
    assert(low + high =~= s);
    lemma_product_concat(low, high);
    lemma_prime_factors_product(n);
    assert(product(low) >= 1) by (nonlinear_arith)
        requires
            n == product(low) * product(high),
            n >= 1,
    ;
    lemma_multiple(product(low), product(high));
}

/// Whether `s` is a factorization into primes: each element is prime, and
/// none is greater than one that follows it.
pub open spec fn is_prime_factorization(s: Seq<nat>) -> bool {
    non_decreasing(s) && forall|i: int| 0 <= i < s.len() ==> is_prime(#[trigger] s[i])
}

/// A product of primes is at least 1, and at least 2 if there is a prime
/// in it.
proof fn lemma_product_of_primes(s: Seq<nat>)
    requires
        forall|i: int| 0 <= i < s.len() ==> is_prime(#[trigger] s[i]),
    ensures
        product(s) >= 1,
        s.len() > 0 ==> product(s) >= 2,
    decreases s.len(),
{
    if s.len() > 0 {
        let tail = s.drop_first();
        assert forall|i: int| 0 <= i < tail.len() implies is_prime(#[trigger] tail[i]) by {
            assert(tail[i] == s[i + 1]);
        }
        lemma_product_of_primes(tail);
        assert(is_prime(s[0]));
        assert(s.first() * product(tail) >= 2) by (nonlinear_arith)
            requires
                s.first() >= 2,
                product(tail) >= 1,
        ;
    }
}

/// A prime that divides a product of primes is one of them.
proof fn lemma_prime_in_product(p: nat, s: Seq<nat>) -> (i: int)
    requires
        is_prime(p),
        forall|i: int| 0 <= i < s.len() ==> is_prime(#[trigger] s[i]),
        divides(p, product(s)),
    ensures
        0 <= i < s.len(),
        s[i] == p,
    decreases s.len(),
{
    if s.len() == 0 {
        lemma_divisor_bound(p, 1);
        0
    } else {
        let tail = s.drop_first();
        assert forall|i: int| 0 <= i < tail.len() implies is_prime(#[trigger] tail[i]) by {
            assert(tail[i] == s[i + 1]);
        }
        lemma_prime_divides_product(p, s.first(), product(tail));
        if divides(p, s.first()) {
            assert(is_prime(s[0]));
            lemma_divisor_bound(p, s.first());
            0
        } else {
            let i = lemma_prime_in_product(p, tail);
            assert(tail[i] == s[i + 1]);
            i + 1
        }
    }
}

/// A number has one factorization into primes: a non-decreasing sequence of
/// primes is the sequence of the prime factors of its product.
pub proof fn lemma_prime_factorization_unique(s: Seq<nat>)
    requires
        is_prime_factorization(s),
    ensures
        prime_factors(product(s)) == s,
    decreases s.len(),
{
    let n = product(s);
    if s.len() == 0 {
        assert(prime_factors(1) =~= s);
    } else {
        let tail = s.drop_first();
        assert forall|i: int| 0 <= i < tail.len() implies is_prime(#[trigger] tail[i]) by {
            assert(tail[i] == s[i + 1]);
        }
        assert forall|i: int, j: int| 0 <= i <= j < tail.len() implies tail[i] <= tail[j] by {
            assert(tail[i] == s[i + 1] && tail[j] == s[j + 1]);
        }
        lemma_product_of_primes(s);
        lemma_product_of_primes(tail);
        let p = least_divisor(n);
        lemma_least_divisor(n);
        let i = lemma_prime_in_product(p, s);
        assert(is_prime(s[0]));
        lemma_multiple(s.first(), product(tail));
        assert(divides(s.first(), n));
        assert(s.first() == p);
        lemma_prime_factorization_unique(tail);
        assert(prime_factors(n) =~= s);
    }
}

/// The prime factors of a positive number are a factorization of it into
/// primes, and the only one.
pub proof fn lemma_prime_factors_characterized(n: nat, s: Seq<nat>)
    requires
        n >= 1,
    ensures
        s == prime_factors(n) <==> is_prime_factorization(s) && product(s) == n,
{
    if s == prime_factors(n) {
        lemma_prime_factors_product(n);
        lemma_prime_factors_non_decreasing(n);
        lemma_prime_factors_are_prime_divisors(n);
    }
    if is_prime_factorization(s) && product(s) == n {
        lemma_prime_factorization_unique(s);
    }
}

} // verus!
