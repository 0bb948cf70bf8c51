//! The trial-division search, one candidate at a time.
//!
//! A [`Search`] is begun on a number, tries the odd candidates in turn, and
//! is either finished when it has converged or interrupted before that.
//! Between two candidates nothing is half done: an interrupted search holds
//! every prime factor below its next candidate, with its full multiplicity.

use crate::factor::{Factor, FactorError};
use crate::factors::{
    factors_below, lemma_factors_below_split, lemma_prime_factors_at_least,
    lemma_prime_factors_of_prime, lemma_prime_factors_step, lemma_product_push, prime_factors,
    product,
};
use crate::number::{
    divides, is_prime, lemma_divides_of_quotient, lemma_divides_quotient,
    lemma_divides_transitive, lemma_divisor_bound, lemma_multiple, lemma_prime_by_root,
    lemma_quotient_smaller, no_divisor_below,
};
use crate::outcome::{
    as_nats, converged_at, full_outcome, is_candidate, remainder_at, timeout_outcome,
};
use vstd::prelude::*;

verus! {

/// A search for the prime factors of a number, between two candidates.
pub struct Search {
    /// The number to factor.
    target: u64,
    /// What is left of it when the factors found are divided out.
    rest: u64,
    /// The next candidate to try.
    candidate: u64,
    /// The factors found, least first.
    found: Vec<u64>,
}

/// Dividing a prime factor out of what is left of `n`, and adding it to
/// the factors found, keeps the two together equal to `n`.
///
/// `found` holds factors of `n`, `rest` is what is left of it, and `p` is
/// the least divisor of `rest`.
proof fn lemma_divide_out(n: nat, found: Seq<nat>, rest: nat, p: nat)
    requires
        n >= 1,
        rest >= 1,
        p >= 2,
        divides(p, rest),
        no_divisor_below(rest, p),
        n == product(found) * rest,
        found + prime_factors(rest) == prime_factors(n),
    ensures
        1 <= rest / p < rest <= n,
        n == product(found.push(p)) * (rest / p),
        found.push(p) + prime_factors(rest / p) == prime_factors(n),
        no_divisor_below(rest / p, p),
        divides(p, n),
{
    lemma_prime_factors_step(rest, p);
    lemma_divides_quotient(p, rest);
    lemma_quotient_smaller(p, rest);
    lemma_product_push(found, p);
    assert(product(found.push(p)) * (rest / p) == product(found) * rest) by (nonlinear_arith)
        requires
            product(found.push(p)) == product(found) * p,
            rest == p * (rest / p),
    ;
    assert(found.push(p) + prime_factors(rest / p) =~= found + (seq![p] + prime_factors(rest / p)));
    assert forall|d: nat| 2 <= d < p implies !#[trigger] divides(d, rest / p) by {
        if divides(d, rest / p) {
            lemma_divides_of_quotient(d, p, rest);
        }
    }
    assert(n == rest * product(found)) by (nonlinear_arith)
        requires
            n == product(found) * rest,
    ;
    lemma_multiple(rest, product(found));
    lemma_divisor_bound(rest, n);
    lemma_divides_transitive(p, rest, n);
}

impl Search {
    /// The number that is being factored.
    pub closed spec fn target(&self) -> nat {
        self.target as nat
    }

    /// The candidate that the search tries next.
    pub closed spec fn candidate(&self) -> nat {
        self.candidate as nat
    }

    /// The search is in a state that `start` and `step` lead to: before a
    /// candidate, on a number of at least 3 that fits in 64 bits.
    pub open spec fn wf(&self) -> bool {
        &&& 3 <= self.target() <= u64::MAX
        &&& is_candidate(self.candidate())
        &&& self.consistent()
    }

    /// What the search holds belongs to its target and its candidate.
    #[verifier::opaque]
    pub closed spec fn consistent(&self) -> bool {
        let n = self.target as nat;
        let r = self.rest as nat;
        let f = self.candidate as nat;
        let found = as_nats(self.found@);
        &&& r >= 1
        &&& n == product(found) * r
        &&& found + prime_factors(r) == prime_factors(n)
        &&& no_divisor_below(r, f)
        &&& forall|i: int| 0 <= i < found.len() ==> found[i] < f
        &&& found.len() > 0 ==> !is_prime(n)
    }

    /// A search holds the prime factors of its target below its candidate.
    proof fn lemma_holds(&self)
        requires
            self.wf(),
        ensures
            as_nats(self.found@) == factors_below(self.target(), self.candidate()),
    {
        reveal(Search::consistent);
        let r = self.rest as nat;
        let f = self.candidate as nat;
        lemma_prime_factors_at_least(r, f);
        lemma_factors_below_split(self.target as nat, f, as_nats(self.found@), prime_factors(r));
    }

    /// What a search has left is its target without the prime factors below
    /// its candidate.
    proof fn lemma_rest(&self)
        requires
            self.wf(),
        ensures
            self.rest as nat == remainder_at(self.target(), self.candidate()),
    {
        self.lemma_holds();
        let r = self.rest as nat;
        let found = as_nats(self.found@);
        assert(self.target as nat == product(found) * r && self.target >= 3) by {
            reveal(Search::consistent);
        }
        assert(product(found) > 0) by (nonlinear_arith)
            requires
                self.target as nat == product(found) * r,
                self.target >= 3,
        ;
        lemma_multiple(product(found), r);
    }

    /// Begins the search for the factors of `n`: divides out the factor 2 and
    /// stands before the candidate 3.
    pub fn start(n: u64) -> (search: Search)
        requires
            n >= 3,
        ensures
            search.wf(),
            search.target() == n,
            search.candidate() == 3,
    {
        let mut rest: u64 = n;
        let mut found: Vec<u64> = Vec::new();
        proof {
            assert(as_nats(found@) =~= Seq::<nat>::empty());
            assert(as_nats(found@) + prime_factors(rest as nat) =~= prime_factors(n as nat));
            assert(product(as_nats(found@)) * rest == n) by (nonlinear_arith)
                requires
                    product(as_nats(found@)) == 1,
                    rest == n,
            ;
        }
        while (rest & 1) == 0
            invariant
                n >= 3,
                rest >= 1,
                n == product(as_nats(found@)) * rest,
                as_nats(found@) + prime_factors(rest as nat) == prime_factors(n as nat),
                forall|i: int| 0 <= i < found.len() ==> found[i] == 2,
                found.len() > 0 ==> !is_prime(n as nat),
            decreases rest,
        {
            let half: u64 = rest >> 1;
            proof {
                assert((rest & 1) == 0 ==> rest % 2 == 0) by (bit_vector);
                assert(rest >> 1 == rest / 2) by (bit_vector);
                lemma_divide_out(n as nat, as_nats(found@), rest as nat, 2);
                assert(as_nats(found@.push(2u64)) =~= as_nats(found@).push(2nat));
            }
            rest = half;
            found.push(2);
        }
        proof {
            assert((rest & 1) != 0 ==> rest % 2 == 1) by (bit_vector);
            assert forall|d: nat| 2 <= d < 3 implies !#[trigger] divides(d, rest as nat) by {}
            assert forall|i: int| 0 <= i < as_nats(found@).len() implies as_nats(found@)[i]
                < 3 by {
                assert(found[i] == 2);
            }
            reveal(Search::consistent);
        }
        Search { target: n, rest, candidate: 3, found }
    }

    /// Whether the search is over: the square of the candidate exceeds what
    /// is left of the number. A square that does not fit in 64 bits exceeds
    /// it.
    pub fn converged(&self) -> (over: bool)
        requires
            self.wf(),
        ensures
            over == converged_at(self.target(), self.candidate()),
    {
        proof {
            self.lemma_rest();
        }
        match self.candidate.checked_mul(self.candidate) {
            Some(square) => square > self.rest,
            None => true,
        }
    }

    /// Tries the candidate: divides it out as often as it divides what is
    /// left, then moves on to the next odd number.
    pub fn step(&mut self)
        requires
            old(self).wf(),
            !converged_at(old(self).target(), old(self).candidate()),
        ensures
            final(self).wf(),
            final(self).target() == old(self).target(),
            final(self).candidate() == old(self).candidate() + 2,
    {
        let ghost n = self.target as nat;
        let f: u64 = self.candidate;
        proof {
            reveal(Search::consistent);
            self.lemma_rest();
            assert(f < 0x1_0000_0000) by (nonlinear_arith)
                requires
                    f * f <= self.rest,
                    self.rest <= u64::MAX,
            ;
            assert forall|i: int| 0 <= i < self.found.len() implies self.found[i] <= f by {
                assert(as_nats(self.found@)[i] < f);
            }
        }
        while self.rest % f == 0
            invariant
                self.target == old(self).target,
                self.candidate == f,
                n == self.target >= 3,
                self.rest >= 1,
                is_candidate(f as nat),
                n == product(as_nats(self.found@)) * self.rest,
                as_nats(self.found@) + prime_factors(self.rest as nat) == prime_factors(n),
                no_divisor_below(self.rest as nat, f as nat),
                forall|i: int| 0 <= i < self.found.len() ==> self.found[i] <= f,
                self.found.len() > 0 ==> !is_prime(n),
                self.found.len() == 0 ==> f * f <= self.rest,
            decreases self.rest,
        {
            proof {
                lemma_divide_out(n, as_nats(self.found@), self.rest as nat, f as nat);
                assert(as_nats(self.found@.push(f)) =~= as_nats(self.found@).push(f as nat));
                if self.found.len() == 0 {
                    assert(f < self.rest) by (nonlinear_arith)
                        requires
                            f * f <= self.rest,
                            f >= 3,
                    ;
                }
            }
            self.found.push(f);
            self.rest = self.rest / f;
        }
        proof {
            let r = self.rest as nat;
            let p = f as nat;
            assert forall|d: nat| 2 <= d < p + 2 implies !#[trigger] divides(d, r) by {
                if d == p + 1 && divides(d, r) {
                    assert(divides(2, d));
                    lemma_divides_transitive(2, d, r);
                }
            }
            assert forall|i: int|
                0 <= i < as_nats(self.found@).len() implies as_nats(self.found@)[i] < p + 2 by {
                assert(self.found[i] <= f);
            }
        }
        self.candidate = f + 2;
    }

    /// Ends a search that is over. If nothing was found the number is prime.
    /// Otherwise what is left, unless it is 1, is the last prime factor.
    pub fn finish(self) -> (factor: Factor)
        requires
            self.wf(),
            converged_at(self.target(), self.candidate()),
        ensures
            factor@ == full_outcome(self.target()),
    {
        let n: u64 = self.target;
        let rest: u64 = self.rest;
        let mut list = self.found;
        proof {
            reveal(Search::consistent);
            self.lemma_rest();
            let r = rest as nat;
            let f = self.candidate as nat;
            if r >= 2 {
                assert forall|d: nat| 2 <= d && d * d <= r implies !#[trigger] divides(d, r) by {
                    assert(d < f) by (nonlinear_arith)
                        requires
                            d * d <= r,
                            r < f * f,
                    ;
                }
                lemma_prime_by_root(r);
                lemma_prime_factors_of_prime(r);
            } else {
                assert(prime_factors(r) =~= Seq::<nat>::empty());
            }
            if list.len() == 0 {
                assert(as_nats(list@) =~= Seq::<nat>::empty());
                assert(n as nat == r) by (nonlinear_arith)
                    requires
                        n as nat == product(as_nats(list@)) * r,
                        product(as_nats(list@)) == 1,
                ;
            }
        }
        if list.len() == 0 {
            return Factor::Prime(n);
        }
        if rest != 1 {
            proof {
                assert(as_nats(list@.push(rest)) =~= as_nats(list@) + seq![rest as nat]);
            }
            list.push(rest);
        } else {
            proof {
                assert(as_nats(list@) + Seq::<nat>::empty() =~= as_nats(list@));
            }
        }
        Factor::Composite(list)
    }

    /// Ends a search before it is over: the error holds the factors found so
    /// far, or `None` if there are none.
    pub fn interrupt(self) -> (error: FactorError)
        requires
            self.wf(),
        ensures
            error@ == timeout_outcome(self.target(), self.candidate()),
    {
        proof {
            self.lemma_holds();
        }
        if self.found.len() == 0 {
            FactorError::Timeout(None)
        } else {
            FactorError::Timeout(Some(self.found))
        }
    }
}

} // verus!
