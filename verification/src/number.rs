//! Divisibility, primality and the least divisor of a natural number.

use vstd::arithmetic::div_mod::{
    lemma_div_multiples_vanish, lemma_fundamental_div_mod, lemma_mod_multiples_basic,
    lemma_mod_self_0,
};
use vstd::prelude::*;

verus! {

/// `d` divides `n`.
pub open spec fn divides(d: nat, n: nat) -> bool {
    d != 0 && n % d == 0
}

/// No number from 2 up to, but not including, `bound` divides `n`.
pub open spec fn no_divisor_below(n: nat, bound: nat) -> bool {
    forall|d: nat| 2 <= d < bound ==> !#[trigger] divides(d, n)
}

/// `n` is prime: at least 2, and divisible by nothing between 1 and itself.
pub open spec fn is_prime(n: nat) -> bool {
    n >= 2 && no_divisor_below(n, n)
}

/// No number from 2 up to the square root of `n` divides `n`.
pub open spec fn no_divisor_up_to_root(n: nat) -> bool {
    forall|d: nat| 2 <= d && d * d <= n ==> !#[trigger] divides(d, n)
}

/// The least divisor of `n` that is at least `d`, for `2 <= d <= n`.
pub open spec fn least_divisor_from(n: nat, d: nat) -> nat
    decreases n - d,
{
    if d >= n {
        n
    } else if n % d == 0 {
        d
    } else {
        least_divisor_from(n, d + 1)
    }
}

/// The least divisor of `n` other than 1, for `n >= 2`.
pub open spec fn least_divisor(n: nat) -> nat {
    least_divisor_from(n, 2)
}

/// A number is the product of a divisor and the quotient by it.
pub proof fn lemma_divides_quotient(d: nat, n: nat)
    requires
        divides(d, n),
    ensures
        n == d * (n / d),
{
    lemma_fundamental_div_mod(n as int, d as int);
}

/// Every multiple of `d` is divisible by `d`, and the quotient is the other
/// factor.
pub proof fn lemma_multiple(d: nat, k: nat)
    requires
        d > 0,
    ensures
        divides(d, d * k),
        (d * k) / d == k,
{
    lemma_mod_multiples_basic(k as int, d as int);
    lemma_div_multiples_vanish(k as int, d as int);
    assert(d * k == k * d) by (nonlinear_arith);
}

/// Dividing a positive number by a divisor of at least 2 makes it smaller,
/// and leaves it positive.
pub proof fn lemma_quotient_smaller(d: nat, n: nat)
    requires
        d >= 2,
        n >= 1,
        divides(d, n),
    ensures
        1 <= n / d < n,
{
    lemma_divides_quotient(d, n);
    let q = n / d;
    assert(1 <= q < n) by (nonlinear_arith)
        requires
            n == d * q,
            d >= 2,
            n >= 1,
    ;
}

/// Divisibility is transitive.
pub proof fn lemma_divides_transitive(a: nat, b: nat, c: nat)
    requires
        divides(a, b),
        divides(b, c),
    ensures
        divides(a, c),
{
    lemma_divides_quotient(a, b);
    lemma_divides_quotient(b, c);
    let k = (b / a) * (c / b);
    assert(c == a * k) by (nonlinear_arith)
        requires
            b == a * (b / a),
            c == b * (c / b),
            k == (b / a) * (c / b),
    ;
    lemma_multiple(a, k);
}

/// A divisor of a quotient divides the number that was divided.
pub proof fn lemma_divides_of_quotient(e: nat, d: nat, n: nat)
    requires
        divides(d, n),
        divides(e, n / d),
    ensures
        divides(e, n),
{
    lemma_divides_quotient(d, n);
    assert(n == (n / d) * d) by (nonlinear_arith)
        requires
            n == d * (n / d),
    ;
    if n / d > 0 {
        lemma_multiple(n / d, d);
        lemma_divides_transitive(e, n / d, n);
    } else {
        assert(n == 0) by (nonlinear_arith)
            requires
                n == (n / d) * d,
                n / d == 0,
        ;
    }
}

/// A divisor of a positive number is no greater than the number.
pub proof fn lemma_divisor_bound(d: nat, n: nat)
    requires
        n >= 1,
        divides(d, n),
    ensures
        d <= n,
{
    lemma_divides_quotient(d, n);
    let q = n / d;
    assert(d <= n) by (nonlinear_arith)
        requires
            n == d * q,
            n >= 1,
    ;
}

/// `least_divisor_from(n, d)` divides `n`, lies between `d` and `n`, and
/// nothing from `d` up to it divides `n`.
pub proof fn lemma_least_divisor_from(n: nat, d: nat)
    requires
        2 <= d <= n,
    ensures
        d <= least_divisor_from(n, d) <= n,
        divides(least_divisor_from(n, d), n),
        forall|e: nat| d <= e < least_divisor_from(n, d) ==> !#[trigger] divides(e, n),
    decreases n - d,
{
    if d >= n {
        lemma_mod_self_0(n as int);
    } else if n % d == 0 {
    } else {
        lemma_least_divisor_from(n, d + 1);
    }
}

/// The least divisor of `n >= 2` is a prime that divides `n`, and nothing
/// from 2 up to it does.
pub proof fn lemma_least_divisor(n: nat)
    requires
        n >= 2,
    ensures
        2 <= least_divisor(n) <= n,
        divides(least_divisor(n), n),
        no_divisor_below(n, least_divisor(n)),
        is_prime(least_divisor(n)),
{
    lemma_least_divisor_from(n, 2);
    let p = least_divisor(n);
    assert forall|e: nat| 2 <= e < p implies !#[trigger] divides(e, p) by {
        if divides(e, p) {
            lemma_divides_transitive(e, p, n);
        }
    }
}

/// A divisor of `n` below which nothing divides `n` is the least divisor.
pub proof fn lemma_least_divisor_is(n: nat, f: nat)
    requires
        f >= 2,
        divides(f, n),
        n >= 1,
        no_divisor_below(n, f),
    ensures
        n >= 2,
        least_divisor(n) == f,
{
    lemma_divisor_bound(f, n);
    lemma_least_divisor_from(n, 2);
    let p = least_divisor(n);
    if p < f {
        assert(divides(p, n));
    } else if f < p {
        assert(divides(f, n));
    }
}

/// For `n >= 2`, being prime is the same as being one's own least divisor.
pub proof fn lemma_prime_least_divisor(n: nat)
    requires
        n >= 2,
    ensures
        is_prime(n) <==> least_divisor(n) == n,
{
    lemma_least_divisor(n);
    if is_prime(n) && least_divisor(n) != n {
        assert(divides(least_divisor(n), n));
    }
}

/// For `n >= 2`, being prime is the same as having no divisor from 2 up to
/// the square root.
pub proof fn lemma_prime_by_root(n: nat)
    requires
        n >= 2,
    ensures
        is_prime(n) <==> no_divisor_up_to_root(n),
{
    if is_prime(n) {
        assert forall|d: nat| 2 <= d && d * d <= n implies !#[trigger] divides(d, n) by {
            assert(d < n) by (nonlinear_arith)
                requires
                    2 <= d,
                    d * d <= n,
            ;
        }
    }
    if no_divisor_up_to_root(n) && !is_prime(n) {
        lemma_prime_least_divisor(n);
        lemma_least_divisor(n);
        let p = least_divisor(n);
        let q = n / p;
        lemma_divides_quotient(p, n);
        lemma_quotient_smaller(p, n);
        assert(n == q * p) by (nonlinear_arith)
            requires
                n == p * q,
        ;
        lemma_multiple(q, p);
        assert(q >= 2) by (nonlinear_arith)
            requires
                n == p * q,
                p < n,
                p >= 2,
        ;
        if q < p {
            assert(divides(q, n));
        }
        assert(p * p <= n) by (nonlinear_arith)
            requires
                n == p * q,
                p <= q,
        ;
        assert(divides(p, n));
    }
}

/// What divides two numbers divides their difference.
pub proof fn lemma_divides_difference(d: nat, x: nat, y: nat)
    requires
        divides(d, x),
        divides(d, y),
        y <= x,
    ensures
        divides(d, (x - y) as nat),
{
    lemma_divides_quotient(d, x);
    lemma_divides_quotient(d, y);
    let k = x / d;
    let m = y / d;
    assert(m <= k && x - y == d * (k - m)) by (nonlinear_arith)
        requires
            x == d * k,
            y == d * m,
            y <= x,
            d > 0,
    ;
    lemma_multiple(d, (k - m) as nat);
}

/// What divides a number divides its multiples.
pub proof fn lemma_divides_multiple(d: nat, x: nat, k: nat)
    requires
        divides(d, x),
    ensures
        divides(d, x * k),
        divides(d, k * x),
{
    lemma_divides_quotient(d, x);
    let q = x / d;
    assert(x * k == d * (q * k) && k * x == d * (q * k)) by (nonlinear_arith)
        requires
            x == d * q,
    ;
    lemma_multiple(d, q * k);
}

/// A prime that divides a product divides one of its two factors.
pub proof fn lemma_prime_divides_product(p: nat, a: nat, b: nat)
    requires
        is_prime(p),
        divides(p, a * b),
    ensures
        divides(p, a) || divides(p, b),
    decreases a,
{
    if a == 0 {
        assert(0nat % p == 0);
    } else if a == 1 {
        assert(a * b == b) by (nonlinear_arith)
            requires
                a == 1,
        ;
    } else if a >= p {
        // a = p * q + r: p divides r * b = a * b - p * (q * b)
        let q = a / p;
        let r = a % p;
        lemma_fundamental_div_mod(a as int, p as int);
        lemma_multiple(p, q * b);
        assert(p * (q * b) <= a * b && r * b == a * b - p * (q * b)) by (nonlinear_arith)
            requires
                a == p * q + r,
        ;
        lemma_divides_difference(p, a * b, p * (q * b));
        lemma_prime_divides_product(p, r, b);
        if divides(p, r) && r > 0 {
            lemma_divisor_bound(p, r);
        }
    } else {
        // p = a * q + r with 0 < r < a: p divides r * b = p * b - q * (a * b)
        let q = p / a;
        let r = p % a;
        lemma_fundamental_div_mod(p as int, a as int);
        assert(!divides(a, p));
        lemma_multiple(p, b);
        lemma_divides_multiple(p, a * b, q);
        assert(q * (a * b) <= p * b && r * b == p * b - q * (a * b)) by (nonlinear_arith)
            requires
                p == a * q + r,
        ;
        lemma_divides_difference(p, p * b, q * (a * b));
        lemma_prime_divides_product(p, r, b);
        if divides(p, r) {
            lemma_divisor_bound(p, r);
        }
    }
}

} // verus!
