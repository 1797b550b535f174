//! The arithmetic vocabulary of the library: divisibility, greatest common
//! divisors, primes, and the facts about them that the fraction and pitch
//! proofs rest on.
use vstd::arithmetic::div_mod::{lemma_fundamental_div_mod, lemma_mod_multiples_basic};
use vstd::prelude::*;

verus! {

/// `d` is a positive divisor of `n`.
pub open spec fn divides(d: int, n: int) -> bool {
    d > 0 && n % d == 0
}

/// The absolute value of `x`.
pub open spec fn magnitude(x: int) -> nat {
    if x < 0 {
        (-x) as nat
    } else {
        x as nat
    }
}

/// The greatest common divisor of `a` and `b`, by Euclid's recursion.
/// `gcd_of(a, 0) == a`, so `gcd_of(0, 0) == 0`.
pub open spec fn gcd_of(a: nat, b: nat) -> nat
    decreases b,
{
    if b == 0 {
        a
    } else {
        gcd_of(b, a % b)
    }
}

/// `g` is the greatest of the common divisors of `a` and `b`; of 0 and 0,
/// which every number divides, it is 0.
pub open spec fn is_greatest_common_divisor(g: int, a: nat, b: nat) -> bool {
    if a == 0 && b == 0 {
        g == 0
    } else {
        &&& divides(g, a as int)
        &&& divides(g, b as int)
        &&& forall|d: int| #[trigger] divides(d, a as int) && divides(d, b as int) ==> d <= g
    }
}

/// `a` and `b` have no common divisor but one.
pub open spec fn coprime(a: nat, b: nat) -> bool {
    gcd_of(a, b) == 1
}

/// No number from 2 up to, but not including, `bound` divides `n`.
pub open spec fn no_divisor_below(n: int, bound: int) -> bool {
    forall|k: int| 2 <= k < bound ==> !#[trigger] divides(k, n)
}

/// What trial division finds: nothing in `[2, n)` divides `n`. This holds of
/// every prime, and also of every `n < 2`.
pub open spec fn trial_prime(n: int) -> bool {
    no_divisor_below(n, n)
}

/// `n` is a prime number.
pub open spec fn is_prime(n: int) -> bool {
    n >= 2 && trial_prime(n)
}

/// The greatest divisor of `n` in `[1, k]` that passes trial division, or 0
/// where there is none (that is, where `k < 1`).
pub open spec fn greatest_trial_factor_upto(n: int, k: int) -> int
    decreases k,
{
    if k < 1 {
        0
    } else if divides(k, n) && trial_prime(k) {
        k
    } else {
        greatest_trial_factor_upto(n, k - 1)
    }
}

/// The greatest divisor of `n` that passes trial division: the greatest prime
/// factor of `n` for `n >= 2`, 1 for `n == 1`, and 0 for `n < 1`.
pub open spec fn greatest_trial_factor(n: int) -> int {
    greatest_trial_factor_upto(n, n)
}

/// The greatest prime divisor of `n` in `[2, k]`, or 0 where there is none.
pub open spec fn greatest_prime_factor_upto(n: int, k: int) -> int
    decreases k,
{
    if k < 2 {
        0
    } else if divides(k, n) && is_prime(k) {
        k
    } else {
        greatest_prime_factor_upto(n, k - 1)
    }
}

/// The greatest prime factor of `n`, or 0 where `n < 2`.
pub open spec fn greatest_prime_factor(n: int) -> int {
    greatest_prime_factor_upto(n, n)
}

/// The greatest divisor up to `k` that passes trial division is no greater
/// than `k`.
pub proof fn lemma_trial_factor_bound(n: int, k: int)
    requires
        k >= 0,
    ensures
        0 <= greatest_trial_factor_upto(n, k) <= k,
    decreases k,
{
    if k >= 1 {
        lemma_trial_factor_bound(n, k - 1);
    }
}

/// A divisor of `n` that passes trial division, above which no divisor of
/// `n` does, is the greatest such divisor.
pub proof fn lemma_greatest_trial_factor(n: int, g: int, upto: int)
    requires
        1 <= g <= upto <= n,
        divides(g, n),
        trial_prime(g),
        forall|k: int| g < k <= n && #[trigger] divides(k, n) ==> !trial_prime(k),
    ensures
        greatest_trial_factor_upto(n, upto) == g,
    decreases upto - g,
{
    if upto > g {
        lemma_greatest_trial_factor(n, g, upto - 1);
    }
}

/// A multiple of `d` is divisible by `d`.
pub proof fn lemma_multiple_is_divisible(d: int, k: int)
    requires
        d > 0,
    ensures
        divides(d, d * k),
        divides(d, k * d),
{
    lemma_mod_multiples_basic(k, d);
    assert(d * k == k * d) by (nonlinear_arith);
}

/// What `d` divides is `d` times the quotient.
pub proof fn lemma_divisible_is_multiple(d: int, n: int)
    requires
        divides(d, n),
    ensures
        n == d * (n / d),
{
    lemma_fundamental_div_mod(n, d);
}

/// A positive divisor of a positive number is no greater than it.
pub proof fn lemma_divisor_bound(d: int, n: int)
    requires
        divides(d, n),
        n > 0,
    ensures
        d <= n,
{
    lemma_divisible_is_multiple(d, n);
    let q = n / d;
    assert(q >= 1) by (nonlinear_arith)
        requires
            n == d * q,
            n > 0,
            d > 0,
    ;
    assert(d * q >= d) by (nonlinear_arith)
        requires
            q >= 1,
            d > 0,
    ;
}

/// Divisibility carries over sums and differences of multiples.
pub proof fn lemma_divides_combination(d: int, a: int, b: int, x: int, y: int)
    requires
        divides(d, a),
        divides(d, b),
    ensures
        divides(d, a * x + b * y),
{
    lemma_divisible_is_multiple(d, a);
    lemma_divisible_is_multiple(d, b);
    let p = a / d;
    let q = b / d;
    assert(a * x + b * y == d * (p * x + q * y)) by (nonlinear_arith)
        requires
            a == d * p,
            b == d * q,
    ;
    lemma_multiple_is_divisible(d, p * x + q * y);
}

/// Divisibility is transitive.
pub proof fn lemma_divides_transitive(a: int, b: int, c: int)
    requires
        divides(a, b),
        divides(b, c),
    ensures
        divides(a, c),
{
    lemma_divisible_is_multiple(b, c);
    lemma_divides_combination(a, b, b, c / b, 0);
    assert(b * (c / b) + b * 0 == c) by (nonlinear_arith)
        requires
            c == b * (c / b),
    ;
}

/// The greatest common divisor is positive unless both numbers are zero.
pub proof fn lemma_gcd_positive(a: nat, b: nat)
    requires
        a > 0 || b > 0,
    ensures
        gcd_of(a, b) > 0,
    decreases b,
{
    if b != 0 {
        lemma_gcd_positive(b, a % b);
    }
}

/// The greatest common divisor divides both numbers.
pub proof fn lemma_gcd_divides_both(a: nat, b: nat)
    requires
        a > 0 || b > 0,
    ensures
        divides(gcd_of(a, b) as int, a as int),
        divides(gcd_of(a, b) as int, b as int),
    decreases b,
{
    lemma_gcd_positive(a, b);
    let g = gcd_of(a, b) as int;
    if b == 0 {
        lemma_multiple_is_divisible(g, 1);
        lemma_multiple_is_divisible(g, 0);
    } else {
        let r = a % b;
        lemma_gcd_divides_both(b, r);
        lemma_fundamental_div_mod(a as int, b as int);
        lemma_divides_combination(g, b as int, r as int, a as int / b as int, 1);
    }
}

/// Every common divisor of two numbers divides their greatest common divisor.
pub proof fn lemma_common_divisor_divides_gcd(d: int, a: nat, b: nat)
    requires
        divides(d, a as int),
        divides(d, b as int),
    ensures
        divides(d, gcd_of(a, b) as int),
    decreases b,
{
    if b != 0 {
        let r = a % b;
        lemma_fundamental_div_mod(a as int, b as int);
        lemma_divides_combination(d, a as int, b as int, 1, -(a as int / b as int));
        assert(a as int * 1 + b as int * (-(a as int / b as int)) == r as int)
            by (nonlinear_arith)
            requires
                a as int == b as int * (a as int / b as int) + r as int,
        ;
        lemma_common_divisor_divides_gcd(d, b, r);
    }
}

/// What Euclid's recursion gives is the greatest common divisor.
pub proof fn lemma_gcd_is_greatest(a: nat, b: nat)
    ensures
        is_greatest_common_divisor(gcd_of(a, b) as int, a, b),
{
    if a > 0 || b > 0 {
        lemma_gcd_positive(a, b);
        lemma_gcd_divides_both(a, b);
        assert forall|d: int| #[trigger] divides(d, a as int) && divides(d, b as int) implies d
            <= gcd_of(a, b) by {
            lemma_common_divisor_divides_gcd(d, a, b);
            lemma_divisor_bound(d, gcd_of(a, b) as int);
        }
    }
}

/// The order of the arguments does not matter to the greatest common divisor.
pub proof fn lemma_gcd_symmetric(a: nat, b: nat)
    ensures
        gcd_of(a, b) == gcd_of(b, a),
{
    if a == 0 && b == 0 {
    } else {
        let g = gcd_of(a, b);
        let h = gcd_of(b, a);
        lemma_gcd_positive(a, b);
        lemma_gcd_positive(b, a);
        lemma_gcd_divides_both(a, b);
        lemma_gcd_divides_both(b, a);
        lemma_common_divisor_divides_gcd(g as int, b, a);
        lemma_common_divisor_divides_gcd(h as int, a, b);
        lemma_divisor_bound(g as int, h as int);
        lemma_divisor_bound(h as int, g as int);
    }
}

/// Two numbers divided by their greatest common divisor are coprime.
pub proof fn lemma_quotients_coprime(a: nat, b: nat)
    requires
        a > 0 || b > 0,
    ensures
        coprime(a / gcd_of(a, b), b / gcd_of(a, b)),
{
    let g = gcd_of(a, b) as int;
    lemma_gcd_positive(a, b);
    lemma_gcd_divides_both(a, b);
    lemma_divisible_is_multiple(g, a as int);
    lemma_divisible_is_multiple(g, b as int);
    let p = a as int / g;
    let q = b as int / g;
    assert(p >= 0 && q >= 0 && (p > 0 || q > 0)) by (nonlinear_arith)
        requires
            a as int == g * p,
            b as int == g * q,
            g > 0,
            a > 0 || b > 0,
    ;
    let h = gcd_of(p as nat, q as nat) as int;
    lemma_gcd_positive(p as nat, q as nat);
    lemma_gcd_divides_both(p as nat, q as nat);
    lemma_divisible_is_multiple(h, p);
    lemma_divisible_is_multiple(h, q);
    // g * h divides both a and b, so it divides g.
    assert(a as int == (g * h) * (p / h)) by (nonlinear_arith)
        requires
            a as int == g * p,
            p == h * (p / h),
    ;
    assert(b as int == (g * h) * (q / h)) by (nonlinear_arith)
        requires
            b as int == g * q,
            q == h * (q / h),
    ;
    assert(g * h > 0) by (nonlinear_arith)
        requires
            g > 0,
            h > 0,
    ;
    lemma_multiple_is_divisible(g * h, p / h);
    lemma_multiple_is_divisible(g * h, q / h);
    lemma_common_divisor_divides_gcd(g * h, a, b);
    lemma_divisor_bound(g * h, g);
    assert(h == 1) by (nonlinear_arith)
        requires
            g * h <= g,
            g > 0,
            h > 0,
    ;
}

/// Coefficients `(x, y)` with `a * x + b * y == gcd_of(a, b)`.
pub open spec fn bezout_coefficients(a: nat, b: nat) -> (int, int)
    decreases b,
{
    if b == 0 {
        (1, 0)
    } else {
        let (x, y) = bezout_coefficients(b, a % b);
        (y, x - (a as int / b as int) * y)
    }
}

/// The greatest common divisor is a combination of the two numbers.
pub proof fn lemma_bezout(a: nat, b: nat)
    ensures
        a * bezout_coefficients(a, b).0 + b * bezout_coefficients(a, b).1 == gcd_of(a, b),
    decreases b,
{
    if b != 0 {
        let r = a % b;
        let q = a as int / b as int;
        lemma_bezout(b, r);
        lemma_fundamental_div_mod(a as int, b as int);
        let (x, y) = bezout_coefficients(b, r);
        assert(a * y + b * (x - q * y) == b * x + r * y) by (nonlinear_arith)
            requires
                a as int == b as int * q + r as int,
        ;
    }
}

/// What is coprime to one factor of a product it divides, divides the other.
pub proof fn lemma_coprime_divides_product(a: nat, b: nat, c: nat)
    requires
        coprime(a, b),
        divides(a as int, (b * c) as int),
    ensures
        divides(a as int, c as int),
{
    lemma_bezout(a, b);
    let (x, y) = bezout_coefficients(a, b);
    lemma_multiple_is_divisible(a as int, c as int);
    lemma_divides_combination(a as int, (a * c) as int, (b * c) as int, x, y);
    assert((a * c) * x + (b * c) * y == c as int) by (nonlinear_arith)
        requires
            a * x + b * y == 1,
    ;
}

/// Two fractions in lowest terms with positive denominators that are equal in
/// value are the same fraction.
pub proof fn lemma_lowest_terms_unique(n1: int, d1: int, n2: int, d2: int)
    requires
        d1 > 0,
        d2 > 0,
        coprime(magnitude(n1), d1 as nat),
        coprime(magnitude(n2), d2 as nat),
        n1 * d2 == n2 * d1,
    ensures
        n1 == n2,
        d1 == d2,
{
    let a1 = magnitude(n1);
    let a2 = magnitude(n2);
    assert(a1 * d2 == a2 * d1) by (nonlinear_arith)
        requires
            n1 * d2 == n2 * d1,
            d1 > 0,
            d2 > 0,
            a1 == (if n1 < 0 { -n1 } else { n1 }),
            a2 == (if n2 < 0 { -n2 } else { n2 }),
    ;
    // d1 divides a1 * d2 and is coprime to a1, so it divides d2; and back.
    lemma_gcd_symmetric(a1, d1 as nat);
    lemma_gcd_symmetric(a2, d2 as nat);
    lemma_multiple_is_divisible(d1, a2 as int);
    lemma_multiple_is_divisible(d2, a1 as int);
    lemma_coprime_divides_product(d1 as nat, a1, d2 as nat);
    lemma_coprime_divides_product(d2 as nat, a2, d1 as nat);
    lemma_divisor_bound(d1, d2);
    lemma_divisor_bound(d2, d1);
    assert(n1 == n2) by (nonlinear_arith)
        requires
            n1 * d2 == n2 * d1,
            d1 == d2,
            d1 > 0,
    ;
}

/// The only divisors of a prime are 1 and the prime, so a prime that does not
/// divide a number is coprime to it.
pub proof fn lemma_prime_coprime(p: nat, a: nat)
    requires
        is_prime(p as int),
        !divides(p as int, a as int),
    ensures
        coprime(p, a),
{
    let g = gcd_of(p, a) as int;
    lemma_gcd_positive(p, a);
    lemma_gcd_divides_both(p, a);
    lemma_divisor_bound(g, p as int);
    if g != 1 {
        if g < p {
            assert(divides(g, p as int));
        }
    }
}

/// A prime that divides a product divides one of the factors.
pub proof fn lemma_prime_divides_product(p: nat, a: nat, b: nat)
    requires
        is_prime(p as int),
        divides(p as int, (a * b) as int),
    ensures
        divides(p as int, a as int) || divides(p as int, b as int),
{
    if !divides(p as int, a as int) {
        lemma_prime_coprime(p, a);
        lemma_coprime_divides_product(p, a, b);
    }
}

} // verus!
