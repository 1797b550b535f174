//! The otonal side of a prime axis: what the pitches along it look like, and
//! that the search for a lattice position finds each of them again.
use crate::error::Error;
use crate::lattice::LatticePosition;
use crate::number_theory::{
    coprime, divides, gcd_of, is_prime, lemma_divisor_bound, lemma_greatest_trial_factor,
    lemma_multiple_is_divisible, lemma_prime_divides_product, trial_prime,
};
use crate::octave::{lemma_coprime_doubled, octave_distance, octave_reduce};
use crate::pitch::{
    is_position_of, lemma_walk_error_stays, lemma_walk_wf, limit_of, meets_axis, pitch_outcome,
    unison, walk_outcome, Pitch, POSITION_SEARCH_LIMIT,
};
use crate::ratio::{lemma_lowest_terms_fixed, lemma_product_sign, Fraction};
use vstd::arithmetic::power::{lemma_pow_positive, lemma_pow_strictly_increases, pow};
use vstd::arithmetic::power2::is_pow2;
use vstd::prelude::*;

verus! {

/// A prime from 3 on is odd.
pub proof fn lemma_prime_is_odd(p: int)
    requires
        is_prime(p),
        p >= 3,
    ensures
        p % 2 == 1,
{
    if p % 2 == 0 {
        assert(divides(2, p));
    }
}

/// Twice a power of two is a power of two.
pub proof fn lemma_pow2_doubled(d: int)
    requires
        is_pow2(d),
    ensures
        is_pow2(2 * d),
{
    reveal(is_pow2);
}

/// The product of two powers of two is a power of two.
pub proof fn lemma_pow2_product(x: int, y: int)
    requires
        is_pow2(x),
        is_pow2(y),
    ensures
        is_pow2(x * y),
    decreases x,
{
    reveal(is_pow2);
    if x == 1 {
        assert(x * y == y);
    } else {
        lemma_pow2_product(x / 2, y);
        lemma_pow2_doubled((x / 2) * y);
        assert(x * y == 2 * ((x / 2) * y)) by (nonlinear_arith)
            requires
                x == 2 * (x / 2),
        ;
    }
}

/// An odd number and a power of two are coprime.
pub proof fn lemma_odd_coprime_to_pow2(n: nat, d: nat)
    requires
        n % 2 == 1,
        is_pow2(d as int),
    ensures
        coprime(n, d),
    decreases d,
{
    reveal(is_pow2);
    if d == 1 {
        reveal_with_fuel(gcd_of, 3);
        assert(n % 1 == 0);
    } else {
        lemma_odd_coprime_to_pow2(n, d / 2);
        lemma_coprime_doubled(n, d / 2);
    }
}

/// The product of two odd numbers is odd.
pub proof fn lemma_odd_product(a: int, b: int)
    requires
        a % 2 == 1,
        b % 2 == 1,
    ensures
        (a * b) % 2 == 1,
{
    let i = a / 2;
    let j = b / 2;
    assert(a * b == 2 * (2 * i * j + i + j) + 1) by (nonlinear_arith)
        requires
            a == 2 * i + 1,
            b == 2 * j + 1,
    ;
}

/// Octave reduction leaves an odd numerator over a power of two as it is,
/// and over a power of two.
pub proof fn lemma_octave_reduce_odd(n: int, d: int)
    requires
        n > 0,
        n % 2 == 1,
        is_pow2(d),
    ensures
        octave_reduce(n, d).num == n,
        is_pow2(octave_reduce(n, d).den),
    decreases octave_distance(n, d),
{
    reveal(is_pow2);
    if n >= 2 * d {
        lemma_pow2_doubled(d);
        lemma_octave_reduce_odd(n, 2 * d);
    } else if n < d {
        lemma_octave_reduce_odd(n, d / 2);
    }
}

/// The next power is the base times the power.
pub proof fn lemma_pow_step(b: int, e: nat)
    ensures
        pow(b, e + 1) == pow(b, e) * b,
{
    reveal(pow);
    assert(b * pow(b, e) == pow(b, e) * b) by (nonlinear_arith);
}

/// Every power of an odd number is odd.
pub proof fn lemma_pow_odd(b: int, e: nat)
    requires
        b % 2 == 1,
    ensures
        pow(b, e) % 2 == 1,
    decreases e,
{
    reveal(pow);
    if e > 0 {
        lemma_pow_odd(b, (e - 1) as nat);
        lemma_odd_product(b, pow(b, (e - 1) as nat));
    }
}

/// The pitch is the power `steps` of `axis` over a power of two.
pub open spec fn on_otonal_axis(p: Pitch, axis: int, steps: nat) -> bool {
    p.ratio.numerator == pow(axis, steps) && is_pow2(p.ratio.denominator as int)
}

/// The pitch of an odd number, and every combination of pitches that are odd
/// numbers over powers of two, is an odd number over a power of two: the
/// product of the numerators, unchanged.
pub proof fn lemma_odd_over_pow2(n: int, d: int)
    requires
        n > 0,
        n % 2 == 1,
        is_pow2(d),
    ensures
        pitch_outcome(n, d) matches Ok(p) ==> p.ratio.numerator == n && is_pow2(
            p.ratio.denominator as int,
        ),
{
    reveal(is_pow2);
    lemma_odd_coprime_to_pow2(n as nat, d as nat);
    lemma_lowest_terms_fixed(Fraction { num: n, den: d });
    lemma_octave_reduce_odd(n, d);
}

/// The walk along the pitch of an odd prime is, after `steps` steps, at the
/// power `steps` of the prime over a power of two.
pub proof fn lemma_walk_on_axis(axis: int, steps: nat)
    requires
        is_prime(axis),
        axis >= 3,
        pitch_outcome(axis, 1) is Ok,
    ensures
        walk_outcome(pitch_outcome(axis, 1).unwrap(), unison(), steps) matches Ok(p)
            ==> on_otonal_axis(p, axis, steps),
    decreases steps,
{
    let generator = pitch_outcome(axis, 1).unwrap();
    reveal(is_pow2);
    reveal(pow);
    lemma_prime_is_odd(axis);
    if steps > 0 {
        lemma_walk_on_axis(axis, (steps - 1) as nat);
        lemma_odd_over_pow2(axis, 1);
        if let Ok(before) = walk_outcome(generator, unison(), (steps - 1) as nat) {
            let n = before.ratio.numerator * generator.ratio.numerator;
            let d = before.ratio.denominator * generator.ratio.denominator;
            lemma_pow_odd(axis, (steps - 1) as nat);
            lemma_pow_positive(axis, (steps - 1) as nat);
            lemma_odd_product(before.ratio.numerator as int, axis);
            lemma_pow2_product(
                before.ratio.denominator as int,
                generator.ratio.denominator as int,
            );
            lemma_product_sign(before.ratio.numerator as int, axis);
            lemma_odd_over_pow2(n, d);
            lemma_pow_step(axis, (steps - 1) as nat);
        }
    }
}

/// A prime that divides a power of a prime is that prime.
pub proof fn lemma_prime_factor_of_power(f: int, p: int, e: nat)
    requires
        is_prime(f),
        is_prime(p),
        divides(f, pow(p, e)),
    ensures
        f == p,
    decreases e,
{
    reveal(pow);
    if e == 0 {
        lemma_divisor_bound(f, 1);
    } else {
        let rest = pow(p, (e - 1) as nat);
        lemma_pow_positive(p, (e - 1) as nat);
        lemma_prime_divides_product(f as nat, p as nat, rest as nat);
        if divides(f, p) {
            lemma_divisor_bound(f, p);
        } else {
            lemma_prime_factor_of_power(f, p, (e - 1) as nat);
        }
    }
}

/// A prime that divides a power of two is two.
pub proof fn lemma_prime_factor_of_pow2(f: int, d: int)
    requires
        is_prime(f),
        is_pow2(d),
        divides(f, d),
    ensures
        f == 2,
    decreases d,
{
    reveal(is_pow2);
    if d == 1 {
        lemma_divisor_bound(f, 1);
    } else {
        lemma_prime_divides_product(f as nat, 2, (d / 2) as nat);
        if divides(f, 2) {
            lemma_divisor_bound(f, 2);
        } else {
            lemma_prime_factor_of_pow2(f, d / 2);
        }
    }
}

/// The limit of a power of an odd prime over a power of two is the prime.
pub proof fn lemma_limit_on_axis(p: Pitch, axis: int, steps: nat)
    requires
        is_prime(axis),
        axis >= 3,
        steps >= 1,
        on_otonal_axis(p, axis, steps),
    ensures
        limit_of(p.ratio@) == axis,
        axis <= p.ratio.numerator,
{
    reveal(is_pow2);
    reveal(pow);
    let n = p.ratio.numerator as int;
    let d = p.ratio.denominator as int;
    lemma_pow_positive(axis, steps);
    lemma_multiple_is_divisible(axis, pow(axis, (steps - 1) as nat));
    lemma_divisor_bound(axis, n);
    assert forall|k: int| axis < k <= n && #[trigger] divides(k, n) implies !trial_prime(k) by {
        if trial_prime(k) {
            lemma_prime_factor_of_power(k, axis, steps);
        }
    }
    lemma_greatest_trial_factor(n, axis, n);
    if d == 1 {
        assert(divides(1, 1));
        assert(trial_prime(1));
    } else {
        assert(divides(2, d));
        assert(trial_prime(2));
        assert forall|k: int| 2 < k <= d && #[trigger] divides(k, d) implies !trial_prime(k) by {
            if trial_prime(k) {
                lemma_prime_factor_of_pow2(k, d);
            }
        }
        lemma_greatest_trial_factor(d, 2, d);
    }
}

/// A power of a number from 2 on that fits 32 bits has an exponent within
/// the reach of the search for a lattice position.
pub proof fn lemma_power_within_reach(b: int, e: nat)
    requires
        b >= 2,
        pow(b, e) <= i32::MAX,
    ensures
        e < POSITION_SEARCH_LIMIT,
{
    if e >= 32 {
        lemma_power_of_two_below(b, 32);
        lemma_pow_positive(b, 32);
        if e > 32 {
            lemma_pow_strictly_increases(b as nat, 32, e);
        }
        vstd::arithmetic::power2::lemma2_to64();
        vstd::arithmetic::power2::lemma_pow2(32);
    }
}

/// The power of two is the least of the powers of the numbers from 2 on.
pub proof fn lemma_power_of_two_below(b: int, e: nat)
    requires
        b >= 2,
    ensures
        pow(2, e) <= pow(b, e),
    decreases e,
{
    reveal(pow);
    if e > 0 {
        lemma_power_of_two_below(b, (e - 1) as nat);
        lemma_pow_positive(2, (e - 1) as nat);
        assert(2 * pow(2, (e - 1) as nat) <= b * pow(b, (e - 1) as nat)) by (nonlinear_arith)
            requires
                b >= 2,
                0 < pow(2, (e - 1) as nat) <= pow(b, (e - 1) as nat),
        ;
    }
}

/// The search for a lattice position finds every pitch of the otonal walk
/// along an odd prime again: for the pitch that lies `steps >= 1` steps from
/// the unison on the axis of the prime `axis`, it gives that axis and that
/// number of steps.
pub proof fn lemma_position_round_trip(
    axis: int,
    steps: nat,
    pitch: Pitch,
    found: Result<LatticePosition, Error>,
)
    requires
        is_prime(axis),
        axis >= 3,
        steps >= 1,
        pitch_outcome(axis, 1) matches Ok(generator) && walk_outcome(generator, unison(), steps)
            == Ok::<Pitch, Error>(pitch),
        is_position_of(found, pitch),
    ensures
        found matches Ok(position) && position.dimension == axis && position.point == steps,
{
    let generator = pitch_outcome(axis, 1).unwrap();
    lemma_walk_on_axis(axis, steps);
    lemma_walk_wf(generator, unison(), steps);
    lemma_limit_on_axis(pitch, axis, steps);
    lemma_pow_strictly_increases(axis as nat, 0, steps);
    vstd::arithmetic::power::lemma_pow0(axis);
    lemma_power_within_reach(axis, steps);
    assert(pitch.limit == axis);
    assert(meets_axis(pitch, steps as int));
    assert forall|k: int| 1 <= k < steps implies !#[trigger] meets_axis(pitch, k) by {
        if walk_outcome(generator, unison(), k as nat) is Err {
            lemma_walk_error_stays(generator, unison(), k as nat, steps);
        } else {
            lemma_walk_on_axis(axis, k as nat);
            lemma_pow_strictly_increases(axis as nat, k as nat, steps);
        }
    }
}

} // verus!
