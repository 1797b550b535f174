//! Executable integer helpers: divisors, trial-division primality, greatest
//! common divisor, greatest prime factor, and the power-of-two test.
use crate::number_theory::{
    divides, gcd_of, greatest_prime_factor, greatest_prime_factor_upto, greatest_trial_factor,
    greatest_trial_factor_upto, is_greatest_common_divisor, is_prime, lemma_divisor_bound,
    lemma_gcd_divides_both, lemma_gcd_is_greatest, lemma_multiple_is_divisible, magnitude,
    no_divisor_below, trial_prime,
};
use vstd::arithmetic::power2::is_pow2;
use vstd::prelude::*;

verus! {

/// `v` lists, in ascending order and each once, the divisors of `n` in
/// `[1, n]`. For `n < 1` that is the empty list.
pub open spec fn is_divisor_list(v: Seq<i32>, n: int) -> bool {
    &&& forall|i: int| 0 <= i < v.len() ==> 1 <= #[trigger] v[i] <= n && divides(v[i] as int, n)
    &&& forall|i: int, j: int| 0 <= i < j < v.len() ==> v[i] < v[j]
    &&& forall|k: int| 1 <= k <= n && #[trigger] divides(k, n) ==> exists|i: int|
        0 <= i < v.len() && #[trigger] v[i] == k
}

/// The divisors of `num` from 1 to `num`, ascending.
pub fn factors(num: i32) -> (result: Vec<i32>)
    ensures
        is_divisor_list(result@, num as int),
{
    let mut result: Vec<i32> = Vec::new();
    if num < 1 {
        return result;
    }
    let mut n: i32 = 1;
    while n < num
        invariant
            1 <= n <= num,
            forall|i: int|
                0 <= i < result.len() ==> 1 <= #[trigger] result[i] < n && divides(
                    result[i] as int,
                    num as int,
                ),
            forall|i: int, j: int| 0 <= i < j < result.len() ==> result[i] < result[j],
            forall|k: int|
                1 <= k < n && #[trigger] divides(k, num as int) ==> exists|i: int|
                    0 <= i < result.len() && #[trigger] result[i] == k,
        decreases num - n,
    {
        let ghost before = result@;
        if num % n == 0 {
            result.push(n);
            assert(result[before.len() as int] == n);
        }
        assert forall|k: int| 1 <= k < n + 1 && #[trigger] divides(k, num as int) implies exists|
            i: int,
        | 0 <= i < result.len() && #[trigger] result[i] == k by {
            if k < n {
                let i = choose|i: int| 0 <= i < before.len() && #[trigger] before[i] == k;
                assert(result[i] == k);
            }
        }
        n += 1;
    }
    let ghost before = result@;
    proof {
        lemma_multiple_is_divisible(num as int, 1);
    }
    result.push(num);
    assert(result[before.len() as int] == num);
    assert forall|k: int| 1 <= k <= num && #[trigger] divides(k, num as int) implies exists|
        i: int,
    | 0 <= i < result.len() && #[trigger] result[i] == k by {
        if k < num {
            let i = choose|i: int| 0 <= i < before.len() && #[trigger] before[i] == k;
            assert(result[i] == k);
        }
    }
    result
}

/// Trial division: `true` where no number in `[2, num)` divides `num`. That
/// is primality for `num >= 2`; every `num < 2` passes as well.
pub fn prime(num: i32) -> (b: bool)
    ensures
        b == trial_prime(num as int),
{
    let mut n: i32 = 2;
    while n < num
        invariant
            2 <= n,
            n <= num || num < 2,
            no_divisor_below(num as int, n as int),
        decreases num - n,
    {
        if num % n == 0 {
            assert(divides(n as int, num as int));
            return false;
        }
        n += 1;
    }
    true
}

/// The greatest common divisor of two unsigned numbers, by Euclid's algorithm.
pub fn gcd_wide(a: u64, b: u64) -> (g: u64)
    ensures
        g == gcd_of(a as nat, b as nat),
        is_greatest_common_divisor(g as int, a as nat, b as nat),
{
    proof {
        lemma_gcd_is_greatest(a as nat, b as nat);
    }
    let mut x = a;
    let mut y = b;
    while y != 0
        invariant
            gcd_of(x as nat, y as nat) == gcd_of(a as nat, b as nat),
        decreases y,
    {
        let t = y;
        y = x % y;
        x = t;
    }
    x
}

/// The absolute value of `x`, which always fits the unsigned type.
pub fn magnitude_wide(x: i64) -> (m: u64)
    ensures
        m == magnitude(x as int),
{
    if x < 0 {
        if x == i64::MIN {
            0x8000_0000_0000_0000u64
        } else {
            (-x) as u64
        }
    } else {
        x as u64
    }
}

/// The greatest common divisor of `x` and `y`, taken of their absolute values
/// and never negative; `gcd(0, y)` is `|y|`. The one result that does not fit,
/// `2^31`, is left out: it belongs to `i32::MIN` with itself or with 0.
pub fn gcd(x: i32, y: i32) -> (g: i32)
    requires
        (x != 0 && x != i32::MIN) || (y != 0 && y != i32::MIN) || (x == 0 && y == 0),
    ensures
        g == gcd_of(magnitude(x as int), magnitude(y as int)),
        is_greatest_common_divisor(g as int, magnitude(x as int), magnitude(y as int)),
{
    proof {
        let a = magnitude(x as int);
        let b = magnitude(y as int);
        lemma_gcd_is_greatest(a, b);
        if a > 0 || b > 0 {
            lemma_gcd_divides_both(a, b);
            if x != 0 && x != i32::MIN {
                lemma_divisor_bound(gcd_of(a, b) as int, a as int);
            } else {
                lemma_divisor_bound(gcd_of(a, b) as int, b as int);
            }
        }
    }
    let g = gcd_wide(magnitude_wide(x as i64), magnitude_wide(y as i64));
    g as i32
}

/// Between `lo` and `hi` nothing divides `n`, so the search from `hi` down
/// finds what the search from `lo` down finds.
proof fn lemma_trial_factor_skip(n: int, lo: int, hi: int)
    requires
        0 <= lo <= hi,
        forall|k: int| lo < k <= hi ==> !#[trigger] divides(k, n),
    ensures
        greatest_trial_factor_upto(n, hi) == greatest_trial_factor_upto(n, lo),
    decreases hi - lo,
{
    if lo < hi {
        lemma_trial_factor_skip(n, lo, hi - 1);
    }
}

/// The greatest divisor of `num` that passes trial division. For `num >= 2`
/// that is its greatest prime factor; `gpf(1)` is 1, and `gpf(num)` is 0 for
/// `num < 1`.
pub fn gpf(num: i32) -> (result: i32)
    ensures
        result == greatest_trial_factor(num as int),
{
    let all = factors(num);
    let mut result: i32 = 0;
    let mut i: usize = 0;
    while i < all.len()
        invariant
            0 <= i <= all.len(),
            is_divisor_list(all@, num as int),
            i == 0 ==> result == 0,
            i > 0 ==> 0 <= result <= all[i - 1],
            i > 0 ==> result == greatest_trial_factor_upto(num as int, all[i - 1] as int),
        decreases all.len() - i,
    {
        let n = all[i];
        let ghost below: int = if i == 0 {
            0
        } else {
            all[i - 1] as int
        };
        proof {
            assert forall|k: int| below < k <= n - 1 implies !#[trigger] divides(k, num as int) by {
                if divides(k, num as int) {
                    let j = choose|j: int| 0 <= j < all.len() && #[trigger] all[j] == k;
                    if j < i {
                        if j < i - 1 {
                            assert(all[j] < all[i - 1]);
                        }
                    } else if j > i {
                        assert(all[i as int] < all[j]);
                    }
                }
            }
            lemma_trial_factor_skip(num as int, below, n - 1);
            assert(result == greatest_trial_factor_upto(num as int, n - 1));
            assert(divides(n as int, num as int));
            if i > 0 {
                assert(all[i - 1] < all[i as int]);
            }
        }
        if prime(n) && n > result {
            result = n;
        }
        i += 1;
    }
    proof {
        if num >= 1 {
            lemma_multiple_is_divisible(num as int, 1);
            let j = choose|j: int| 0 <= j < all.len() && #[trigger] all[j] == num as int;
            let last = all[all.len() - 1] as int;
            if j < all.len() - 1 {
                assert(all[j] < all[all.len() - 1]);
            }
            assert(last == num);
        }
    }
    result
}

/// From 2 on, a number shares no bit with its predecessor exactly when it is
/// even and its half shares none with the predecessor of the half.
proof fn lemma_single_bit_step(x: u32)
    by (bit_vector)
    requires
        x >= 2,
    ensures
        ((x & ((x - 1) as u32)) == 0) <==> (x % 2 == 0 && ((x / 2) & ((x / 2 - 1) as u32)) == 0),
{
}

/// A positive number shares no bit with its predecessor exactly when it is a
/// power of two.
proof fn lemma_single_bit(x: u32)
    requires
        x >= 1,
    ensures
        ((x & ((x - 1) as u32)) == 0) <==> is_pow2(x as int),
    decreases x,
{
    reveal(is_pow2);
    if x == 1 {
        assert(1u32 & 0u32 == 0) by (bit_vector);
    } else {
        lemma_single_bit_step(x);
        lemma_single_bit((x / 2) as u32);
    }
}

/// Whether `num` is a power of two: 1, 2, 4, ... No number below 1 is one.
pub fn power_of_two(num: i32) -> (b: bool)
    ensures
        b == is_pow2(num as int),
{
    if num < 1 {
        proof {
            reveal(is_pow2);
        }
        return false;
    }
    let x = num as u32;
    proof {
        lemma_single_bit(x);
    }
    (x & (x - 1)) == 0
}

/// Above 1 the greatest prime factor is the greatest divisor that passes
/// trial division; up to 1 there is no prime factor.
pub proof fn lemma_prime_factor_is_trial_factor(n: int, k: int)
    ensures
        greatest_prime_factor_upto(n, k) == if greatest_trial_factor_upto(n, k) >= 2 {
            greatest_trial_factor_upto(n, k)
        } else {
            0
        },
    decreases k,
{
    if k >= 1 {
        lemma_prime_factor_is_trial_factor(n, k - 1);
        if k == 1 {
            assert(divides(1, n));
            assert(trial_prime(1));
        }
    }
}

/// Number-theoretic questions asked of an integer.
pub trait IntExt {
    /// The divisors of the number from 1 up to itself, ascending.
    fn factors(self) -> Vec<i32>;

    /// Whether the number is prime.
    fn is_prime(self) -> bool;

    /// Whether the number is a power of two.
    fn is_power_of_two(self) -> bool;

    /// The greatest prime factor of the number, 0 where it has none.
    fn gpf(self) -> i32;
}

impl IntExt for i32 {
    fn factors(self) -> (result: Vec<i32>)
        ensures
            is_divisor_list(result@, self as int),
    {
        self::factors(self)
    }

    fn is_prime(self) -> (b: bool)
        ensures
            b == is_prime(self as int),
    {
        self >= 2 && prime(self)
    }

    fn is_power_of_two(self) -> (b: bool)
        ensures
            b == is_pow2(self as int),
    {
        power_of_two(self)
    }

    fn gpf(self) -> (result: i32)
        ensures
            result == greatest_prime_factor(self as int),
    {
        let g = self::gpf(self);
        proof {
            lemma_prime_factor_is_trial_factor(self as int, self as int);
        }
        if g >= 2 {
            g
        } else {
            0
        }
    }
}

} // verus!
