//! Octave reduction: bringing a positive fraction into `[1, 2)` by halving
//! and doubling.
use crate::number_theory::{
    coprime, divides, gcd_of, lemma_common_divisor_divides_gcd, lemma_coprime_divides_product,
    lemma_divides_transitive, lemma_divisor_bound, lemma_gcd_divides_both, lemma_gcd_positive,
    lemma_gcd_symmetric, lemma_lowest_terms_unique, lemma_multiple_is_divisible,
};
use crate::ratio::Fraction;
use vstd::arithmetic::power2::{
    lemma2_to64, lemma_pow2_adds, lemma_pow2_pos, lemma_pow2_strictly_increases,
    lemma_pow2_unfold, pow2,
};
use vstd::prelude::*;

verus! {

/// The fraction lies in the octave above the unison: `1 <= num / den < 2`.
pub open spec fn in_octave(f: Fraction) -> bool {
    0 < f.den <= f.num < 2 * f.den
}

/// `f` and `g` differ by a power of two: `f * 2^k == g` for a whole `k`,
/// negative or not.
pub open spec fn octaves_apart(f: Fraction, g: Fraction) -> bool {
    exists|a: nat, b: nat|
        #![trigger pow2(a), pow2(b)]
        f.num * g.den * pow2(a) == g.num * f.den * pow2(b)
}

/// `reduced` is the octave reduction of the positive fraction `f`: the
/// fraction in lowest terms and in `[1, 2)` that differs from `f` by a power
/// of two.
pub open spec fn is_octave_reduction_of(reduced: Fraction, f: Fraction) -> bool {
    &&& reduced.lowest_terms()
    &&& in_octave(reduced)
    &&& octaves_apart(reduced, f)
}

/// How far `n / d` is from the octave `[1, 2)`: what the reduction counts down.
pub open spec fn octave_distance(n: int, d: int) -> int {
    if n >= 2 * d {
        n - d
    } else if n < d {
        d - n
    } else {
        0
    }
}

/// The positive fraction `n / d`, given in lowest terms, halved while it is 2
/// or more and doubled while it is below 1, in lowest terms at every step: an
/// even numerator (denominator) is halved, else the other part is doubled.
pub open spec fn octave_reduce(n: int, d: int) -> Fraction
    decreases octave_distance(n, d),
{
    if n <= 0 || d <= 0 {
        Fraction { num: n, den: d }
    } else if n >= 2 * d {
        if n % 2 == 0 {
            octave_reduce(n / 2, d)
        } else {
            octave_reduce(n, 2 * d)
        }
    } else if n < d {
        if d % 2 == 0 {
            octave_reduce(n, d / 2)
        } else {
            octave_reduce(2 * n, d)
        }
    } else {
        Fraction { num: n, den: d }
    }
}

/// Halving an even part of a fraction in lowest terms leaves it in lowest
/// terms.
pub proof fn lemma_coprime_halved(a: nat, b: nat)
    requires
        coprime(a, b),
        a > 0,
        b > 0,
        a % 2 == 0,
    ensures
        coprime(a / 2, b),
{
    let h = a / 2;
    let g = gcd_of(h, b) as int;
    lemma_gcd_positive(h, b);
    lemma_gcd_divides_both(h, b);
    lemma_multiple_is_divisible(h as int, 2);
    lemma_divides_transitive(g, h as int, a as int);
    lemma_common_divisor_divides_gcd(g, a, b);
    lemma_divisor_bound(g, 1);
}

/// Doubling one part of a fraction in lowest terms whose other part is odd
/// leaves it in lowest terms.
pub proof fn lemma_coprime_doubled(a: nat, b: nat)
    requires
        coprime(a, b),
        a > 0,
        b > 0,
        a % 2 == 1,
    ensures
        coprime(a, 2 * b),
{
    let g = gcd_of(a, 2 * b);
    lemma_gcd_positive(a, 2 * b);
    lemma_gcd_divides_both(a, 2 * b);
    // g divides the odd a, so it is coprime to 2.
    let t = gcd_of(g, 2);
    lemma_gcd_positive(g, 2);
    lemma_gcd_divides_both(g, 2);
    lemma_divisor_bound(t as int, 2);
    if t == 2 {
        lemma_divides_transitive(2, g as int, a as int);
    }
    // So g, which divides 2 * b, divides b; and with a it divides 1.
    lemma_coprime_divides_product(g, 2, b);
    lemma_common_divisor_divides_gcd(g as int, a, b);
    lemma_divisor_bound(g as int, 1);
}

/// The reduced fraction lies in the octave, is in lowest terms where the
/// given one was, and differs from the given one by a power of two.
pub proof fn lemma_octave_reduce(n: int, d: int)
    requires
        n > 0,
        d > 0,
    ensures
        in_octave(octave_reduce(n, d)),
        coprime(n as nat, d as nat) ==> coprime(
            octave_reduce(n, d).num as nat,
            octave_reduce(n, d).den as nat,
        ),
        octaves_apart(octave_reduce(n, d), Fraction { num: n, den: d }),
    decreases octave_distance(n, d),
{
    let o = octave_reduce(n, d);
    if n >= 2 * d {
        if n % 2 == 0 {
            let h = n / 2;
            lemma_octave_reduce(h, d);
            if coprime(n as nat, d as nat) {
                lemma_coprime_halved(n as nat, d as nat);
            }
            let (a, b) = choose|a: nat, b: nat|
                #![trigger pow2(a), pow2(b)]
                o.num * d * pow2(a) == h * o.den * pow2(b);
            lemma_pow2_unfold(a + 1);
            assert(o.num * d * pow2(a + 1) == n * o.den * pow2(b)) by (nonlinear_arith)
                requires
                    o.num * d * pow2(a) == h * o.den * pow2(b),
                    pow2(a + 1) == 2 * pow2(a),
                    n == 2 * h,
            ;
        } else {
            lemma_octave_reduce(n, 2 * d);
            if coprime(n as nat, d as nat) {
                lemma_coprime_doubled(n as nat, d as nat);
            }
            let (a, b) = choose|a: nat, b: nat|
                #![trigger pow2(a), pow2(b)]
                o.num * (2 * d) * pow2(a) == n * o.den * pow2(b);
            lemma_pow2_unfold(a + 1);
            assert(o.num * d * pow2(a + 1) == n * o.den * pow2(b)) by (nonlinear_arith)
                requires
                    o.num * (2 * d) * pow2(a) == n * o.den * pow2(b),
                    pow2(a + 1) == 2 * pow2(a),
            ;
        }
    } else if n < d {
        if d % 2 == 0 {
            let h = d / 2;
            lemma_octave_reduce(n, h);
            if coprime(n as nat, d as nat) {
                lemma_gcd_symmetric(n as nat, d as nat);
                lemma_coprime_halved(d as nat, n as nat);
                lemma_gcd_symmetric(h as nat, n as nat);
            }
            let (a, b) = choose|a: nat, b: nat|
                #![trigger pow2(a), pow2(b)]
                o.num * h * pow2(a) == n * o.den * pow2(b);
            lemma_pow2_unfold(b + 1);
            assert(o.num * d * pow2(a) == n * o.den * pow2(b + 1)) by (nonlinear_arith)
                requires
                    o.num * h * pow2(a) == n * o.den * pow2(b),
                    pow2(b + 1) == 2 * pow2(b),
                    d == 2 * h,
            ;
        } else {
            lemma_octave_reduce(2 * n, d);
            if coprime(n as nat, d as nat) {
                lemma_gcd_symmetric(n as nat, d as nat);
                lemma_coprime_doubled(d as nat, n as nat);
                lemma_gcd_symmetric(d as nat, 2 * (n as nat));
            }
            let (a, b) = choose|a: nat, b: nat|
                #![trigger pow2(a), pow2(b)]
                o.num * d * pow2(a) == (2 * n) * o.den * pow2(b);
            lemma_pow2_unfold(b + 1);
            assert(o.num * d * pow2(a) == n * o.den * pow2(b + 1)) by (nonlinear_arith)
                requires
                    o.num * d * pow2(a) == (2 * n) * o.den * pow2(b),
                    pow2(b + 1) == 2 * pow2(b),
            ;
        }
    } else {
        assert(pow2(0) == 1) by {
            lemma2_to64();
        }
        assert(o.num * d * pow2(0) == n * o.den * pow2(0));
    }
}

/// A positive fraction has one octave reduction and no other.
pub proof fn lemma_octave_reduction_unique(one: Fraction, other: Fraction, f: Fraction)
    requires
        f.num > 0,
        f.den > 0,
        is_octave_reduction_of(one, f),
        is_octave_reduction_of(other, f),
    ensures
        one == other,
{
    let (a, b) = choose|a: nat, b: nat|
        #![trigger pow2(a), pow2(b)]
        one.num * f.den * pow2(a) == f.num * one.den * pow2(b);
    let (c, d) = choose|c: nat, d: nat|
        #![trigger pow2(c), pow2(d)]
        other.num * f.den * pow2(c) == f.num * other.den * pow2(d);
    // one * 2^(a + d) == other * 2^(b + c), the fraction f cancelled.
    lemma_pow2_adds(a, d);
    lemma_pow2_adds(b, c);
    lemma_pow2_pos(a);
    lemma_pow2_pos(b);
    lemma_pow2_pos(c);
    lemma_pow2_pos(d);
    let left = pow2(a + d) as int;
    let right = pow2(b + c) as int;
    assert((one.num * f.den) * (f.num * other.den) == (one.num * other.den) * (f.num * f.den))
        by (nonlinear_arith);
    assert((f.num * one.den) * (other.num * f.den) == (other.num * one.den) * (f.num * f.den))
        by (nonlinear_arith);
    assert(f.num * f.den > 0) by (nonlinear_arith)
        requires
            f.num > 0,
            f.den > 0,
    ;
    assert(one.num * f.den * pow2(a) == (one.num * f.den) * pow2(a));
    assert(f.num * one.den * pow2(b) == (f.num * one.den) * pow2(b));
    assert(other.num * f.den * pow2(c) == (other.num * f.den) * pow2(c));
    assert(f.num * other.den * pow2(d) == (f.num * other.den) * pow2(d));
    lemma_cross_cancel(
        one.num * other.den,
        other.num * one.den,
        one.num * f.den,
        f.num * one.den,
        other.num * f.den,
        f.num * other.den,
        f.num * f.den,
        pow2(a) as int,
        pow2(b) as int,
        pow2(c) as int,
        pow2(d) as int,
    );
    assert(one.num * other.den * left == other.num * one.den * right);
    // Both lie in one octave, so the powers of two are the same.
    if a + d < b + c {
        lemma_pow2_strictly_increases(a + d, b + c);
        lemma_pow2_adds(a + d, ((b + c) - (a + d)) as nat);
        lemma_pow2_doubles_at_least(((b + c) - (a + d)) as nat);
        lemma_octave_bound(one, other, left, pow2(((b + c) - (a + d)) as nat) as int);
    } else if a + d > b + c {
        lemma_pow2_strictly_increases(b + c, a + d);
        lemma_pow2_adds(b + c, ((a + d) - (b + c)) as nat);
        lemma_pow2_doubles_at_least(((a + d) - (b + c)) as nat);
        lemma_octave_bound(other, one, right, pow2(((a + d) - (b + c)) as nat) as int);
    }
    lemma_pow2_pos(a + d);
    assert(one.num * other.den == other.num * one.den) by (nonlinear_arith)
        requires
            one.num * other.den * left == other.num * one.den * right,
            left == right,
            left > 0,
    ;
    lemma_lowest_terms_unique(one.num, one.den, other.num, other.den);
}

/// From `x1 * pa == y1 * pb` and `x2 * pc == y2 * pd`, with `x1 * y2` and
/// `y1 * x2` the same positive multiple `m` of `u` and of `v`:
/// `u * (pa * pd) == v * (pb * pc)`.
proof fn lemma_cross_cancel(
    u: int,
    v: int,
    x1: int,
    y1: int,
    x2: int,
    y2: int,
    m: int,
    pa: int,
    pb: int,
    pc: int,
    pd: int,
)
    requires
        x1 * pa == y1 * pb,
        x2 * pc == y2 * pd,
        x1 * y2 == u * m,
        y1 * x2 == v * m,
        m > 0,
    ensures
        u * (pa * pd) == v * (pb * pc),
{
    assert((x1 * pa) * (y2 * pd) == (y1 * pb) * (x2 * pc)) by (nonlinear_arith)
        requires
            x1 * pa == y1 * pb,
            x2 * pc == y2 * pd,
    ;
    assert((x1 * pa) * (y2 * pd) == (x1 * y2) * (pa * pd)) by (nonlinear_arith);
    assert((y1 * pb) * (x2 * pc) == (y1 * x2) * (pb * pc)) by (nonlinear_arith);
    assert((u * m) * (pa * pd) == (u * (pa * pd)) * m) by (nonlinear_arith);
    assert((v * m) * (pb * pc) == (v * (pb * pc)) * m) by (nonlinear_arith);
    assert(u * (pa * pd) == v * (pb * pc)) by (nonlinear_arith)
        requires
            (u * (pa * pd)) * m == (v * (pb * pc)) * m,
            m > 0,
    ;
}

/// A positive power of two is at least two.
proof fn lemma_pow2_doubles_at_least(e: nat)
    requires
        e > 0,
    ensures
        pow2(e) >= 2,
{
    lemma_pow2_unfold(e);
    lemma_pow2_pos((e - 1) as nat);
}

/// Two fractions of one octave are less than a factor of two apart.
proof fn lemma_octave_bound(low: Fraction, high: Fraction, unit: int, factor: int)
    requires
        in_octave(low),
        in_octave(high),
        unit > 0,
        factor >= 2,
    ensures
        low.num * high.den * unit != high.num * low.den * (unit * factor),
{
    if low.num * high.den * unit == high.num * low.den * (unit * factor) {
        assert(low.num * high.den == high.num * low.den * factor) by (nonlinear_arith)
            requires
                low.num * high.den * unit == high.num * low.den * (unit * factor),
                unit > 0,
        ;
        assert(low.num * high.den != high.num * low.den * factor) by (nonlinear_arith)
            requires
                factor >= 2,
                0 < low.den <= low.num < 2 * low.den,
                0 < high.den <= high.num < 2 * high.den,
        {
            assert(high.num * low.den * factor >= 2 * (high.num * low.den));
            assert(high.num * low.den >= high.den * low.den);
            assert(low.num * high.den < 2 * low.den * high.den);
        }
    }
}

/// A fraction in the octave is its own reduction.
pub proof fn lemma_octave_reduce_fixed(f: Fraction)
    requires
        in_octave(f),
    ensures
        octave_reduce(f.num, f.den) == f,
{
}

/// Octave reduction on wide integers.
pub fn octave_reduce_wide(n: i64, d: i64) -> (r: (i64, i64))
    requires
        0 < n <= 0x4000_0000_0000_0000,
        0 < d <= 0x4000_0000_0000_0000,
    ensures
        octave_reduce(n as int, d as int) == (Fraction { num: r.0 as int, den: r.1 as int }),
{
    let mut num = n;
    let mut den = d;
    while num / 2 >= den || num < den
        invariant
            0 < num,
            0 < den <= 0x4000_0000_0000_0000,
            num <= 0x4000_0000_0000_0000 || num < 2 * den,
            octave_reduce(num as int, den as int) == octave_reduce(n as int, d as int),
        decreases octave_distance(num as int, den as int),
    {
        if num / 2 >= den {
            if num % 2 == 0 {
                num = num / 2;
            } else {
                den = den * 2;
            }
        } else {
            if den % 2 == 0 {
                den = den / 2;
            } else {
                num = num * 2;
            }
        }
    }
    (num, den)
}

} // verus!
