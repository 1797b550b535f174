//! Pitches: octave-reduced fractions with their prime limit and orientation,
//! how they combine, and how a generating interval is walked.
use crate::error::Error;
use crate::lattice::LatticePosition;
use crate::math::{gpf, power_of_two};
use crate::number_theory::{
    divides, gcd_of, greatest_trial_factor, lemma_trial_factor_bound, trial_prime,
};
use crate::octave::{
    in_octave, is_octave_reduction_of, lemma_octave_reduce, lemma_octave_reduce_fixed,
    octave_reduce, octave_reduce_wide,
};
use crate::ratio::{
    lemma_lowest_terms_fixed, lemma_lowest_terms_of, lemma_product_bounds, reduce_wide, Fraction,
    Ratio,
};
use vstd::arithmetic::power2::{is_pow2, pow2};
use vstd::prelude::*;

verus! {

/// The orientation of an interval: towards the harmonic series (otonal) or
/// towards the subharmonic series (utonal).
#[derive(Clone, Copy, Debug, PartialEq, Eq, Structural)]
pub enum Ordinal {
    Otonal,
    Utonal,
}

/// A musical interval: a fraction in the octave `[1, 2)`, with what follows
/// from it.
#[derive(Clone, Copy, Debug, PartialEq, Eq, Structural)]
pub struct Pitch {
    /// The interval, octave-reduced and in lowest terms.
    pub ratio: Ratio,
    /// The greatest prime factor of numerator and denominator; 1 for the
    /// unison, which has none.
    pub limit: i32,
    /// Otonal where the denominator is a power of two, utonal otherwise.
    pub ordinal: Ordinal,
}

/// The prime limit of a fraction: the greater of the greatest prime factors
/// of its numerator and its denominator.
pub open spec fn limit_of(f: Fraction) -> int {
    if greatest_trial_factor(f.num) >= greatest_trial_factor(f.den) {
        greatest_trial_factor(f.num)
    } else {
        greatest_trial_factor(f.den)
    }
}

/// The orientation of a fraction: otonal exactly where its denominator is a
/// power of two.
pub open spec fn ordinal_of(f: Fraction) -> Ordinal {
    if is_pow2(f.den) {
        Ordinal::Otonal
    } else {
        Ordinal::Utonal
    }
}

/// The pitch that belongs to an octave-reduced fraction.
pub open spec fn pitch_of(r: Ratio) -> Pitch {
    Pitch { ratio: r, limit: limit_of(r@) as i32, ordinal: ordinal_of(r@) }
}

/// The unison, 1/1.
pub open spec fn unison() -> Pitch {
    Pitch { ratio: Ratio { numerator: 1, denominator: 1 }, limit: 1, ordinal: Ordinal::Otonal }
}

/// What octave-reducing `n / d` gives: `InvalidFraction` for `d == 0`,
/// `NotPositive` for a fraction that is not above zero, else the fraction in
/// `[1, 2)` that differs from `n / d` by a power of two, in lowest terms
/// (the one fraction of which [`is_octave_reduction_of`] holds), or
/// `Overflow` where that one does not fit.
pub open spec fn octave_outcome(n: int, d: int) -> Result<Ratio, Error> {
    let f = Fraction::lowest_terms_of(n, d);
    let o = octave_reduce(f.num, f.den);
    if d == 0 {
        Err(Error::InvalidFraction)
    } else if f.num <= 0 {
        Err(Error::NotPositive)
    } else if !o.fits() {
        Err(Error::Overflow)
    } else {
        Ok(Ratio { numerator: o.num as i32, denominator: o.den as i32 })
    }
}

/// What deriving a pitch from `n / d` gives: the pitch of the octave-reduced
/// fraction, or the error that the reduction meets.
pub open spec fn pitch_outcome(n: int, d: int) -> Result<Pitch, Error> {
    match octave_outcome(n, d) {
        Ok(r) => Ok(pitch_of(r)),
        Err(e) => Err(e),
    }
}

/// What combining two pitches gives: the pitch of the product of their
/// fractions.
pub open spec fn combine_outcome(a: Pitch, b: Pitch) -> Result<Pitch, Error> {
    pitch_outcome(
        a.ratio.numerator * b.ratio.numerator,
        a.ratio.denominator * b.ratio.denominator,
    )
}

/// Where `steps` combinations with `generator` lead from `start`; the first
/// combination that fails ends the walk with its error.
pub open spec fn walk_outcome(generator: Pitch, start: Pitch, steps: nat) -> Result<Pitch, Error>
    decreases steps,
{
    if steps == 0 {
        Ok(start)
    } else {
        match walk_outcome(generator, start, (steps - 1) as nat) {
            Ok(p) => combine_outcome(p, generator),
            Err(e) => Err(e),
        }
    }
}

/// What octave reduction gives is the octave reduction of the fraction: in
/// lowest terms, in `[1, 2)`, and a power of two apart from it.
pub proof fn lemma_octave_outcome(n: int, d: int)
    ensures
        octave_outcome(n, d) matches Ok(r) ==> r.wf() && in_octave(r@) && is_octave_reduction_of(
            r@,
            Fraction { num: n, den: d },
        ),
{
    if d != 0 {
        lemma_lowest_terms_of(n, d);
        let f = Fraction::lowest_terms_of(n, d);
        if f.num > 0 {
            lemma_octave_reduce(f.num, f.den);
            let o = octave_reduce(f.num, f.den);
            let (a, b) = choose|a: nat, b: nat|
                #![trigger pow2(a), pow2(b)]
                o.num * f.den * pow2(a) == f.num * o.den * pow2(b);
            assert(o.num * d * pow2(a) == n * o.den * pow2(b)) by (nonlinear_arith)
                requires
                    o.num * f.den * pow2(a) == f.num * o.den * pow2(b),
                    f.num * d == n * f.den,
                    f.den > 0,
            {
                assert((o.num * f.den * pow2(a)) * d == (f.num * o.den * pow2(b)) * d);
                assert((o.num * d * pow2(a)) * f.den == (o.num * f.den * pow2(a)) * d);
                assert((f.num * o.den * pow2(b)) * d == (n * o.den * pow2(b)) * f.den);
            }
        }
    }
}

/// The prime limit of a fraction.
pub fn limit(ratio: Ratio) -> (l: i32)
    ensures
        l == limit_of(ratio@),
{
    let gpf_from_numerator = gpf(ratio.numerator);
    let gpf_from_denominator = gpf(ratio.denominator);
    if gpf_from_numerator >= gpf_from_denominator {
        gpf_from_numerator
    } else {
        gpf_from_denominator
    }
}

/// The orientation of a fraction.
pub fn determine_ordinal(ratio: Ratio) -> (o: Ordinal)
    ensures
        o == ordinal_of(ratio@),
{
    if power_of_two(ratio.denominator) {
        Ordinal::Otonal
    } else {
        Ordinal::Utonal
    }
}

/// Octave-reduces the fraction `n / d` of wide integers.
pub fn octave_from_wide(n: i64, d: i64) -> (r: Result<Ratio, Error>)
    requires
        -0x4000_0000_0000_0000 <= n <= 0x4000_0000_0000_0000,
        -0x4000_0000_0000_0000 <= d <= 0x4000_0000_0000_0000,
    ensures
        r == octave_outcome(n as int, d as int),
        r matches Ok(x) ==> x.wf() && in_octave(x@),
{
    if d == 0 {
        return Err(Error::InvalidFraction);
    }
    proof {
        lemma_lowest_terms_of(n as int, d as int);
        lemma_octave_outcome(n as int, d as int);
    }
    let (reduced_num, reduced_den) = reduce_wide(n, d);
    if reduced_num <= 0 {
        return Err(Error::NotPositive);
    }
    let (num, den) = octave_reduce_wide(reduced_num, reduced_den);
    proof {
        lemma_octave_reduce(reduced_num as int, reduced_den as int);
    }
    if num > 0x7fff_ffff || den > 0x7fff_ffff {
        return Err(Error::Overflow);
    }
    Ok(Ratio { numerator: num as i32, denominator: den as i32 })
}

/// Brings a fraction into the octave `[1, 2)`: halves it while it is 2 or
/// more, doubles it while it is below 1.
pub fn flatten(ratio: Ratio) -> (r: Result<Ratio, Error>)
    ensures
        r == octave_outcome(ratio.numerator as int, ratio.denominator as int),
        r matches Ok(x) ==> x.wf() && is_octave_reduction_of(x@, ratio@),
{
    proof {
        lemma_octave_outcome(ratio.numerator as int, ratio.denominator as int);
    }
    octave_from_wide(ratio.numerator as i64, ratio.denominator as i64)
}

/// Derives the pitch of the fraction `n / d` of wide integers.
pub fn pitch_from_wide(n: i64, d: i64) -> (r: Result<Pitch, Error>)
    requires
        -0x4000_0000_0000_0000 <= n <= 0x4000_0000_0000_0000,
        -0x4000_0000_0000_0000 <= d <= 0x4000_0000_0000_0000,
    ensures
        r == pitch_outcome(n as int, d as int),
        r matches Ok(p) ==> p.wf(),
{
    match octave_from_wide(n, d) {
        Ok(ratio) => {
            proof {
                lemma_trial_factor_bound(ratio.numerator as int, ratio.numerator as int);
                lemma_trial_factor_bound(ratio.denominator as int, ratio.denominator as int);
            }
            Ok(Pitch { ratio, limit: limit(ratio), ordinal: determine_ordinal(ratio) })
        },
        Err(e) => Err(e),
    }
}

/// What a pitch can be derived from: a whole number, a pair of numerator and
/// denominator, a fraction, or another pitch.
pub trait Pitchable {
    /// The numerator and the denominator that the value stands for, as given.
    spec fn source(&self) -> (int, int);

    /// The pitch of the value: its fraction octave-reduced, with limit and
    /// orientation taken from the reduced fraction.
    fn to_pitch(&self) -> (r: Result<Pitch, Error>)
        ensures
            r == pitch_outcome(self.source().0, self.source().1),
    ;
}

impl Pitchable for (i32, i32) {
    open spec fn source(&self) -> (int, int) {
        (self.0 as int, self.1 as int)
    }

    fn to_pitch(&self) -> (r: Result<Pitch, Error>) {
        pitch_from_wide(self.0 as i64, self.1 as i64)
    }
}

impl Pitchable for i32 {
    open spec fn source(&self) -> (int, int) {
        (*self as int, 1)
    }

    fn to_pitch(&self) -> (r: Result<Pitch, Error>) {
        pitch_from_wide(*self as i64, 1)
    }
}

impl Pitchable for Ratio {
    open spec fn source(&self) -> (int, int) {
        (self.numerator as int, self.denominator as int)
    }

    fn to_pitch(&self) -> (r: Result<Pitch, Error>) {
        pitch_from_wide(self.numerator as i64, self.denominator as i64)
    }
}

impl Pitchable for Pitch {
    open spec fn source(&self) -> (int, int) {
        (self.ratio.numerator as int, self.ratio.denominator as int)
    }

    fn to_pitch(&self) -> (r: Result<Pitch, Error>) {
        pitch_from_wide(self.ratio.numerator as i64, self.ratio.denominator as i64)
    }
}

impl Pitch {
    /// The fraction is in lowest terms and in `[1, 2)`, and limit and
    /// orientation are those of the fraction.
    pub open spec fn wf(&self) -> bool {
        &&& self.ratio.wf()
        &&& in_octave(self.ratio@)
        &&& *self == pitch_of(self.ratio)
    }

    /// Whether the pitch is well formed.
    pub fn is_valid(&self) -> (b: bool)
        ensures
            b == self.wf(),
    {
        if !self.ratio.is_valid() {
            return false;
        }
        let num = self.ratio.numerator as i64;
        let den = self.ratio.denominator as i64;
        if num < den || num >= 2 * den {
            return false;
        }
        proof {
            lemma_trial_factor_bound(self.ratio.numerator as int, self.ratio.numerator as int);
            lemma_trial_factor_bound(self.ratio.denominator as int, self.ratio.denominator as int);
        }
        self.limit == limit(self.ratio) && self.ordinal == determine_ordinal(self.ratio)
    }

    /// Derives a pitch: the fraction of the source brought into the octave
    /// `[1, 2)`, with the limit and the orientation of the reduced fraction.
    pub fn new<T: Pitchable>(pitchable: T) -> (r: Result<Pitch, Error>)
        ensures
            r == pitch_outcome(pitchable.source().0, pitchable.source().1),
            r matches Ok(p) ==> p.wf(),
    {
        proof {
            lemma_pitch_outcome(pitchable.source().0, pitchable.source().1);
        }
        pitchable.to_pitch()
    }

    /// Combines two pitches: the pitch of the product of their fractions.
    pub fn combine(self, rhs: Pitch) -> (r: Result<Pitch, Error>)
        ensures
            r == combine_outcome(self, rhs),
            r matches Ok(p) ==> p.wf(),
    {
        proof {
            lemma_product_bounds(
                self.ratio.numerator as int,
                rhs.ratio.numerator as int,
                self.ratio.denominator as int,
                rhs.ratio.denominator as int,
            );
        }
        let n = (self.ratio.numerator as i64) * (rhs.ratio.numerator as i64);
        let d = (self.ratio.denominator as i64) * (rhs.ratio.denominator as i64);
        pitch_from_wide(n, d)
    }

    /// Replaces the pitch by its combination with `rhs`; a combination that
    /// cannot be had leaves it as it was.
    pub fn combine_assign(&mut self, rhs: Pitch) -> (r: Result<(), Error>)
        ensures
            match combine_outcome(*old(self), rhs) {
                Ok(p) => r is Ok && *final(self) == p,
                Err(e) => r == Err::<(), Error>(e) && *final(self) == *old(self),
            },
    {
        match self.combine(rhs) {
            Ok(p) => {
                *self = p;
                Ok(())
            },
            Err(e) => Err(e),
        }
    }

    /// The first `times` pitches of the walk along this interval: the unison,
    /// then each pitch combined with the interval to give the next. No pitch
    /// for `times <= 0`. A combination that fails fails the walk.
    pub fn walk(&self, times: i32) -> (r: Result<Vec<Pitch>, Error>)
        ensures
            match r {
                Ok(pitches) => {
                    &&& pitches.len() == (if times > 0 {
                        times as int
                    } else {
                        0
                    })
                    &&& forall|k: int|
                        0 <= k < pitches.len() ==> walk_outcome(*self, unison(), k as nat) == Ok::<
                            Pitch,
                            Error,
                        >(#[trigger] pitches[k])
                },
                Err(e) => times > 0 && walk_outcome(*self, unison(), (times - 1) as nat) == Err::<
                    Pitch,
                    Error,
                >(e),
            },
    {
        let mut pitches: Vec<Pitch> = Vec::new();
        if times <= 0 {
            return Ok(pitches);
        }
        let mut last = Pitch {
            ratio: Ratio { numerator: 1, denominator: 1 },
            limit: 1,
            ordinal: Ordinal::Otonal,
        };
        pitches.push(last);
        let mut count: i32 = 1;
        while count < times
            invariant
                1 <= count <= times,
                pitches.len() == count,
                last == pitches[count - 1],
                forall|k: int|
                    0 <= k < pitches.len() ==> walk_outcome(*self, unison(), k as nat) == Ok::<
                        Pitch,
                        Error,
                    >(#[trigger] pitches[k]),
            decreases times - count,
        {
            match last.combine(*self) {
                Ok(next) => {
                    pitches.push(next);
                    last = next;
                },
                Err(e) => {
                    proof {
                        lemma_walk_error_stays(*self, unison(), count as nat, (times - 1) as nat);
                    }
                    return Err(e);
                },
            }
            count += 1;
        }
        Ok(pitches)
    }

    /// The place of the pitch on the axis of its limit: how many steps of
    /// that prime lead from the unison to it. The unison itself is given the
    /// place 0 on the axis 2. The search goes step by step and gives up with
    /// `PositionNotFound` after [`POSITION_SEARCH_LIMIT`] steps, or when a
    /// step cannot be taken: it finds the pitches that lie on the otonal side
    /// of a single axis, and no others.
    pub fn to_position(&self) -> (r: Result<LatticePosition, Error>)
        ensures
            is_position_of(r, *self),
    {
        if self.ratio == (Ratio { numerator: 1, denominator: 1 }) {
            return Ok(LatticePosition { dimension: 2, point: 0 });
        }
        let generator = match Pitch::new(self.limit) {
            Ok(g) => g,
            Err(_) => {
                return Err(Error::PositionNotFound);
            },
        };
        proof {
            lemma_pitch_outcome_fixed(generator);
            assert(combine_outcome(unison(), generator) == Ok::<Pitch, Error>(generator));
            assert(walk_outcome(generator, unison(), 1) == Ok::<Pitch, Error>(generator)) by {
                reveal_with_fuel(walk_outcome, 2);
            }
        }
        let mut guess = generator.ratio;
        let mut point: i32 = 1;
        loop
            invariant
                1 <= point <= POSITION_SEARCH_LIMIT,
                self.ratio != unison().ratio,
                pitch_outcome(self.limit as int, 1) == Ok::<Pitch, Error>(generator),
                walk_outcome(generator, unison(), point as nat) matches Ok(p) && p.ratio == guess,
                forall|k: int| 1 <= k < point ==> !#[trigger] meets_axis(*self, k),
            decreases POSITION_SEARCH_LIMIT - point,
        {
            if guess == self.ratio {
                return Ok(LatticePosition { dimension: self.limit, point });
            }
            if point >= POSITION_SEARCH_LIMIT {
                return Err(Error::PositionNotFound);
            }
            proof {
                lemma_product_bounds(
                    guess.numerator as int,
                    generator.ratio.numerator as int,
                    guess.denominator as int,
                    generator.ratio.denominator as int,
                );
            }
            let n = (guess.numerator as i64) * (generator.ratio.numerator as i64);
            let d = (guess.denominator as i64) * (generator.ratio.denominator as i64);
            match octave_from_wide(n, d) {
                Ok(next) => {
                    guess = next;
                    point += 1;
                },
                Err(_) => {
                    proof {
                        assert forall|k: int|
                            1 <= k <= POSITION_SEARCH_LIMIT implies !#[trigger] meets_axis(
                            *self,
                            k,
                        ) by {
                            if k > point {
                                lemma_walk_error_stays(
                                    generator,
                                    unison(),
                                    (point + 1) as nat,
                                    k as nat,
                                );
                            }
                        }
                    }
                    return Err(Error::PositionNotFound);
                },
            }
        }
    }
}

/// How many steps the search for a lattice position takes before it gives up.
/// No pitch that fits lies further out on the otonal side of an axis: `k`
/// steps along the axis of a prime, the numerator is the power `k` of the
/// prime.
pub const POSITION_SEARCH_LIMIT: i32 = 32;

/// What the search for the lattice position of `pitch` gives. The unison has
/// the place 0 on the axis 2. Any other pitch has the least number of steps,
/// up to [`POSITION_SEARCH_LIMIT`], after which the walk along the axis of
/// its limit meets it; `PositionNotFound` where no such number does.
pub open spec fn is_position_of(found: Result<LatticePosition, Error>, pitch: Pitch) -> bool {
    match found {
        Ok(position) => if pitch.ratio == unison().ratio {
            position == (LatticePosition { dimension: 2, point: 0 })
        } else {
            &&& position.dimension == pitch.limit
            &&& 1 <= position.point <= POSITION_SEARCH_LIMIT
            &&& meets_axis(pitch, position.point as int)
            &&& forall|k: int| 1 <= k < position.point ==> !#[trigger] meets_axis(pitch, k)
        },
        Err(e) => {
            &&& e == Error::PositionNotFound
            &&& pitch.ratio != unison().ratio
            &&& forall|k: int| 1 <= k <= POSITION_SEARCH_LIMIT ==> !#[trigger] meets_axis(pitch, k)
        },
    }
}

/// The pitch lies `point` steps from the unison on the axis of its limit: the
/// walk along the pitch of that limit reaches, after `point` combinations, a
/// pitch of the same fraction.
pub open spec fn meets_axis(pitch: Pitch, point: int) -> bool {
    match pitch_outcome(pitch.limit as int, 1) {
        Ok(generator) => walk_outcome(generator, unison(), point as nat) matches Ok(p) && p.ratio
            == pitch.ratio,
        Err(_) => false,
    }
}

/// The unison is the pitch of 1/1, and well formed.
pub proof fn lemma_unison()
    ensures
        unison().wf(),
        pitch_outcome(1, 1) == Ok::<Pitch, Error>(unison()),
{
    reveal(is_pow2);
    assert(divides(1, 1));
    assert(trial_prime(1));
    assert(gcd_of(1, 1) == 1) by {
        reveal_with_fuel(gcd_of, 3);
    }
    lemma_pitch_outcome_fixed(unison());
}

/// A well-formed pitch is the pitch of its own fraction.
pub proof fn lemma_pitch_outcome_fixed(p: Pitch)
    requires
        p.wf(),
    ensures
        pitch_outcome(p.ratio.numerator as int, p.ratio.denominator as int) == Ok::<Pitch, Error>(
            p,
        ),
        combine_outcome(unison(), p) == Ok::<Pitch, Error>(p),
        combine_outcome(p, unison()) == Ok::<Pitch, Error>(p),
{
    lemma_lowest_terms_fixed(p.ratio@);
    lemma_octave_reduce_fixed(p.ratio@);
    assert(1 * p.ratio.numerator == p.ratio.numerator);
    assert(p.ratio.numerator * 1 == p.ratio.numerator);
    assert(1 * p.ratio.denominator == p.ratio.denominator);
    assert(p.ratio.denominator * 1 == p.ratio.denominator);
}

/// Deriving a pitch from the fraction of a derived pitch gives that pitch
/// again.
pub proof fn lemma_derive_idempotent(n: int, d: int)
    ensures
        pitch_outcome(n, d) matches Ok(p) ==> pitch_outcome(
            p.ratio.numerator as int,
            p.ratio.denominator as int,
        ) == Ok::<Pitch, Error>(p),
{
    lemma_pitch_outcome(n, d);
    if let Ok(p) = pitch_outcome(n, d) {
        lemma_pitch_outcome_fixed(p);
    }
}

/// The fraction of every derived pitch lies in the octave above the unison:
/// it is at least 1/1 and below 2/1.
pub proof fn lemma_derived_in_octave(n: int, d: int)
    ensures
        pitch_outcome(n, d) matches Ok(p) ==> {
            &&& (Fraction { num: 1, den: 1 }).less_than(p.ratio@) || (Fraction {
                num: 1,
                den: 1,
            }).same_value(p.ratio@)
            &&& p.ratio@.less_than(Fraction { num: 2, den: 1 })
        },
{
    lemma_pitch_outcome(n, d);
}

/// The order in which two pitches are combined does not matter.
pub proof fn lemma_combine_symmetric(a: Pitch, b: Pitch)
    ensures
        combine_outcome(a, b) == combine_outcome(b, a),
{
    assert(a.ratio.numerator * b.ratio.numerator == b.ratio.numerator * a.ratio.numerator)
        by (nonlinear_arith);
    assert(a.ratio.denominator * b.ratio.denominator == b.ratio.denominator * a.ratio.denominator)
        by (nonlinear_arith);
}

/// Every pitch of a walk past its start is well formed.
pub proof fn lemma_walk_wf(generator: Pitch, start: Pitch, steps: nat)
    requires
        steps > 0,
    ensures
        walk_outcome(generator, start, steps) matches Ok(p) ==> p.wf(),
{
    if let Ok(p) = walk_outcome(generator, start, (steps - 1) as nat) {
        lemma_pitch_outcome(
            p.ratio.numerator * generator.ratio.numerator,
            p.ratio.denominator * generator.ratio.denominator,
        );
    }
}

/// Every pitch that a derivation gives is well formed.
pub proof fn lemma_pitch_outcome(n: int, d: int)
    ensures
        pitch_outcome(n, d) matches Ok(p) ==> p.wf(),
{
    lemma_octave_outcome(n, d);
}

/// Once a walk has failed, it has failed at every later step with the same
/// error.
pub proof fn lemma_walk_error_stays(generator: Pitch, start: Pitch, at: nat, later: nat)
    requires
        at <= later,
        walk_outcome(generator, start, at) is Err,
    ensures
        walk_outcome(generator, start, later) == walk_outcome(generator, start, at),
    decreases later - at,
{
    if at < later {
        lemma_walk_error_stays(generator, start, at, (later - 1) as nat);
    }
}

} // verus!
