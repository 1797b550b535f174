//! Lattices of pitches: the walk along one axis, the lattice of all prime
//! axes up to a bound, and the scale that a lattice sorts into.
use crate::error::Error;
use crate::math::prime;
use crate::number_theory::{is_prime, lemma_lowest_terms_unique};
use crate::pitch::{
    combine_outcome, lemma_combine_symmetric, lemma_unison, lemma_walk_error_stays,
    lemma_walk_wf, pitch_outcome, unison, walk_outcome, Ordinal, Pitch, Pitchable,
};
use crate::ratio::{Fraction, Ratio};
use vstd::prelude::*;

verus! {

/// A place on the lattice: a prime axis and the number of steps along it from
/// the unison.
#[derive(Clone, Copy, Debug, PartialEq, Eq, Structural)]
pub struct LatticePosition {
    pub dimension: i32,
    pub point: i32,
}

/// A walk along one axis of the lattice: the interval of one step, and the
/// pitch that the walk has reached.
#[derive(Clone, Copy, Debug, PartialEq, Eq, Structural)]
pub struct LatticeDimension {
    pub connector: Pitch,
    pub current: Pitch,
}

/// The pitches of a lattice, with the unison they are measured from.
#[derive(Clone, Debug, PartialEq)]
pub struct Lattice {
    pub root: Pitch,
    pub pitches: Vec<Pitch>,
}

/// The first `times` pitches of the axis whose step is the pitch of `n / d`,
/// the unison not among them; the error of the first derivation or
/// combination that fails.
pub open spec fn axis_outcome(n: int, d: int, times: nat) -> Result<Seq<Pitch>, Error> {
    match pitch_outcome(n, d) {
        Err(e) => Err(e),
        Ok(generator) => match walk_outcome(generator, unison(), times) {
            Err(e) => Err(e),
            Ok(_) => Ok(
                Seq::new(
                    times,
                    |i: int| walk_outcome(generator, unison(), (i + 1) as nat).unwrap(),
                ),
            ),
        },
    }
}

/// The pitches of the lattice of the primes up to `bound`, `times` steps
/// along each axis: prime after prime in ascending order, for each the
/// otonal axis of `p / 1` and then the utonal axis of `1 / p`.
pub open spec fn lattice_outcome(bound: int, times: nat) -> Result<Seq<Pitch>, Error>
    decreases bound,
{
    if bound < 2 {
        Ok(Seq::empty())
    } else {
        match lattice_outcome(bound - 1, times) {
            Err(e) => Err(e),
            Ok(lower) => if !is_prime(bound) {
                Ok(lower)
            } else {
                match axis_outcome(bound, 1, times) {
                    Err(e) => Err(e),
                    Ok(otonal) => match axis_outcome(1, bound, times) {
                        Err(e) => Err(e),
                        Ok(utonal) => Ok(lower + otonal + utonal),
                    },
                }
            },
        }
    }
}

/// Each pitch of the sequence is, as a number, below the next.
pub open spec fn strictly_ascending(pitches: Seq<Pitch>) -> bool {
    forall|i: int, j: int|
        0 <= i < j < pitches.len() ==> (#[trigger] pitches[i]).ratio@.less_than(
            (#[trigger] pitches[j]).ratio@,
        )
}

/// `scale` is the scale of `pitches`: it holds the same pitches, each once,
/// in ascending order.
pub open spec fn is_scale_of(scale: Seq<Pitch>, pitches: Seq<Pitch>) -> bool {
    &&& strictly_ascending(scale)
    &&& same_pitches(scale, pitches)
}

/// Every pitch that occurs in one of the sequences occurs in the other.
pub open spec fn same_pitches(a: Seq<Pitch>, b: Seq<Pitch>) -> bool {
    forall|p: Pitch|
        #![trigger a.contains(p)]
        #![trigger b.contains(p)]
        a.contains(p) <==> b.contains(p)
}

/// The reciprocal `1 / whole` of a positive whole number, as numerator and
/// denominator.
///
/// Trusted: makes the fraction `whole / 1` with `num::rational::Ratio::new`
/// and turns it over with `Ratio::recip`, which for a positive fraction swaps
/// numerator and denominator. Zero, whose reciprocal `recip` refuses, and the
/// negative numbers are left out.
#[verifier::external_body]
fn reciprocal_of_whole(whole: i32) -> (r: (i32, i32))
    requires
        whole > 0,
    ensures
        r.0 == 1,
        r.1 == whole,
{
    let reciprocal = num::rational::Ratio::<i32>::new(whole, 1).recip();
    (*reciprocal.numer(), *reciprocal.denom())
}

impl LatticeDimension {
    /// Connector and current pitch are well formed.
    pub open spec fn wf(&self) -> bool {
        self.connector.wf() && self.current.wf()
    }

    /// A walk that stands at the unison and steps by the pitch of
    /// `connector`.
    pub fn new<T: Pitchable>(connector: T) -> (r: Result<LatticeDimension, Error>)
        ensures
            match pitch_outcome(connector.source().0, connector.source().1) {
                Ok(p) => r == Ok::<LatticeDimension, Error>(
                    LatticeDimension { connector: p, current: unison() },
                ),
                Err(e) => r == Err::<LatticeDimension, Error>(e),
            },
            r matches Ok(walk) ==> walk.wf(),
    {
        match Pitch::new(connector) {
            Ok(p) => {
                proof {
                    lemma_unison();
                }
                Ok(
                    LatticeDimension {
                        connector: p,
                        current: Pitch {
                            ratio: Ratio { numerator: 1, denominator: 1 },
                            limit: 1,
                            ordinal: Ordinal::Otonal,
                        },
                    },
                )
            },
            Err(e) => Err(e),
        }
    }

    /// Takes one step: the current pitch becomes its combination with the
    /// connector, and is returned. A step that cannot be taken leaves the
    /// walk where it stands.
    pub fn next(&mut self) -> (r: Result<Pitch, Error>)
        ensures
            match combine_outcome(old(self).connector, old(self).current) {
                Ok(p) => r == Ok::<Pitch, Error>(p) && *final(self) == (LatticeDimension {
                    connector: old(self).connector,
                    current: p,
                }) && p.wf(),
                Err(e) => r == Err::<Pitch, Error>(e) && *final(self) == *old(self),
            },
    {
        match self.connector.combine(self.current) {
            Ok(next_pitch) => {
                self.current = next_pitch;
                Ok(next_pitch)
            },
            Err(e) => Err(e),
        }
    }

    /// Takes `times` steps and returns the pitches passed, in order. If one
    /// of the steps cannot be taken, the walk stays where it stood before
    /// the first.
    pub fn take(&mut self, times: usize) -> (r: Result<Vec<Pitch>, Error>)
        ensures
            final(self).connector == old(self).connector,
            match r {
                Ok(pitches) => {
                    &&& pitches.len() == times
                    &&& forall|k: int|
                        0 <= k < times ==> walk_outcome(
                            old(self).connector,
                            old(self).current,
                            (k + 1) as nat,
                        ) == Ok::<Pitch, Error>(#[trigger] pitches[k])
                    &&& walk_outcome(old(self).connector, old(self).current, times as nat) == Ok::<
                        Pitch,
                        Error,
                    >(final(self).current)
                },
                Err(e) => {
                    &&& walk_outcome(old(self).connector, old(self).current, times as nat) == Err::<
                        Pitch,
                        Error,
                    >(e)
                    &&& *final(self) == *old(self)
                },
            },
    {
        let mut walker = *self;
        let mut pitches: Vec<Pitch> = Vec::new();
        let mut count: usize = 0;
        while count < times
            invariant
                count <= times,
                pitches.len() == count,
                walker.connector == self.connector,
                walk_outcome(self.connector, self.current, count as nat) == Ok::<Pitch, Error>(
                    walker.current,
                ),
                forall|k: int|
                    0 <= k < count ==> walk_outcome(
                        self.connector,
                        self.current,
                        (k + 1) as nat,
                    ) == Ok::<Pitch, Error>(#[trigger] pitches[k]),
            decreases times - count,
        {
            proof {
                lemma_combine_symmetric(walker.connector, walker.current);
            }
            match walker.next() {
                Ok(p) => {
                    pitches.push(p);
                },
                Err(e) => {
                    proof {
                        lemma_walk_error_stays(
                            self.connector,
                            self.current,
                            (count + 1) as nat,
                            times as nat,
                        );
                    }
                    return Err(e);
                },
            }
            count += 1;
        }
        *self = walker;
        Ok(pitches)
    }
}

/// There is one way only to put given pitches in ascending order, each once:
/// two ascending sequences of the same pitches are the same sequence.
pub proof fn lemma_ascending_unique(a: Seq<Pitch>, b: Seq<Pitch>)
    requires
        strictly_ascending(a),
        strictly_ascending(b),
        same_pitches(a, b),
    ensures
        a == b,
    decreases a.len(),
{
    if a.len() == 0 {
        if b.len() > 0 {
            assert(b.contains(b[0]));
        }
        assert(a =~= b);
    } else {
        assert(a.contains(a[0]));
        let k = choose|k: int| 0 <= k < b.len() && b[k] == a[0];
        assert(b.contains(b[0]));
        let m = choose|m: int| 0 <= m < a.len() && a[m] == b[0];
        if k > 0 {
            assert(b[0].ratio@.less_than(b[k].ratio@));
            if m > 0 {
                assert(a[0].ratio@.less_than(a[m].ratio@));
            }
        }
        assert(a[0] == b[0]);
        let a_rest = a.subrange(1, a.len() as int);
        let b_rest = b.subrange(1, b.len() as int);
        assert forall|p: Pitch|
            #![trigger a_rest.contains(p)]
            #![trigger b_rest.contains(p)]
            a_rest.contains(p) <==> b_rest.contains(p) by {
            if a_rest.contains(p) {
                let i = choose|i: int| 0 <= i < a_rest.len() && a_rest[i] == p;
                assert(a[i + 1] == p);
                assert(a.contains(p));
                assert(a[0].ratio@.less_than(a[i + 1].ratio@));
                let j = choose|j: int| 0 <= j < b.len() && b[j] == p;
                assert(b_rest[j - 1] == p);
            }
            if b_rest.contains(p) {
                let i = choose|i: int| 0 <= i < b_rest.len() && b_rest[i] == p;
                assert(b[i + 1] == p);
                assert(b.contains(p));
                assert(b[0].ratio@.less_than(b[i + 1].ratio@));
                let j = choose|j: int| 0 <= j < a.len() && a[j] == p;
                assert(a_rest[j - 1] == p);
            }
        }
        assert forall|i: int, j: int| 0 <= i < j < a_rest.len() implies (
        #[trigger] a_rest[i]).ratio@.less_than((#[trigger] a_rest[j]).ratio@) by {
            assert(a[i + 1].ratio@.less_than(a[j + 1].ratio@));
        }
        assert forall|i: int, j: int| 0 <= i < j < b_rest.len() implies (
        #[trigger] b_rest[i]).ratio@.less_than((#[trigger] b_rest[j]).ratio@) by {
            assert(b[i + 1].ratio@.less_than(b[j + 1].ratio@));
        }
        lemma_ascending_unique(a_rest, b_rest);
        assert(a =~= seq![a[0]] + a_rest);
        assert(b =~= seq![b[0]] + b_rest);
    }
}

/// The scale of given pitches is one sequence and no other.
pub proof fn lemma_scale_unique(pitches: Seq<Pitch>, one: Seq<Pitch>, other: Seq<Pitch>)
    requires
        is_scale_of(one, pitches),
        is_scale_of(other, pitches),
    ensures
        one == other,
{
    lemma_ascending_unique(one, other);
}

/// Scaling is idempotent: the scale of a scale is that scale.
pub proof fn lemma_scale_idempotent(lattice: Lattice, scale: Lattice, again: Lattice)
    requires
        scale.is_scale_of(&lattice),
        again.is_scale_of(&scale),
    ensures
        again.root == scale.root,
        again.pitches@ == scale.pitches@,
{
    lemma_ascending_unique(again.pitches@, scale.pitches@);
}

/// An error of the lattice up to one bound is the error of the lattice up to
/// every greater bound.
pub proof fn lemma_lattice_error_stays(at: int, later: int, times: nat)
    requires
        at <= later,
        lattice_outcome(at, times) is Err,
    ensures
        lattice_outcome(later, times) == lattice_outcome(at, times),
    decreases later - at,
{
    if at < later {
        lemma_lattice_error_stays(at, later - 1, times);
    }
}

/// Of two well-formed pitches one is the smaller, or they are the same pitch.
pub proof fn lemma_pitch_order_total(a: Pitch, b: Pitch)
    requires
        a.wf(),
        b.wf(),
    ensures
        a.ratio@.less_than(b.ratio@) || b.ratio@.less_than(a.ratio@) || a == b,
{
    if !a.ratio@.less_than(b.ratio@) && !b.ratio@.less_than(a.ratio@) {
        lemma_lowest_terms_unique(
            a.ratio.numerator as int,
            a.ratio.denominator as int,
            b.ratio.numerator as int,
            b.ratio.denominator as int,
        );
    }
}

/// The order of fractions with positive denominators is transitive.
pub proof fn lemma_less_than_transitive(a: Fraction, b: Fraction, c: Fraction)
    requires
        a.den > 0,
        b.den > 0,
        c.den > 0,
        a.less_than(b),
        b.less_than(c),
    ensures
        a.less_than(c),
{
    assert(a.num * c.den < c.num * a.den) by (nonlinear_arith)
        requires
            a.den > 0,
            b.den > 0,
            c.den > 0,
            a.num * b.den < b.num * a.den,
            b.num * c.den < c.num * b.den,
    {
        assert((a.num * b.den) * c.den < (b.num * a.den) * c.den);
        assert((b.num * c.den) * a.den < (c.num * b.den) * a.den);
        assert((a.num * c.den) * b.den < (c.num * a.den) * b.den);
    }
}

impl Lattice {
    /// The root and every pitch are well formed.
    pub open spec fn wf(&self) -> bool {
        &&& self.root.wf()
        &&& forall|i: int| 0 <= i < self.pitches.len() ==> (#[trigger] self.pitches[i]).wf()
    }

    /// The lattice of the prime axes up to `dimensions`, `times` steps along
    /// each: for each prime in ascending order the otonal walk, by the prime
    /// itself, and then the utonal walk, by its reciprocal. The unison is the
    /// root, and is among the pitches only where a walk comes back to it.
    pub fn new(dimensions: i32, times: usize) -> (r: Result<Lattice, Error>)
        ensures
            match lattice_outcome(dimensions as int, times as nat) {
                Ok(pitches) => r matches Ok(lattice) && lattice.root == unison() && lattice.pitches@
                    == pitches,
                Err(e) => r matches Err(x) && x == e,
            },
            r matches Ok(lattice) ==> lattice.wf(),
    {
        let mut pitches: Vec<Pitch> = Vec::new();
        let mut dimension: i64 = 2;
        proof {
            lemma_unison();
        }
        while dimension <= dimensions as i64
            invariant
                2 <= dimension <= i32::MAX + 1,
                dimension == 2 || dimension <= dimensions + 1,
                lattice_outcome(dimension - 1, times as nat) matches Ok(lower) && lower == pitches@,
                forall|i: int| 0 <= i < pitches.len() ==> (#[trigger] pitches[i]).wf(),
            decreases i32::MAX + 1 - dimension,
        {
            let whole = dimension as i32;
            if prime(whole) {
                let axes = match axis_pair(whole, times) {
                    Ok(a) => a,
                    Err(e) => {
                        proof {
                            lemma_lattice_error_stays(
                                dimension as int,
                                dimensions as int,
                                times as nat,
                            );
                        }
                        return Err(e);
                    },
                };
                let mut axes = axes;
                let ghost lower = pitches@;
                pitches.append(&mut axes);
                proof {
                    let otonal = axis_outcome(dimension as int, 1, times as nat).unwrap();
                    let utonal = axis_outcome(1, dimension as int, times as nat).unwrap();
                    assert(lower + (otonal + utonal) =~= lower + otonal + utonal);
                }
            }
            dimension += 1;
        }
        Ok(
            Lattice {
                root: Pitch {
                    ratio: Ratio { numerator: 1, denominator: 1 },
                    limit: 1,
                    ordinal: Ordinal::Otonal,
                },
                pitches,
            },
        )
    }

    /// `self` is the scale of `lattice`: it has the same root and the same
    /// pitches, each once, in ascending order.
    pub open spec fn is_scale_of(&self, lattice: &Lattice) -> bool {
        self.root == lattice.root && is_scale_of(self.pitches@, lattice.pitches@)
    }

    /// The scale of the lattice: its pitches in ascending order, each once,
    /// under the same root. The order is that of the fractions, and so that
    /// of every measure that grows with the fraction, as the cents of a pitch
    /// do.
    pub fn scale(self) -> (r: Lattice)
        requires
            self.wf(),
        ensures
            r.is_scale_of(&self),
            strictly_ascending(r.pitches@),
            r.wf(),
    {
        let mut sorted: Vec<Pitch> = Vec::new();
        let mut i: usize = 0;
        while i < self.pitches.len()
            invariant
                0 <= i <= self.pitches.len(),
                self.wf(),
                strictly_ascending(sorted@),
                forall|k: int| 0 <= k < sorted.len() ==> (#[trigger] sorted[k]).wf(),
                same_pitches(sorted@, self.pitches@.take(i as int)),
            decreases self.pitches.len() - i,
        {
            let ghost before = sorted@;
            let ghost seen = self.pitches@.take(i as int);
            let ghost seen_next = self.pitches@.take(i + 1);
            let pitch = self.pitches[i];
            place(&mut sorted, pitch);
            proof {
                assert(same_pitches(before, seen));
                assert(seen_next =~= seen.push(pitch));
                assert forall|p: Pitch|
                    #![trigger sorted@.contains(p)]
                    #![trigger seen_next.contains(p)]
                    sorted@.contains(p) <==> seen_next.contains(p) by {
                    if seen_next.contains(p) {
                        let m = choose|m: int| 0 <= m < seen_next.len() && seen_next[m] == p;
                        if m < i {
                            assert(seen[m] == p);
                            assert(seen.contains(p));
                        }
                    }
                    if before.contains(p) {
                        let m = choose|m: int| 0 <= m < seen.len() && seen[m] == p;
                        assert(seen_next[m] == p);
                    }
                    if p == pitch {
                        assert(seen_next[i as int] == p);
                    }
                }
            }
            i += 1;
        }
        proof {
            assert(self.pitches@.take(self.pitches.len() as int) =~= self.pitches@);
        }
        Lattice { root: self.root, pitches: sorted }
    }

    /// Whether the root and every pitch are well formed.
    pub fn is_valid(&self) -> (b: bool)
        ensures
            b == self.wf(),
    {
        if !self.root.is_valid() {
            return false;
        }
        let mut i: usize = 0;
        while i < self.pitches.len()
            invariant
                0 <= i <= self.pitches.len(),
                forall|k: int| 0 <= k < i ==> (#[trigger] self.pitches[k]).wf(),
            decreases self.pitches.len() - i,
        {
            if !self.pitches[i].is_valid() {
                return false;
            }
            i += 1;
        }
        true
    }
}

/// Puts a pitch in its place among pitches in ascending order, unless it is
/// among them already.
fn place(sorted: &mut Vec<Pitch>, pitch: Pitch)
    requires
        strictly_ascending(old(sorted)@),
        forall|k: int| 0 <= k < old(sorted).len() ==> (#[trigger] old(sorted)[k]).wf(),
        pitch.wf(),
    ensures
        strictly_ascending(final(sorted)@),
        forall|k: int| 0 <= k < final(sorted).len() ==> (#[trigger] final(sorted)[k]).wf(),
        forall|p: Pitch|
            #![trigger final(sorted)@.contains(p)]
            final(sorted)@.contains(p) <==> old(sorted)@.contains(p) || p == pitch,
{
    let ghost before = sorted@;
    let mut j: usize = 0;
    while j < sorted.len() && sorted[j].ratio.less_than(&pitch.ratio)
        invariant
            0 <= j <= sorted.len(),
            sorted@ == before,
            forall|k: int| 0 <= k < j ==> (#[trigger] sorted[k]).ratio@.less_than(pitch.ratio@),
        decreases sorted.len() - j,
    {
        j += 1;
    }
    let present = j < sorted.len() && !pitch.ratio.less_than(&sorted[j].ratio);
    proof {
        if j < sorted.len() {
            lemma_pitch_order_total(pitch, sorted[j as int]);
        }
    }
    if present {
        assert(sorted[j as int] == pitch);
    } else {
        sorted.insert(j, pitch);
        proof {
            assert(sorted@ == before.insert(j as int, pitch));
            assert forall|a: int, b: int| 0 <= a < b < sorted.len() implies (
            #[trigger] sorted[a]).ratio@.less_than((#[trigger] sorted[b]).ratio@) by {
                let a0 = if a < j {
                    a
                } else {
                    a - 1
                };
                let b0 = if b < j {
                    b
                } else {
                    b - 1
                };
                if b == j {
                    assert(sorted[a] == before[a]);
                } else if a == j {
                    assert(sorted[b] == before[b0]);
                    if b0 > j {
                        assert(before[j as int].ratio@.less_than(before[b0].ratio@));
                        lemma_less_than_transitive(
                            pitch.ratio@,
                            before[j as int].ratio@,
                            before[b0].ratio@,
                        );
                    }
                } else {
                    assert(sorted[a] == before[a0]);
                    assert(sorted[b] == before[b0]);
                    assert(before[a0].ratio@.less_than(before[b0].ratio@));
                }
            }
            assert forall|p: Pitch|
                #![trigger sorted@.contains(p)]
                sorted@.contains(p) <==> before.contains(p) || p == pitch by {
                if sorted@.contains(p) {
                    let k = choose|k: int| 0 <= k < sorted.len() && sorted[k] == p;
                    if k != j {
                        let k0 = if k < j {
                            k
                        } else {
                            k - 1
                        };
                        assert(before[k0] == p);
                    }
                }
                if before.contains(p) {
                    let k0 = choose|k0: int| 0 <= k0 < before.len() && before[k0] == p;
                    let k = if k0 < j {
                        k0
                    } else {
                        k0 + 1
                    };
                    assert(sorted[k] == p);
                }
                if p == pitch {
                    assert(sorted[j as int] == p);
                }
            }
        }
    }
}

/// The pitches of the two axes of one whole number: `times` steps by the
/// number itself, then `times` steps by its reciprocal.
pub fn axis_pair(whole: i32, times: usize) -> (r: Result<Vec<Pitch>, Error>)
    requires
        whole > 0,
    ensures
        match axis_outcome(whole as int, 1, times as nat) {
            Err(e) => r == Err::<Vec<Pitch>, Error>(e),
            Ok(otonal) => match axis_outcome(1, whole as int, times as nat) {
                Err(e) => r == Err::<Vec<Pitch>, Error>(e),
                Ok(utonal) => r matches Ok(pitches) && pitches@ == otonal + utonal,
            },
        },
        r matches Ok(pitches) ==> forall|i: int|
            0 <= i < pitches.len() ==> (#[trigger] pitches[i]).wf(),
{
    let mut otonal = match LatticeDimension::new(whole) {
        Ok(walk) => walk,
        Err(e) => {
            return Err(e);
        },
    };
    let mut pitches = match otonal.take(times) {
        Ok(p) => p,
        Err(e) => {
            return Err(e);
        },
    };
    let ghost otonal_pitches = pitches@;
    proof {
        let expected = Seq::new(
            times as nat,
            |i: int| walk_outcome(otonal.connector, unison(), (i + 1) as nat).unwrap(),
        );
        assert(otonal_pitches =~= expected);
        assert(axis_outcome(whole as int, 1, times as nat) == Ok::<Seq<Pitch>, Error>(
            otonal_pitches,
        ));
        assert forall|i: int| 0 <= i < otonal_pitches.len() implies (
        #[trigger] otonal_pitches[i]).wf() by {
            lemma_walk_wf(otonal.connector, unison(), (i + 1) as nat);
        }
    }
    let mut utonal = match LatticeDimension::new(reciprocal_of_whole(whole)) {
        Ok(walk) => walk,
        Err(e) => {
            return Err(e);
        },
    };
    let mut utonal_pitches = match utonal.take(times) {
        Ok(p) => p,
        Err(e) => {
            return Err(e);
        },
    };
    proof {
        let expected = Seq::new(
            times as nat,
            |i: int| walk_outcome(utonal.connector, unison(), (i + 1) as nat).unwrap(),
        );
        assert(utonal_pitches@ =~= expected);
        assert(axis_outcome(1, whole as int, times as nat) == Ok::<Seq<Pitch>, Error>(
            utonal_pitches@,
        ));
        assert forall|i: int| 0 <= i < utonal_pitches.len() implies (
        #[trigger] utonal_pitches[i]).wf() by {
            lemma_walk_wf(utonal.connector, unison(), (i + 1) as nat);
        }
    }
    pitches.append(&mut utonal_pitches);
    Ok(pitches)
}

} // verus!
