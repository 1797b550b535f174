use johnston::error::Error;
use johnston::lattice::{axis_pair, Lattice, LatticeDimension};
use johnston::pitch::{Ordinal, Pitch};

fn p(n: i32, d: i32) -> Pitch {
    Pitch::new((n, d)).unwrap()
}

fn cents(pitch: &Pitch) -> f64 {
    let value = f64::from(pitch.ratio.numerator) / f64::from(pitch.ratio.denominator);
    1200.0 / 2f64.log10() * value.log10()
}

#[test]
fn dimensions_are_cool() {
    let mut dim = LatticeDimension::new(Pitch::new((3, 2)).unwrap()).unwrap();

    println!("{:?}", dim.next());
    println!("{:?}", dim.next());
    println!("{:?}", dim.next());
    println!("{:?}", dim.next());

    assert_eq!(3, dim.connector.limit);
    assert_eq!(Ordinal::Otonal, dim.connector.ordinal);
}

#[test]
fn walk_starts_at_the_unison_and_leaves_it_out() {
    let mut dim = LatticeDimension::new((3, 2)).unwrap();
    assert_eq!(dim.connector, p(3, 2));
    assert_eq!(dim.current, p(1, 1));

    assert_eq!(dim.next(), Ok(p(3, 2)));
    assert_eq!(dim.current, p(3, 2));
    assert_eq!(dim.next(), Ok(p(9, 8)));
    assert_eq!(dim.next(), Ok(p(27, 16)));
    assert_eq!(dim.next(), Ok(p(81, 64)));
    assert_eq!(dim.current, p(81, 64));
    assert_eq!(dim.connector, p(3, 2));
}

#[test]
fn walk_from_the_same_connector_is_the_same_walk() {
    let mut one = LatticeDimension::new(7).unwrap();
    let mut other = LatticeDimension::new((7, 4)).unwrap();
    assert_eq!(one.take(5), other.take(5));
    assert_eq!(one, other);
}

#[test]
fn take_returns_the_steps_and_moves_the_walk() {
    let mut dim = LatticeDimension::new(5).unwrap();
    assert_eq!(dim.take(0), Ok(vec![]));
    assert_eq!(dim.current, p(1, 1));
    assert_eq!(dim.take(3), Ok(vec![p(5, 4), p(25, 16), p(125, 64)]));
    assert_eq!(dim.current, p(125, 64));
    assert_eq!(dim.take(1), Ok(vec![p(625, 512)]));
}

#[test]
fn walk_and_generator_differ_by_the_unison() {
    let finite = p(4, 3).walk(6).unwrap();
    let stepped = LatticeDimension::new((4, 3)).unwrap().take(5).unwrap();
    assert_eq!(finite[0], p(1, 1));
    assert_eq!(&finite[1..], &stepped[..]);
}

#[test]
fn step_that_overflows_leaves_the_walk_in_place() {
    let mut dim = LatticeDimension::new((65537, 65536)).unwrap();
    assert_eq!(dim.next(), Ok(p(65537, 65536)));
    let before = dim;
    assert_eq!(dim.next(), Err(Error::Overflow));
    assert_eq!(dim, before);
    assert_eq!(dim.take(3), Err(Error::Overflow));
    assert_eq!(dim, before);
}

#[test]
fn dimension_of_no_pitch_is_refused() {
    assert_eq!(LatticeDimension::new(0), Err(Error::NotPositive));
    assert_eq!(LatticeDimension::new((1, 0)), Err(Error::InvalidFraction));
    assert_eq!(LatticeDimension::new((1, i32::MAX)), Err(Error::Overflow));
}

#[test]
fn lattice_lists_primes_ascending_otonal_before_utonal() {
    let lattice = Lattice::new(5, 3).unwrap();
    let expected = vec![
        p(1, 1),
        p(1, 1),
        p(1, 1),
        p(1, 1),
        p(1, 1),
        p(1, 1),
        p(3, 2),
        p(9, 8),
        p(27, 16),
        p(4, 3),
        p(16, 9),
        p(32, 27),
        p(5, 4),
        p(25, 16),
        p(125, 64),
        p(8, 5),
        p(32, 25),
        p(128, 125),
    ];
    assert_eq!(lattice.root, p(1, 1));
    assert_eq!(lattice.pitches, expected);
}

#[test]
fn lattice_skips_what_is_not_prime() {
    assert_eq!(Lattice::new(6, 2), Lattice::new(5, 2));
    assert_eq!(Lattice::new(4, 2), Lattice::new(3, 2));
    assert_eq!(Lattice::new(10, 1), Lattice::new(7, 1));
}

#[test]
fn lattice_below_the_first_prime_is_empty() {
    for bound in [1, 0, -5, i32::MIN] {
        let lattice = Lattice::new(bound, 4).unwrap();
        assert_eq!(lattice.root, p(1, 1));
        assert!(lattice.pitches.is_empty());
    }
}

#[test]
fn lattice_of_no_steps_is_empty() {
    let lattice = Lattice::new(7, 0).unwrap();
    assert_eq!(lattice.root, p(1, 1));
    assert!(lattice.pitches.is_empty());
}

#[test]
fn utonal_axis_steps_by_the_reciprocal() {
    let lattice = Lattice::new(3, 1).unwrap();
    assert_eq!(lattice.pitches, vec![p(1, 1), p(1, 1), p(3, 2), p(4, 3)]);
    assert_eq!(axis_pair(7, 2), Ok(vec![p(7, 4), p(49, 32), p(8, 7), p(64, 49)]));
}

#[test]
fn scale_sorts_and_drops_repeats() {
    let scale = Lattice::new(5, 3).unwrap().scale();
    let expected = vec![
        p(1, 1),
        p(128, 125),
        p(9, 8),
        p(32, 27),
        p(5, 4),
        p(32, 25),
        p(4, 3),
        p(3, 2),
        p(25, 16),
        p(8, 5),
        p(27, 16),
        p(16, 9),
        p(125, 64),
    ];
    assert_eq!(scale.root, p(1, 1));
    assert_eq!(scale.pitches, expected);
}

#[test]
fn scale_has_strictly_rising_cents() {
    let scale = Lattice::new(5, 3).unwrap().scale();
    for pair in scale.pitches.windows(2) {
        assert!(pair[0].ratio < pair[1].ratio);
        assert!(cents(&pair[0]) < cents(&pair[1]));
        assert_ne!(cents(&pair[0]), cents(&pair[1]));
    }
}

#[test]
fn cents_run_from_zero_to_below_an_octave() {
    assert_eq!(cents(&p(1, 1)), 0.0);
    assert!((cents(&p(3, 2)) - 701.955).abs() < 0.001);
    assert!((cents(&p(5, 4)) - 386.314).abs() < 0.001);
    for pitch in Lattice::new(7, 4).unwrap().scale().pitches {
        assert!(cents(&pitch) >= 0.0);
        assert!(cents(&pitch) < 1200.0);
    }
}

#[test]
fn scale_of_a_scale_is_the_scale() {
    for (bound, steps) in [(2, 3), (3, 4), (5, 3), (7, 4), (11, 2)] {
        let scale = Lattice::new(bound, steps).unwrap().scale();
        let again = scale.clone().scale();
        assert_eq!(again, scale);
    }
}

#[test]
fn scale_keeps_every_pitch_once() {
    let lattice = Lattice::new(7, 4).unwrap();
    let scale = lattice.clone().scale();
    for pitch in &lattice.pitches {
        assert_eq!(scale.pitches.iter().filter(|other| *other == pitch).count(), 1);
    }
    for pitch in &scale.pitches {
        assert!(lattice.pitches.contains(pitch));
    }
}

#[test]
fn scale_of_an_unsorted_collection() {
    let lattice = Lattice {
        root: p(1, 1),
        pitches: vec![p(7, 4), p(3, 2), p(7, 4), p(1, 1), p(5, 4), p(3, 2), p(9, 8)],
    };
    let scale = lattice.scale();
    assert_eq!(scale.pitches, vec![p(1, 1), p(9, 8), p(5, 4), p(3, 2), p(7, 4)]);
}

#[test]
fn scale_of_nothing_is_nothing() {
    let scale = Lattice { root: p(1, 1), pitches: vec![] }.scale();
    assert_eq!(scale, Lattice { root: p(1, 1), pitches: vec![] });
}

#[test]
fn built_lattices_are_valid() {
    assert!(Lattice::new(7, 3).unwrap().is_valid());
    assert!(Lattice::new(7, 3).unwrap().scale().is_valid());
    assert!(Lattice { root: p(1, 1), pitches: vec![] }.is_valid());
    let stale = Pitch { limit: 7, ..p(3, 2) };
    assert!(!Lattice { root: p(1, 1), pitches: vec![p(5, 4), stale] }.is_valid());
    assert!(!Lattice { root: stale, pitches: vec![] }.is_valid());
}

#[test]
fn scale_agrees_with_sorting_by_cents() {
    for (bound, steps) in [(5, 3), (7, 5), (11, 4), (13, 3)] {
        let lattice = Lattice::new(bound, steps).unwrap();
        let mut by_cents = lattice.pitches.clone();
        by_cents.sort_by(|a, b| cents(a).partial_cmp(&cents(b)).unwrap());
        by_cents.dedup_by(|a, b| cents(a) == cents(b));
        assert_eq!(lattice.scale().pitches, by_cents);
    }
}
