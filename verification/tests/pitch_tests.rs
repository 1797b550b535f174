use johnston::error::Error;
use johnston::intervals::{OCTAVE, TONIC};
use johnston::lattice::LatticePosition;
use johnston::pitch::{determine_ordinal, flatten, limit, Ordinal, Pitch, POSITION_SEARCH_LIMIT};
use johnston::ratio::Ratio;

fn p(n: i32, d: i32) -> Pitch {
    Pitch::new((n, d)).unwrap()
}

fn position_of(n: i32, d: i32) -> Result<LatticePosition, Error> {
    p(n, d).to_position()
}

#[test]
fn flatten_works() {
    let a = p(18, 4);

    assert_eq!(a.ratio, Ratio::new((9, 8)).unwrap());
}

#[test]
fn walk_works() {
    let expected = vec![p(1, 1), p(3, 2), p(9, 8)];
    let actual = Pitch::new((3, 2)).unwrap().walk(3).unwrap();

    assert_eq!(expected, actual);
}

#[test]
fn position_for_9_8() {
    assert_eq!(Ok(LatticePosition { dimension: 3, point: 2 }), position_of(9, 8));
}

#[test]
fn position_for_27_16() {
    assert_eq!(Ok(LatticePosition { dimension: 3, point: 3 }), position_of(27, 16));
}

#[test]
fn position_for_5_4() {
    assert_eq!(Ok(LatticePosition { dimension: 5, point: 1 }), position_of(5, 4));
}

#[test]
fn position_for_tonic() {
    assert_eq!(Ok(LatticePosition { dimension: 2, point: 0 }), position_of(1, 1));
}

#[test]
fn position_of_a_utonal_pitch_is_not_found() {
    assert_eq!(Err(Error::PositionNotFound), position_of(16, 9));
    assert_eq!(Err(Error::PositionNotFound), position_of(4, 3));
}

#[test]
fn position_of_a_pitch_off_the_axes_is_not_found() {
    assert_eq!(Err(Error::PositionNotFound), position_of(15, 8));
}

#[test]
fn position_is_found_again_along_an_axis() {
    for axis in [3, 5, 7, 11, 13] {
        let walk = Pitch::new((axis, 1)).unwrap().walk(6).unwrap();
        for k in 1..6 {
            let expected = LatticePosition { dimension: axis, point: k as i32 };
            assert_eq!(Ok(expected), walk[k].to_position());
        }
    }
}

#[test]
fn position_search_limit_is_beyond_every_fraction_that_fits() {
    assert_eq!(POSITION_SEARCH_LIMIT, 32);
    assert!(3i64.pow(POSITION_SEARCH_LIMIT as u32) > i64::from(i32::MAX));
}

#[test]
fn pitch_holds_ratio_limit_and_ordinal() {
    let fifth = p(3, 2);
    assert_eq!(fifth.ratio, Ratio { numerator: 3, denominator: 2 });
    assert_eq!(fifth.limit, 3);
    assert_eq!(fifth.ordinal, Ordinal::Otonal);

    let fourth = p(4, 3);
    assert_eq!(fourth.ratio, Ratio { numerator: 4, denominator: 3 });
    assert_eq!(fourth.limit, 3);
    assert_eq!(fourth.ordinal, Ordinal::Utonal);

    let diesis = p(256, 125);
    assert_eq!(diesis.ratio, Ratio { numerator: 128, denominator: 125 });
    assert_eq!(diesis.limit, 5);
    assert_eq!(diesis.ordinal, Ordinal::Utonal);
}

#[test]
fn unison_has_limit_one_and_is_otonal() {
    let unison = Pitch::new(1).unwrap();
    assert_eq!(unison.ratio, Ratio { numerator: 1, denominator: 1 });
    assert_eq!(unison.limit, 1);
    assert_eq!(unison.ordinal, Ordinal::Otonal);
    assert_eq!(Pitch::new(TONIC).unwrap(), unison);
}

#[test]
fn every_source_gives_the_same_pitch() {
    let from_pair = Pitch::new((3, 1)).unwrap();
    let from_whole = Pitch::new(3).unwrap();
    let from_ratio = Pitch::new(Ratio::new((6, 2)).unwrap()).unwrap();
    let from_pitch = Pitch::new(from_pair).unwrap();

    assert_eq!(from_pair, p(3, 2));
    assert_eq!(from_whole, from_pair);
    assert_eq!(from_ratio, from_pair);
    assert_eq!(from_pitch, from_pair);
}

#[test]
fn octaves_reduce_to_the_unison() {
    assert_eq!(Pitch::new(OCTAVE).unwrap(), p(1, 1));
    assert_eq!(Pitch::new(2).unwrap(), p(1, 1));
    assert_eq!(Pitch::new(1024).unwrap(), p(1, 1));
    assert_eq!(Pitch::new((1, 64)).unwrap(), p(1, 1));
    assert_eq!(Pitch::new((i32::MIN, -1)).unwrap(), p(1, 1));
}

#[test]
fn derived_ratio_lies_in_the_octave() {
    let one = Ratio { numerator: 1, denominator: 1 };
    let two = Ratio { numerator: 2, denominator: 1 };
    for n in 1..40 {
        for d in 1..40 {
            let ratio = Pitch::new((n, d)).unwrap().ratio;
            assert!(ratio >= one);
            assert!(ratio < two);
            assert!(ratio.denominator <= ratio.numerator);
            assert!(i64::from(ratio.numerator) < 2 * i64::from(ratio.denominator));
        }
    }
}

#[test]
fn deriving_again_changes_nothing() {
    for n in 1..40 {
        for d in 1..40 {
            let pitch = Pitch::new((n, d)).unwrap();
            assert_eq!(Pitch::new(pitch.ratio), Ok(pitch));
            assert_eq!(Pitch::new(pitch), Ok(pitch));
            assert_eq!(flatten(pitch.ratio), Ok(pitch.ratio));
        }
    }
}

#[test]
fn zero_denominator_is_an_invalid_fraction() {
    assert_eq!(Pitch::new((1, 0)), Err(Error::InvalidFraction));
    assert_eq!(Pitch::new((0, 0)), Err(Error::InvalidFraction));
    assert_eq!(flatten(Ratio { numerator: 3, denominator: 0 }), Err(Error::InvalidFraction));
}

#[test]
fn zero_and_negative_fractions_have_no_pitch() {
    assert_eq!(Pitch::new(0), Err(Error::NotPositive));
    assert_eq!(Pitch::new((0, 7)), Err(Error::NotPositive));
    assert_eq!(Pitch::new((-3, 2)), Err(Error::NotPositive));
    assert_eq!(Pitch::new((3, -2)), Err(Error::NotPositive));
    assert_eq!(Pitch::new((-3, -2)), Ok(p(3, 2)));
}

#[test]
fn reduced_fraction_beyond_32_bits_overflows() {
    assert_eq!(Pitch::new((1, i32::MAX)), Err(Error::Overflow));
    assert_eq!(flatten(Ratio { numerator: 1, denominator: i32::MAX }), Err(Error::Overflow));
}

#[test]
fn combine_multiplies_and_reduces() {
    assert_eq!(p(3, 2).combine(p(3, 2)), Ok(p(9, 8)));
    assert_eq!(p(3, 2).combine(p(4, 3)), Ok(p(1, 1)));
    assert_eq!(p(5, 4).combine(p(3, 2)), Ok(p(15, 8)));
    assert_eq!(p(3, 2).combine(p(5, 4)), Ok(p(15, 8)));
    assert_eq!(p(7, 4).combine(p(1, 1)), Ok(p(7, 4)));
}

#[test]
fn combine_assign_replaces_or_keeps() {
    let mut pitch = p(3, 2);
    assert_eq!(pitch.combine_assign(p(3, 2)), Ok(()));
    assert_eq!(pitch, p(9, 8));

    let wide = p(65537, 65536);
    let mut kept = wide;
    assert_eq!(kept.combine_assign(wide), Err(Error::Overflow));
    assert_eq!(kept, wide);
}

#[test]
fn walk_of_no_steps_is_empty_and_of_one_step_is_the_unison() {
    let fifth = p(3, 2);
    assert_eq!(fifth.walk(0), Ok(vec![]));
    assert_eq!(fifth.walk(-4), Ok(vec![]));
    assert_eq!(fifth.walk(1), Ok(vec![p(1, 1)]));
}

#[test]
fn walk_has_the_length_asked_for() {
    let third = p(5, 4);
    for times in 0..8 {
        assert_eq!(third.walk(times).unwrap().len(), times as usize);
    }
}

#[test]
fn walk_that_leaves_32_bits_overflows() {
    let wide = p(65537, 65536);
    assert_eq!(wide.walk(2), Ok(vec![p(1, 1), wide]));
    assert_eq!(wide.walk(3), Err(Error::Overflow));
}

#[test]
fn limit_is_the_greatest_prime_factor_of_both_parts() {
    assert_eq!(limit(Ratio { numerator: 34, denominator: 1 }), 17);
    assert_eq!(limit(Ratio { numerator: 15, denominator: 8 }), 5);
    assert_eq!(limit(Ratio { numerator: 49, denominator: 32 }), 7);
    assert_eq!(limit(Ratio { numerator: 16, denominator: 9 }), 3);
    assert_eq!(limit(Ratio { numerator: 1, denominator: 1 }), 1);
}

#[test]
fn ordinal_follows_the_denominator() {
    assert_eq!(determine_ordinal(Ratio { numerator: 3, denominator: 2 }), Ordinal::Otonal);
    assert_eq!(determine_ordinal(Ratio { numerator: 9, denominator: 8 }), Ordinal::Otonal);
    assert_eq!(determine_ordinal(Ratio { numerator: 5, denominator: 1 }), Ordinal::Otonal);
    assert_eq!(determine_ordinal(Ratio { numerator: 7, denominator: 5 }), Ordinal::Utonal);
    assert_eq!(determine_ordinal(Ratio { numerator: 4, denominator: 3 }), Ordinal::Utonal);
    assert_eq!(determine_ordinal(Ratio { numerator: 4, denominator: 0 }), Ordinal::Utonal);
}

#[test]
fn derived_pitches_are_valid() {
    for n in 1..30 {
        for d in 1..30 {
            assert!(p(n, d).is_valid());
        }
    }
}

#[test]
fn stale_pitches_are_not_valid() {
    let fifth = p(3, 2);
    assert!(!Pitch { limit: 5, ..fifth }.is_valid());
    assert!(!Pitch { ordinal: Ordinal::Utonal, ..fifth }.is_valid());
    assert!(!Pitch { ratio: Ratio { numerator: 6, denominator: 4 }, ..fifth }.is_valid());
    for (numerator, denominator, limit) in [(3, 1, 3), (2, 1, 2), (3, 4, 3)] {
        let ratio = Ratio { numerator, denominator };
        assert!(!Pitch { ratio, limit, ordinal: Ordinal::Otonal }.is_valid());
    }
}

#[test]
fn flatten_agrees_with_halving_and_doubling() {
    for n in 1..60i64 {
        for d in 1..60i64 {
            let (mut num, mut den) = (n, d);
            while num >= 2 * den {
                den *= 2;
            }
            while num < den {
                num *= 2;
            }
            let expected = Ratio::new((num as i32, den as i32)).unwrap();
            let ratio = Ratio::new((n as i32, d as i32)).unwrap();
            assert_eq!(flatten(ratio), Ok(expected));
            assert_eq!(Pitch::new((n as i32, d as i32)).unwrap().ratio, expected);
        }
    }
}
