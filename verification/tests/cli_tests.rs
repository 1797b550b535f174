use johnston::cli::{Options, OutputType, SubCommand, SubOpts};
use johnston::error::Error;
use johnston::intervals::{A, B, C, D, E, F, G, OCTAVE, PYTHAGOREAN_COMMA, SYNTONIC_COMMA, TONIC};
use johnston::lattice::Lattice;
use johnston::pitch::Pitch;

fn p(n: i32, d: i32) -> Pitch {
    Pitch::new((n, d)).unwrap()
}

fn settings(dimension: i32, times: usize) -> SubOpts {
    SubOpts { dimension, times, output: OutputType::Json }
}

#[test]
fn walk_command_steps_along_one_axis() {
    let command = SubCommand::Walk(settings(3, 4));
    assert_eq!(command.pitches(), Ok(vec![p(3, 2), p(9, 8), p(27, 16), p(81, 64)]));
    assert_eq!(SubCommand::Walk(settings(7, 0)).pitches(), Ok(vec![]));
}

#[test]
fn scale_command_gives_the_scale_of_the_lattice() {
    let options = Options { subcmd: SubCommand::Scale(settings(5, 3)) };
    let expected = Lattice::new(5, 3).unwrap().scale().pitches;
    assert_eq!(expected.len(), 13);
    assert_eq!(options.subcmd.pitches(), Ok(expected));
}

#[test]
fn command_hands_its_settings_out() {
    let args = SubOpts { dimension: 5, times: 2, output: OutputType::Table };
    assert_eq!(SubCommand::Walk(args).options(), args);
    assert_eq!(SubCommand::Scale(args).options(), args);
    assert_ne!(SubCommand::Walk(args), SubCommand::Scale(args));
}

#[test]
fn command_passes_errors_on() {
    assert_eq!(SubCommand::Walk(settings(0, 3)).pitches(), Err(Error::NotPositive));
    assert_eq!(SubCommand::Walk(settings(-3, 3)).pitches(), Err(Error::NotPositive));
    assert_eq!(SubCommand::Scale(settings(-3, 3)).pitches(), Ok(vec![]));
}

#[test]
fn named_intervals_are_pitches() {
    assert_eq!(Pitch::new(TONIC), Ok(p(1, 1)));
    assert_eq!(Pitch::new(OCTAVE), Ok(p(1, 1)));
    assert_eq!(Pitch::new(C), Ok(p(1, 1)));
    assert_eq!(Pitch::new(D), Ok(p(9, 8)));
    assert_eq!(Pitch::new(E), Ok(p(5, 4)));
    assert_eq!(Pitch::new(F), Ok(p(4, 3)));
    assert_eq!(Pitch::new(G), Ok(p(3, 2)));
    assert_eq!(Pitch::new(A), Ok(p(5, 3)));
    assert_eq!(Pitch::new(B), Ok(p(15, 8)));
    assert_eq!(SYNTONIC_COMMA, (81, 80));
    assert_eq!(PYTHAGOREAN_COMMA, (3i32.pow(12), 2i32.pow(19)));
}
