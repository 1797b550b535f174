use johnston::math::IntExt;
use johnston::pitch::{flatten, Pitch};
use johnston::ratio::Ratio;

fn r(n: i32, d: i32) -> Ratio {
    Ratio::new((n, d)).unwrap()
}

fn p(n: i32, d: i32) -> Pitch {
    Pitch::new((n, d)).unwrap()
}

#[test]
fn it_returns_factors() {
    // arrange
    let empty_vec: Vec<i32> = Vec::new();

    // assert
    assert_eq!(0.factors(), empty_vec);
    assert_eq!(6.factors(), vec![1, 2, 3, 6]);
    assert_eq!(7.factors(), vec![1, 7]);
    assert_eq!(34.factors(), vec![1, 2, 17, 34]);
}

#[test]
fn it_returns_the_greatest_prime_factor() {
    // assert
    assert_eq!(2.gpf(), 2);
    assert_eq!(15.gpf(), 5);
    assert_eq!(34.gpf(), 17);
    assert_eq!(49.gpf(), 7);
}

#[test]
fn it_is_a_power_of_two() {
    // assert
    assert_eq!(3.is_power_of_two(), false);
    assert_eq!(8.is_power_of_two(), true);
    assert_eq!(17.is_power_of_two(), false);
    assert_eq!(1024.is_power_of_two(), true);
    assert_eq!(1111.is_power_of_two(), false);
}

#[test]
fn it_gets_the_correct_limit() {
    // arrange
    let a = p(3, 2);
    let b = p(5, 4);
    let c = p(7, 5);
    let d = p(13, 8);

    // assert
    assert_eq!(a.limit, 3);
    assert_eq!(b.limit, 5);
    assert_eq!(c.limit, 7);
    assert_eq!(d.limit, 13);
}

#[test]
fn it_returns_the_interval_to_traverse_the_lattice() {
    assert_eq!(Pitch::new(3).unwrap().ratio, r(3, 2));
    assert_eq!(Pitch::new(5).unwrap().ratio, r(5, 4));
    assert_eq!(Pitch::new((1, 3)).unwrap().ratio, r(4, 3));
    assert_eq!(Pitch::new((1, 5)).unwrap().ratio, r(8, 5));
}

#[test]
fn it_flattens() {
    // arrange
    let a = r(18, 4);
    let b = r(9, 4);
    let c = r(6, 2);
    let d = r(3, 4);

    // assert
    assert_eq!(flatten(a).unwrap(), r(9, 8));
    assert_eq!(flatten(b).unwrap(), r(9, 8));
    assert_eq!(flatten(c).unwrap(), r(3, 2));
    assert_eq!(flatten(d).unwrap(), r(3, 2));
}

#[test]
fn it_is_a_prime_predicate() {
    // arrange
    let yes_1 = 7883;
    let yes_2 = 2;
    let yes_3 = 3;
    let no_1 = 1;
    let no_2 = 2000;
    let no_3 = 99;

    // assert
    assert_eq!(yes_1.is_prime(), true);
    assert_eq!(yes_2.is_prime(), true);
    assert_eq!(yes_3.is_prime(), true);
    assert_eq!(no_1.is_prime(), false);
    assert_eq!(no_2.is_prime(), false);
    assert_eq!(no_3.is_prime(), false);
}

#[test]
fn it_walks_otonally() {
    // arrange
    let fifth = p(3, 2);
    let response = vec![p(1, 1), p(3, 2), p(9, 8), p(27, 16), p(81, 64)];

    // act
    let result = fifth.walk(5).unwrap();

    // assert
    assert_eq!(result, response);
}

#[test]
fn it_walks_utonally() {
    // arrange
    let fourth = p(4, 3);
    let response = vec![p(1, 1), p(4, 3), p(16, 9), p(32, 27), p(128, 81)];

    // act
    let result = fourth.walk(5).unwrap();

    // assert
    assert_eq!(result, response);
}

#[test]
fn it_generates_a_lattice() {
    // arrange
    let args = [3, 5];
    let steps = 3;
    let expected = vec![
        (
            args[0],
            vec![p(1, 1), p(3, 2), p(9, 8)],
            vec![p(1, 1), p(4, 3), p(16, 9)],
        ),
        (
            args[1],
            vec![p(1, 1), p(5, 4), p(25, 16)],
            vec![p(1, 1), p(8, 5), p(32, 25)],
        ),
    ];

    // act
    let mut result = Vec::new();
    for dimension in args {
        let otonal = Pitch::new((dimension, 1)).unwrap().walk(steps).unwrap();
        let utonal = Pitch::new((1, dimension)).unwrap().walk(steps).unwrap();
        result.push((dimension, otonal, utonal));
    }

    // assert
    assert_eq!(result, expected);
}
