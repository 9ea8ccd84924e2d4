use fri_security::natural::Natural;
use fri_security::rational::PositiveRational;

fn ratio(numerator: usize, denominator: usize) -> PositiveRational {
    PositiveRational::from_usize(numerator, denominator).unwrap()
}

#[test]
fn zero_has_no_place_in_a_positive_ratio() {
    assert!(PositiveRational::from_usize(0, 3).is_none());
    assert!(PositiveRational::from_usize(3, 0).is_none());
    assert!(PositiveRational::new(Natural::from_u64(3), Natural::from_u64(0)).is_none());
}

#[test]
fn arithmetic_of_ratios() {
    let sum = ratio(1, 2).add(&ratio(1, 3));
    assert!(!sum.exceeds(&ratio(5, 6)) && !ratio(5, 6).exceeds(&sum));
    let product = ratio(2, 3).mul(&ratio(9, 4));
    assert!(!product.exceeds(&ratio(3, 2)) && !ratio(3, 2).exceeds(&product));
    let quotient = ratio(2, 3).div(&ratio(4, 9));
    assert!(!quotient.exceeds(&ratio(3, 2)) && !ratio(3, 2).exceeds(&quotient));
    let scaled = ratio(2, 3).scale(6);
    assert!(!scaled.exceeds(&ratio(4, 1)) && !ratio(4, 1).exceeds(&scaled));
    let cube = ratio(2, 3).pow(3);
    assert!(!cube.exceeds(&ratio(8, 27)) && !ratio(8, 27).exceeds(&cube));
    let square = ratio(2, 3).square();
    assert!(!square.exceeds(&ratio(4, 9)) && !ratio(4, 9).exceeds(&square));
    assert!(ratio(3, 2).exceeds(&ratio(4, 3)));
}

#[test]
fn ceilings_of_ratios() {
    assert_eq!(ratio(7, 2).ceil(), Natural::from_u64(4));
    assert_eq!(ratio(8, 2).ceil(), Natural::from_u64(4));
    assert_eq!(ratio(1, 9).ceil(), Natural::from_u64(1));
}
