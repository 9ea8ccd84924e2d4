use fri_security::baby_bear::BabyBear;
use fri_security::domain::{Coset, CosetDft, Radix2Dit, TwoAdicField};
use fri_security::field::{exp_u64, Field};
use fri_security::matrix::RowMajorMatrix;
use p3_field::{PrimeField32, TwoAdicField as _};

fn element(value: u32) -> BabyBear {
    BabyBear::new(value)
}

fn root(bits: usize) -> BabyBear {
    element(p3_baby_bear::BabyBear::two_adic_generator(bits).as_canonical_u32())
}

fn value_at(coefficients: &[BabyBear], x: BabyBear) -> BabyBear {
    coefficients
        .iter()
        .rev()
        .fold(BabyBear::zero(), |sum, coefficient| sum.times(x).plus(*coefficient))
}

#[test]
fn cosets_have_a_unit_as_shift_and_a_two_adic_size() {
    let coset = Coset::new(element(31), 4).unwrap();
    assert_eq!(coset.shift, element(31));
    assert_eq!(coset.shift.times(coset.shift_inverse), BabyBear::one());
    assert_eq!(coset.size, 16);
    assert!(Coset::new(element(0), 4).is_none());
    assert_eq!(Coset::new(element(1), 27).unwrap().size, 1 << 27);
    assert!(Coset::new(element(1), 28).is_none());
    assert!(Coset::new(element(1), usize::MAX).is_none());
}

#[test]
fn the_generator_and_the_largest_order() {
    assert_eq!(BabyBear::generator(), element(31));
    assert_eq!(BabyBear::order_limit(), 1 << 27);
}

#[test]
fn the_vanishing_polynomial_vanishes_on_the_coset_only() {
    let coset = Coset::new(element(31), 3).unwrap();
    let leading = coset.vanishing_leading_coefficient();
    assert_eq!(leading.times(exp_u64(element(31), 8)), BabyBear::one());
    let mut point = element(31);
    for _ in 0..8 {
        assert_eq!(coset.vanishing_polynomial_at(point), BabyBear::zero());
        point = point.times(root(3));
    }
    assert_eq!(point, element(31));
    assert_ne!(coset.vanishing_polynomial_at(element(1)), BabyBear::zero());
    let expected = leading.times(exp_u64(element(5), 8)).minus(BabyBear::one());
    assert_eq!(coset.vanishing_polynomial_at(element(5)), expected);
}

#[test]
fn the_transform_evaluates_each_column_on_the_coset() {
    let values = (0..8).map(|i| element(i * i + 3)).collect();
    let coefficients = RowMajorMatrix::new(values, 2).unwrap();
    let evaluations = Radix2Dit {}.coset_dft_batch(&coefficients, element(31));
    assert_eq!(evaluations.height, 4);
    assert_eq!(evaluations.width, 2);
    let mut point = element(31);
    for row in 0..4 {
        for column in 0..2 {
            let column_coefficients: Vec<BabyBear> =
                (0..4).map(|k| coefficients.values[2 * k + column]).collect();
            assert_eq!(
                evaluations.values[2 * row + column],
                value_at(&column_coefficients, point)
            );
        }
        point = point.times(root(2));
    }
}

#[test]
fn the_inverse_transform_interpolates_each_column_on_the_coset() {
    let values = (0..16).map(|i| element(i * i * i + 11)).collect();
    let evaluations = RowMajorMatrix::new(values, 2).unwrap();
    let coefficients = Radix2Dit {}.coset_idft_batch(&evaluations, element(7));
    assert_ne!(coefficients, evaluations);
    let mut point = element(7);
    for row in 0..8 {
        for column in 0..2 {
            let column_coefficients: Vec<BabyBear> =
                (0..8).map(|k| coefficients.values[2 * k + column]).collect();
            assert_eq!(
                value_at(&column_coefficients, point),
                evaluations.values[2 * row + column]
            );
        }
        point = point.times(root(3));
    }
    assert_eq!(Radix2Dit {}.coset_dft_batch(&coefficients, element(7)), evaluations);
}

#[test]
fn one_row_transforms_to_itself() {
    let row = RowMajorMatrix::new(vec![element(3), element(4)], 2).unwrap();
    assert_eq!(Radix2Dit {}.coset_dft_batch(&row, element(31)), row);
    assert_eq!(Radix2Dit {}.coset_idft_batch(&row, element(31)), row);
}

#[test]
fn roots_have_exactly_their_order() {
    for bits in 1..=27 {
        let halfway = exp_u64(root(bits), 1 << (bits - 1));
        assert_eq!(halfway.plus(BabyBear::one()), BabyBear::zero());
        assert_eq!(root(bits).times(root(bits)), root(bits - 1));
    }
    assert_eq!(root(0), BabyBear::one());
}

#[test]
fn values_on_a_coset_determine_the_coefficients() {
    let values = (0..32).map(|i| element(i * 7 + 1)).collect();
    let coefficients = RowMajorMatrix::new(values, 2).unwrap();
    let evaluations = Radix2Dit {}.coset_dft_batch(&coefficients, element(31));
    assert_eq!(Radix2Dit {}.coset_idft_batch(&evaluations, element(31)), coefficients);
    assert_ne!(Radix2Dit {}.coset_idft_batch(&evaluations, element(7)), coefficients);
}
