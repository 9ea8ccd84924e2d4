use fri_security::natural::Natural;

fn two_to(exponent: u32) -> Natural {
    Natural::from_u64(2).pow(exponent)
}

#[test]
fn numbers_are_digits_in_base_two_to_the_thirty_two() {
    assert_eq!(Natural::from_u64(0).to_digits(), Vec::<u32>::new());
    assert_eq!(Natural::from_u64((7 << 32) + 5).to_digits(), vec![5, 7]);
    assert_eq!(Natural::from_usize(9).to_digits(), vec![9]);
    assert_eq!(Natural::from_digits(vec![5, 7, 0, 0]), Natural::from_u64((7 << 32) + 5));
    assert_eq!(Natural::from_digits(vec![0, 0]), Natural::from_u64(0));
}

#[test]
fn product_of_two_numbers() {
    assert_eq!(Natural::from_u64(6).times(&Natural::from_usize(7)), Natural::from_u64(42));
    assert_eq!(two_to(70).times(&two_to(60)), two_to(130));
}

#[test]
fn sums_carry_and_differences_borrow() {
    let large = Natural::from_u64(u64::MAX);
    assert_eq!(large.plus(&Natural::from_u64(1)), two_to(64));
    assert_eq!(two_to(64).minus(&Natural::from_u64(1)), large);
    assert_eq!(large.minus(&large), Natural::from_u64(0));
}

#[test]
fn quotients_round_down() {
    let hundred = Natural::from_u64(100);
    assert_eq!(hundred.quotient(&Natural::from_u64(7)), Natural::from_u64(14));
    assert_eq!(two_to(130).quotient(&two_to(100)), two_to(30));
    assert_eq!(Natural::from_u64(6).quotient(&Natural::from_u64(7)), Natural::from_u64(0));
}

#[test]
fn powers_of_numbers() {
    assert_eq!(Natural::from_u64(3).pow(5), Natural::from_u64(243));
    assert_eq!(Natural::from_u64(3).pow(0), Natural::from_u64(1));
    assert_eq!(two_to(96).to_digits(), vec![0, 0, 0, 1]);
}

#[test]
fn order_of_numbers() {
    assert!(Natural::from_u64(6).less_than(&Natural::from_u64(7)));
    assert!(!Natural::from_u64(7).less_than(&Natural::from_u64(7)));
    assert!(!two_to(40).less_than(&Natural::from_u64(9)));
    assert!(Natural::from_u64(0).is_zero());
    assert!(!Natural::from_u64(1).is_zero());
}

#[test]
fn bits_of_numbers() {
    assert_eq!(Natural::from_u64(0).bits(), 0);
    assert_eq!(Natural::from_u64(1).bits(), 1);
    assert_eq!(Natural::from_u64(255).bits(), 8);
    assert_eq!(two_to(200).bits(), 201);
    assert!(two_to(200).is_power_of_two());
    assert!(!two_to(200).plus(&Natural::from_u64(1)).is_power_of_two());
    assert!(!Natural::from_u64(0).is_power_of_two());
}

#[test]
fn copies_are_equal() {
    let number = two_to(77);
    assert_eq!(number.clone(), number);
}
