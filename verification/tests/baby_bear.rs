use fri_security::baby_bear::{BabyBear, BABY_BEAR_PRIME};
use fri_security::field::{exp_u64, Field};

fn element(value: u32) -> BabyBear {
    BabyBear::new(value)
}

#[test]
fn elements_are_reduced() {
    assert_eq!(BABY_BEAR_PRIME, 2_013_265_921);
    assert_eq!(element(BABY_BEAR_PRIME + 4).value, 4);
    assert_eq!(BabyBear::zero().value, 0);
    assert_eq!(BabyBear::one().value, 1);
}

#[test]
fn sums_and_differences_wrap_at_the_prime() {
    let last = element(BABY_BEAR_PRIME - 1);
    assert_eq!(last.plus(element(3)), element(2));
    assert_eq!(element(2).minus(element(3)), last);
    assert_eq!(element(20).plus(element(22)), element(42));
}

#[test]
fn products_are_reduced() {
    let last = element(BABY_BEAR_PRIME - 1);
    assert_eq!(last.times(last), element(1));
    assert_eq!(element(1 << 20).times(element(1 << 20)), element(268434910));
}

#[test]
fn inverses_multiply_to_one() {
    for value in [1, 2, 31, 12345, BABY_BEAR_PRIME - 1] {
        let inverse = element(value).try_inverse().unwrap();
        assert_eq!(element(value).times(inverse), BabyBear::one());
    }
    assert_eq!(element(2).try_inverse(), Some(element(BABY_BEAR_PRIME.div_ceil(2))));
    assert_eq!(BabyBear::zero().try_inverse(), None);
}

#[test]
fn powers_of_elements() {
    assert_eq!(exp_u64(element(3), 0), element(1));
    assert_eq!(exp_u64(element(3), 13), element(1_594_323));
    assert_eq!(exp_u64(element(7), BABY_BEAR_PRIME as u64 - 1), element(1));
}

#[test]
fn equality_of_elements() {
    assert!(element(5).equals(element(5)));
    assert!(!element(5).equals(element(6)));
}
