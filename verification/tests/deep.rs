use fri_security::deep::{
    ceil_log2_f64, deep_ali_round_two_error_ldr, deep_ali_round_two_error_udr,
    is_finite_and_at_least_one, log2_biguint_lower_bound, log2_biguint_upper_bound,
    DeepAliRoundTwoParams,
};
use fri_security::natural::Natural;
use fri_security::shape::StarkAirParams;
use libm::log2;

fn two_to(exponent: u32) -> Natural {
    Natural::from_u64(2).pow(exponent)
}

fn air() -> StarkAirParams {
    StarkAirParams { num_constraints: 7, max_constraint_degree: 3, max_combo: 2 }
}

fn params() -> DeepAliRoundTwoParams {
    DeepAliRoundTwoParams {
        field_cardinality: two_to(128),
        evaluation_trace_domain_union_size: (1 << 20) + (1 << 16),
        low_degree_bound: 1 << 16,
        expanded_low_degree_bound: (1 << 16) + 2,
        quotient_segment_count: 4,
        quotient_segment_degree_bound: 1 << 16,
    }
}

#[test]
fn source_form_selects_quotient_segment_branch() {
    let params = params();
    let result = deep_ali_round_two_error_udr(&air(), &params).unwrap();
    let first = 3 * (params.expanded_low_degree_bound - 1) + (params.low_degree_bound - 1);
    let second = params.low_degree_bound
        + (params.quotient_segment_count - 1) * params.quotient_segment_degree_bound
        + (params.expanded_low_degree_bound - 1);
    assert!(second > first);

    let denominator = 2f64.powi(128) - params.evaluation_trace_domain_union_size as f64;
    let expected = log2(denominator) - log2(second as f64);
    assert!(result.bits() as f64 <= expected);
    assert!(expected - (result.bits() as f64) < 2.0);
}

#[test]
fn list_decoding_applies_quadratic_list_size() {
    let params = params();
    let list_size = 17.5f64;
    let udr = deep_ali_round_two_error_udr(&air(), &params).unwrap();
    let ldr = deep_ali_round_two_error_ldr(&air(), &params, list_size.to_bits()).unwrap();
    assert_eq!(ldr.bits(), udr.bits() - 2 * ceil_log2_f64(list_size.to_bits()));
}

#[test]
fn source_form_fails_closed_on_invalid_inputs() {
    let mut invalid = params();
    invalid.field_cardinality = Natural::from_usize(invalid.evaluation_trace_domain_union_size);
    assert!(deep_ali_round_two_error_udr(&air(), &invalid).is_none());

    let mut invalid = params();
    invalid.expanded_low_degree_bound = invalid.low_degree_bound - 1;
    assert!(deep_ali_round_two_error_udr(&air(), &invalid).is_none());

    assert!(deep_ali_round_two_error_ldr(&air(), &params(), f64::NAN.to_bits()).is_none());
}

#[test]
fn big_integer_rounding_is_conservative_in_both_directions() {
    let denominator = two_to(200).minus(&Natural::from_u64(12345));
    let numerator = two_to(120).plus(&Natural::from_u64(67890));

    let denominator_floor = log2_biguint_lower_bound(&denominator);
    let denominator_ceil = log2_biguint_upper_bound(&denominator);
    let numerator_floor = log2_biguint_lower_bound(&numerator);
    let numerator_ceil = log2_biguint_upper_bound(&numerator);

    assert_eq!(denominator_floor, 199);
    assert_eq!(denominator_ceil, 200);
    assert_eq!(numerator_floor, 120);
    assert_eq!(numerator_ceil, 121);
    assert_eq!(denominator_floor - numerator_ceil, 78);
}

#[test]
fn floating_list_size_log_ceiling_is_directional_at_boundaries() {
    assert_eq!(ceil_log2_f64(1.0f64.to_bits()), 0);
    assert_eq!(ceil_log2_f64(2.0f64.to_bits()), 1);
    assert_eq!(ceil_log2_f64(f64::from_bits(2.0f64.to_bits() + 1).to_bits()), 2);
    assert_eq!(ceil_log2_f64(17.5f64.to_bits()), 5);
}

#[test]
fn round_two_bits_are_exact() {
    // floor(log2(2^128 - 2^20 - 2^16)) = 127, ceil(log2(327681)) = 19.
    assert_eq!(deep_ali_round_two_error_udr(&air(), &params()).unwrap().bits(), 108);
    let bits = 17.5f64.to_bits();
    assert_eq!(deep_ali_round_two_error_ldr(&air(), &params(), bits).unwrap().bits(), 98);
    let bits = 1e30f64.to_bits();
    assert_eq!(deep_ali_round_two_error_ldr(&air(), &params(), bits).unwrap().bits(), 0);
}

#[test]
fn the_constraint_branch_counts_where_it_is_larger() {
    let mut wide = air();
    wide.max_constraint_degree = 9;
    // 9 * 65537 + 65535 = 655368 needs 20 bits.
    assert_eq!(deep_ali_round_two_error_udr(&wide, &params()).unwrap().bits(), 107);
}

#[test]
fn every_count_has_to_be_positive() {
    let mut flat = air();
    flat.max_constraint_degree = 0;
    assert!(deep_ali_round_two_error_udr(&flat, &params()).is_none());
    let mut invalid = params();
    invalid.low_degree_bound = 0;
    assert!(deep_ali_round_two_error_udr(&air(), &invalid).is_none());
    let mut invalid = params();
    invalid.quotient_segment_count = 0;
    assert!(deep_ali_round_two_error_udr(&air(), &invalid).is_none());
    let mut invalid = params();
    invalid.quotient_segment_degree_bound = 0;
    assert!(deep_ali_round_two_error_udr(&air(), &invalid).is_none());
}

#[test]
fn list_sizes_are_finite_and_at_least_one() {
    for size in [1.0f64, 1.5, 1e300, f64::MAX] {
        assert!(is_finite_and_at_least_one(size.to_bits()));
    }
    for size in [0.0f64, 0.5, -1.0, f64::INFINITY, f64::NEG_INFINITY, f64::NAN] {
        assert!(!is_finite_and_at_least_one(size.to_bits()));
        assert!(deep_ali_round_two_error_ldr(&air(), &params(), size.to_bits()).is_none());
    }
}

#[test]
fn round_two_bits_never_exceed_the_exact_error() {
    let params = params();
    let degree = Natural::from_u64(327_681);
    let points = params.field_cardinality.minus(&Natural::from_usize(
        params.evaluation_trace_domain_union_size,
    ));
    let bits = deep_ali_round_two_error_udr(&air(), &params).unwrap().bits();
    assert!(!points.less_than(&two_to(bits as u32).times(&degree)));
    let list_size = Natural::from_u64(17);
    let bits = deep_ali_round_two_error_ldr(&air(), &params, 17.5f64.to_bits()).unwrap().bits();
    let weighted = degree.times(&list_size).times(&list_size);
    assert!(!points.less_than(&two_to(bits as u32).times(&weighted)));
}
