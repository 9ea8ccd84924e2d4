use fri_security::air::{
    single_alpha_constraint_combination_report, split_preserves_constraint_indices,
};
use fri_security::natural::Natural;

#[test]
fn single_alpha_report_prices_the_exact_root_factor() {
    let report = single_alpha_constraint_combination_report(7, Natural::from_u64(101)).unwrap();
    assert_eq!(report.lowest_alpha_power, 0);
    assert_eq!(report.highest_alpha_power, 6);
    assert_eq!(report.schwartz_zippel_degree_bound, 6);
    assert_eq!(report.per_candidate_error_numerator, 6);
    assert_eq!(report.challenge_field_cardinality, Natural::from_u64(101));
    assert_eq!(report.historical_calculator_numerator, 7);
    assert!(report.historical_calculator_factor_is_conservative);
    assert!(!report.independent_coefficients_assumed);
    assert!(report.nonzero_coefficient_polynomial_required);
    assert!(!report.source_list_size_binding_established);
    assert!(!report.state_function_correspondence_established);
    assert!(!report.fiat_shamir_uniformity_established);
    assert!(!report.full_rbr_transfer_established);
}

#[test]
fn single_alpha_report_fails_closed_on_degenerate_shapes() {
    assert!(single_alpha_constraint_combination_report(1, Natural::from_u64(101)).is_none());
    assert!(single_alpha_constraint_combination_report(7, Natural::from_u64(6)).is_none());
}

#[test]
fn single_alpha_report_is_defined_up_to_the_field_cardinality() {
    assert!(single_alpha_constraint_combination_report(0, Natural::from_u64(101)).is_none());
    assert!(single_alpha_constraint_combination_report(2, Natural::from_u64(2)).is_some());
    let report = single_alpha_constraint_combination_report(7, Natural::from_u64(7)).unwrap();
    assert_eq!(report.num_constraints, 7);
}

#[test]
fn splits_preserve_every_constraint_index_once() {
    assert!(split_preserves_constraint_indices(&[], &[]));
    assert!(split_preserves_constraint_indices(&[0, 1, 2], &[]));
    assert!(split_preserves_constraint_indices(&[3, 0], &[2, 1]));
    assert!(!split_preserves_constraint_indices(&[0, 1], &[1]));
    assert!(!split_preserves_constraint_indices(&[0, 1], &[3]));
}
