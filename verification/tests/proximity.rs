use fri_security::proximity::{
    compute_upper_m, exact_hiding_rbr_state_list_report, exact_ldr_list_parameter_report,
};

#[test]
fn concrete_rate_quarter_parameters_are_exact_and_state_scoped() {
    let report =
        exact_ldr_list_parameter_report(1 << 16, 1 << 18, 2, 3, 1 << 17, (1 << 17) + 2).unwrap();

    assert_eq!(report.base_rs_rate_numerator, 1);
    assert_eq!(report.base_rs_rate_denominator, 4);
    assert_eq!(report.proximity_radius_numerator, 5);
    assert_eq!(report.proximity_radius_denominator, 12);
    assert_eq!(report.source_list_size_bound, 7);
    assert!(report.eta_positive);
    assert!(report.base_rs_parameters_established);
    assert!(report.source_list_formula_instantiated);
    assert!(!report.state_candidate_family_correspondence_established);
    assert!(!report.common_rs_and_list_size_regime_established);
}

#[test]
fn rejects_wrong_domain_or_hiding_degree_envelope() {
    assert!(
        exact_ldr_list_parameter_report(1 << 16, 1 << 17, 2, 100, 1 << 17, (1 << 17) + 2,)
            .is_none()
    );
    assert!(
        exact_ldr_list_parameter_report(1 << 16, 1 << 18, 2, 100, 1 << 16, (1 << 16) + 2,)
            .is_none()
    );
}

#[test]
fn concrete_hiding_state_list_regime_uses_the_committed_fri_domain() {
    let report = exact_hiding_rbr_state_list_report(
        1 << 16,
        2,
        3,
        1 << 19,
        1 << 17,
        1 << 17,
        (1 << 17) - 1,
        (1 << 17) - 2,
        2256,
    )
    .unwrap();

    assert_eq!(report.source_candidate_degree_bound, 1 << 17);
    assert_eq!(report.fri_evaluation_domain_size, 1 << 19);
    assert_eq!(report.source_rs_rate_numerator, 1);
    assert_eq!(report.source_rs_rate_denominator, 4);
    assert_eq!(report.source_agreement_numerator, 7);
    assert_eq!(report.source_agreement_denominator, 12);
    assert_eq!(report.source_distance_radius_numerator, 5);
    assert_eq!(report.source_distance_radius_denominator, 12);
    assert_eq!(report.source_list_bound_numerator, 3 * (1 << 19));
    assert_eq!(report.source_list_bound_denominator, (1 << 17) - 6);
    assert_eq!(report.source_list_size_integer_bound, 12);
    assert_eq!(report.priced_constraint_list_union_numerator, 2255 * 12);
    assert!(report.eta_positive);
    assert!(report.source_protocol2_function_family_shape_established);
    assert!(report.common_rs_and_list_size_regime_established);
    assert!(report.state_candidate_family_correspondence_established);
    assert!(!report.fiat_shamir_uniformity_established);
    assert!(!report.full_rbr_transfer_established);
    assert!(!report.zero_knowledge_established);
}

#[test]
fn hiding_state_list_regime_rejects_the_old_base_domain_substitution() {
    assert!(exact_hiding_rbr_state_list_report(
        1 << 16,
        2,
        3,
        1 << 18,
        1 << 17,
        1 << 17,
        (1 << 17) - 1,
        (1 << 17) - 2,
        2256,
    )
    .is_none());
}

#[test]
fn eta_is_positive_from_a_trace_length_on() {
    // At blowup 4 the trace has to be longer than 2m, at blowup 16 it need not.
    for m in [3, 8, 20] {
        for log_trace in 0..8 {
            let trace: usize = 1 << log_trace;
            let quarter =
                exact_ldr_list_parameter_report(trace, 4 * trace, 2, m, 2 * trace, 2 * trace + 2);
            assert_eq!(quarter.is_some(), trace > 2 * m);
            let sixteenth =
                exact_ldr_list_parameter_report(trace, 16 * trace, 4, m, 2 * trace, 2 * trace + 2);
            assert!(sixteenth.is_some());
        }
    }
}

#[test]
fn square_roots_of_rates_are_exact() {
    let report = exact_ldr_list_parameter_report(1 << 10, 1 << 16, 6, 5, 1 << 11, (1 << 11) + 2)
        .unwrap();
    assert_eq!(report.sqrt_rate_reciprocal, 8);
    assert_eq!(report.base_rs_rate_denominator, 64);
    // (2 * 5 + 1) * 8 / 2
    assert_eq!(report.source_list_size_bound, 44);
    // 1 - 11 / 80
    assert_eq!(report.proximity_radius_numerator, 69);
    assert_eq!(report.proximity_radius_denominator, 80);
    assert!(
        exact_ldr_list_parameter_report(1 << 10, 1 << 15, 5, 5, 1 << 11, (1 << 11) + 2).is_none()
    );
}

#[test]
fn oversized_blowups_are_refused() {
    for log_blowup in [64, 66, (1 << 33) + 2, usize::MAX - 1] {
        assert!(
            exact_ldr_list_parameter_report(4, 16, log_blowup, 3, 8, 10).is_none()
        );
    }
}

#[test]
fn the_upper_proximity_parameter_is_the_largest_with_positive_eta() {
    assert_eq!(compute_upper_m(0), 0);
    assert_eq!(compute_upper_m(1), 0);
    assert_eq!(compute_upper_m(2), 1);
    assert_eq!(compute_upper_m(3), 1);
    assert_eq!(compute_upper_m(1 << 16), 1 << 15);
    let eta_is_positive = |h: f64, m: f64| 1.0 + 0.5 / m > ((h + 2.0) / h).sqrt();
    for trace_length in 2..200 {
        let m = compute_upper_m(trace_length);
        assert!(eta_is_positive(trace_length as f64, m as f64));
        assert!(!eta_is_positive(trace_length as f64, (m + 1) as f64));
    }
}
