use fri_security::hiding_pcs::{
    lagrange_quotient_hiding_degree_report, lagrange_quotient_hiding_query_bounds_are_satisfied,
};

#[test]
fn lagrange_quotient_hiding_query_bounds_match_source_equations() {
    // BabyBear's standard challenge extension has e = 4. With one Q_F
    // query and two FRI Q_D queries, Equation (17) requires 12 degrees of
    // witness-randomizer freedom.
    assert!(!lagrange_quotient_hiding_query_bounds_are_satisfied(
        8, 4, 1, 2
    ));
    assert!(lagrange_quotient_hiding_query_bounds_are_satisfied(
        16, 4, 1, 2
    ));
    assert!(!lagrange_quotient_hiding_query_bounds_are_satisfied(
        16, 4, 1, 8
    ));

    // Overflow must not wrap a huge, invalid query budget into acceptance.
    assert!(!lagrange_quotient_hiding_query_bounds_are_satisfied(
        usize::MAX,
        usize::MAX,
        2,
        1
    ));
}

#[test]
fn lagrange_quotient_hiding_degree_report_matches_source_regime() {
    for quotient_chunk_count in [2, 4, 8] {
        let report = lagrange_quotient_hiding_degree_report(16, quotient_chunk_count)
            .expect("valid source degree regime");
        assert_eq!(report.quotient_chunk_domain_size, 16);
        assert_eq!(report.quotient_chunk_count, quotient_chunk_count);
        assert_eq!(report.quotient_randomizer_coefficients_per_column, 16);
        assert_eq!(
            report.implemented_randomized_chunk_degree_bound_exclusive,
            32
        );
        assert_eq!(report.source_nonfinal_chunk_degree_bound_exclusive, 32);
        assert_eq!(
            report.source_final_chunk_degree_bound_exclusive,
            16 + (quotient_chunk_count + 1) * 16
        );
    }

    assert!(lagrange_quotient_hiding_degree_report(0, 2).is_none());
    assert!(lagrange_quotient_hiding_degree_report(16, 1).is_none());
    assert!(lagrange_quotient_hiding_degree_report(usize::MAX, 2).is_none());
    assert!(lagrange_quotient_hiding_degree_report(16, usize::MAX).is_none());
}
