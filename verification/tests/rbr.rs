use fri_security::natural::Natural;
use fri_security::rbr::{
    exact_fri_rbr_state_transition_report, FriRbrFailureEvent, FriRbrStateTransitionReport,
};

fn concrete_report() -> FriRbrStateTransitionReport {
    exact_fri_rbr_state_transition_report(
        1 << 16,
        1 << 17,
        1 << 19,
        1 << 16,
        (1 << 19) + (1 << 16),
        (1 << 17) + 2,
        8,
        1 << 16,
        3,
        12,
        2256,
        Natural::from_u64(2_013_265_921).pow(4),
        3,
        10,
        &[8, 2388, 8, 8, 8, 8, 8, 8, 8, 8],
        &[1; 10],
        2460,
        true,
        1 << 19,
        1 << 17,
        2,
        1,
        &[1; 17],
        4,
        100,
        true,
    )
    .unwrap()
}

#[test]
fn concrete_ledger_covers_every_proof_consistent_state() {
    let report = concrete_report();
    assert_eq!(report.fri_commit_round_count, 17);
    assert_eq!(report.source_printed_round_count, 20);
    assert_eq!(report.proof_consistent_round_count, 21);
    assert_eq!(report.failure_event_count, 21);
    assert!(report.source_round_count_indexing_discrepancy);
    assert!(!report.source_round_count_interpretation_author_confirmed);
    assert!(!report.source_error_vector_reused_verbatim);
    assert!(report.source_state_ledger_adapted_with_bchks25_bounds);
    assert_eq!(
        report.constraint_combination_error.numerator,
        Natural::from_u64(27060)
    );
    assert_eq!(
        report.deep_evaluation_error.numerator,
        Natural::from_u64(104_333_456)
    );
    assert_eq!(report.opening_batch_curve_degree, 2459);
    assert_eq!(
        report.opening_batch_error.numerator,
        Natural::from_u64(79_790_622_118_799)
    );
    assert_eq!(report.fri_commit_round_errors.len(), 17);
    assert_eq!(
        report.maximum_failure_event,
        FriRbrFailureEvent::OpeningBatchCombination
    );
    assert_eq!(report.ideal_iop_rbr_error, report.opening_batch_error);
    assert!(report.complete_failure_event_ledger_established);
    assert!(report.proof_consistent_ideal_iop_rbr_correspondence_established);
    assert!(!report.fiat_shamir_rom_uniformity_established);
    assert!(!report.commitment_binding_established);
    assert!(!report.zero_knowledge_established);
}

#[test]
fn schedule_and_degree_binding_fail_closed() {
    let mut schedule = [1usize; 17];
    schedule[4] = 2;
    assert!(
        exact_fri_rbr_state_transition_report(
            1 << 16,
            1 << 17,
            1 << 19,
            1 << 16,
            (1 << 19) + (1 << 16),
            (1 << 17) + 2,
            8,
            1 << 16,
            3,
            12,
            2256,
            Natural::from_u64(2_013_265_921).pow(4),
            3,
            10,
            &[8, 2388, 8, 8, 8, 8, 8, 8, 8, 8],
            &[1; 10],
            2460,
            true,
            1 << 19,
            1 << 17,
            2,
            1,
            &schedule,
            4,
            100,
            true,
        )
        .is_none()
    );
    assert!(
        exact_fri_rbr_state_transition_report(
            1 << 16,
            1 << 17,
            1 << 19,
            1 << 16,
            (1 << 19) + (1 << 16),
            (1 << 17) + 2,
            8,
            1 << 16,
            3,
            12,
            2256,
            Natural::from_u64(2_013_265_921).pow(4),
            3,
            10,
            &[8, 2388, 8, 8, 8, 8, 8, 8, 8, 8],
            &[1; 10],
            2460,
            true,
            1 << 19,
            1 << 17,
            2,
            1,
            &[1; 17],
            4,
            100,
            false,
        )
        .is_none()
    );
    assert!(
        exact_fri_rbr_state_transition_report(
            1 << 16,
            1 << 17,
            1 << 19,
            1 << 16,
            (1 << 19) + (1 << 16),
            (1 << 17) + 2,
            8,
            1 << 16,
            3,
            12,
            2256,
            Natural::from_u64(2_013_265_921).pow(4),
            3,
            10,
            &[8, 2387, 8, 8, 8, 8, 8, 8, 8, 8],
            &[1; 10],
            2460,
            true,
            1 << 19,
            1 << 17,
            2,
            1,
            &[1; 17],
            4,
            100,
            true,
        )
        .is_none()
    );
}

fn report_for(
    trace_domain_size: usize,
    widths: &[usize],
    folds: usize,
    num_queries: usize,
    field: Natural,
) -> Option<FriRbrStateTransitionReport> {
    exact_fri_rbr_state_transition_report(
        trace_domain_size,
        2 * trace_domain_size,
        8 * trace_domain_size,
        trace_domain_size,
        9 * trace_domain_size,
        2 * trace_domain_size + 2,
        8,
        trace_domain_size,
        3,
        12,
        2256,
        field,
        3,
        10,
        widths,
        &[1; 10],
        widths.iter().sum(),
        true,
        8 * trace_domain_size,
        2 * trace_domain_size,
        2,
        1,
        &vec![1; folds],
        4,
        num_queries,
        true,
    )
}

fn quartic_field() -> Natural {
    Natural::from_u64(2_013_265_921).pow(4)
}

#[test]
fn degree_bounds_up_to_seventy_two_have_no_rate_envelope() {
    // 2 * 32 = 64 is too small a degree bound, 2 * 64 = 128 is large enough.
    assert!(report_for(32, &[8; 10], 6, 100, quartic_field()).is_none());
    assert!(report_for(64, &[8; 10], 7, 100, quartic_field()).is_some());
}

#[test]
fn exactly_one_fold_schedule_is_accepted() {
    for folds in 0..20 {
        let accepted = report_for(1 << 10, &[8; 10], folds, 100, quartic_field()).is_some();
        assert_eq!(accepted, folds == 11);
    }
}

#[test]
fn the_query_error_is_a_power_of_the_agreement() {
    let report = report_for(1 << 10, &[8; 10], 11, 3, quartic_field()).unwrap();
    assert_eq!(report.fri_query_error.numerator, Natural::from_u64(343));
    assert_eq!(report.fri_query_error.denominator, Natural::from_u64(1728));
    assert_eq!(report.maximum_failure_event, FriRbrFailureEvent::FriQueries);
    assert_eq!(report.ideal_iop_rbr_error, report.fri_query_error);
    assert!(report_for(1 << 10, &[8; 10], 11, 0, quartic_field()).is_none());
    assert!(report_for(1 << 10, &[8; 10], 11, 1 << 32, quartic_field()).is_none());
}

#[test]
fn later_reductions_are_not_likelier_to_fail() {
    let report = concrete_report();
    for pair in report.fri_commit_round_errors.windows(2) {
        assert!(!pair[0].numerator.less_than(&pair[1].numerator));
        assert_eq!(pair[0].denominator, pair[1].denominator);
    }
}

#[test]
fn no_reduction_is_the_largest_event() {
    // One column per matrix makes the smallest batch.
    for num_queries in [1, 10, 100, 400] {
        let report = report_for(1 << 10, &[1; 10], 11, num_queries, quartic_field()).unwrap();
        assert!(!matches!(report.maximum_failure_event, FriRbrFailureEvent::FriCommitRound(_)));
        for error in &report.fri_commit_round_errors {
            assert!(!report.opening_batch_error.numerator.less_than(&error.numerator));
        }
    }
}

#[test]
fn commit_round_errors_follow_the_line_theorem() {
    // d u b (n b^2 (2 u^4 + 5) + 48 a^2) / (96 a^3), rounded up, for d = 1, u = 7, a = 126,
    // b = 256 and n = 512.
    let report = report_for(64, &[8; 10], 7, 100, quartic_field()).unwrap();
    let number = Natural::from_u64;
    let (a, b, n, u) = (number(126), number(256), number(512), number(7));
    let inner = n.times(&b.pow(2)).times(&u.pow(4).times(&number(2)).plus(&number(5))).plus(
        &a.pow(2).times(&number(48)),
    );
    let numerator = u.times(&b).times(&inner);
    let denominator = a.pow(3).times(&number(96));
    let rounded_up = numerator.plus(&denominator.minus(&number(1))).quotient(&denominator);
    assert_eq!(report.fri_commit_round_errors[0].numerator, rounded_up);
}

#[test]
fn errors_have_to_be_probabilities() {
    // The union of the domains has 9 * 2^10 points.
    assert!(report_for(1 << 10, &[8; 10], 11, 100, Natural::from_u64(9216)).is_none());
    assert!(report_for(1 << 10, &[8; 10], 11, 100, Natural::from_u64(1 << 24)).is_none());
    assert!(report_for(1 << 10, &[8; 10], 11, 100, Natural::from_u64(1 << 60)).is_some());
}

#[test]
fn every_matrix_is_opened() {
    let mut widths = [8; 10];
    widths[3] = 0;
    assert!(report_for(1 << 10, &widths, 11, 100, quartic_field()).is_none());
    assert!(report_for(1 << 10, &[8; 9], 11, 100, quartic_field()).is_none());
    assert!(report_for(1 << 10, &[usize::MAX / 16; 10], 11, 100, quartic_field()).is_some());
}
