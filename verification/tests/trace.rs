use fri_security::baby_bear::BabyBear;
use fri_security::field::Field;
use fri_security::hiding_pcs::{FriParameters, HidingFriPcs};
use fri_security::matrix::RowMajorMatrix;
use fri_security::trace::{pad_preprocessing, trace_random_value_count, TraceError};

fn pcs(codewords: usize) -> HidingFriPcs {
    HidingFriPcs::new(FriParameters { log_blowup: 1, num_queries: 2 }, codewords)
}

#[test]
fn traces_are_interleaved_with_random_rows() {
    let trace = RowMajorMatrix::new(vec![1, 2, 3, 4, 5, 6], 3).unwrap();
    assert_eq!(trace_random_value_count(4, &trace, 1), Ok(10));
    let random: Vec<u32> = (100..110).collect();
    let randomized = pcs(1).randomize_trace(4, &trace, &random).unwrap();
    assert_eq!(randomized.height, 4);
    assert_eq!(randomized.width, 4);
    assert_eq!(
        randomized.values,
        vec![1, 2, 3, 100, 101, 102, 103, 104, 4, 5, 6, 105, 106, 107, 108, 109]
    );
}

#[test]
fn traces_that_cannot_be_randomized() {
    let trace = RowMajorMatrix::new(vec![1u8, 2, 3, 4], 2).unwrap();
    let wrong_domain = pcs(1).randomize_trace(2, &trace, &[0; 8]);
    assert_eq!(wrong_domain.unwrap_err(), TraceError::DomainSizeMismatch);
    let wide = pcs(usize::MAX).randomize_trace(4, &trace, &[]);
    assert_eq!(wide.unwrap_err(), TraceError::SizeOverflow);
    let wide = pcs(usize::MAX / 4).randomize_trace(4, &trace, &[]);
    assert_eq!(wide.unwrap_err(), TraceError::SizeOverflow);
    let short = pcs(1).randomize_trace(4, &trace, &[0; 7]);
    assert_eq!(short.unwrap_err(), TraceError::RandomValueCountMismatch);
    assert_eq!(trace_random_value_count(4, &trace, 1), Ok(8));
    assert_eq!(trace_random_value_count(2, &trace, 1), Err(TraceError::DomainSizeMismatch));
    assert_eq!(trace_random_value_count(4, &trace, usize::MAX), Err(TraceError::SizeOverflow));
    let endless = RowMajorMatrix::new(vec![(); usize::MAX], 1).unwrap();
    let tall = pcs(0).randomize_trace(4, &endless, &[]);
    assert_eq!(tall.unwrap_err(), TraceError::HeightOverflow);
}

#[test]
fn preprocessed_traces_are_interleaved_with_zeros() {
    let values = [1, 2, 3, 4].into_iter().map(BabyBear::new).collect();
    let matrix = RowMajorMatrix::new(values, 2).unwrap();
    let padded = pad_preprocessing(&matrix).unwrap();
    assert_eq!(padded.height, 4);
    assert_eq!(padded.width, 2);
    let zero = BabyBear::zero();
    let expected: Vec<BabyBear> = vec![
        BabyBear::new(1),
        BabyBear::new(2),
        zero,
        zero,
        BabyBear::new(3),
        BabyBear::new(4),
        zero,
        zero,
    ];
    assert_eq!(padded.values, expected);
}

#[test]
fn widths_with_and_without_random_codewords() {
    assert_eq!(pcs(2).visible_width(6), Some(4));
    assert_eq!(pcs(2).visible_width(2), Some(0));
    assert_eq!(pcs(2).visible_width(1), None);
    assert_eq!(pcs(2).randomization_width(4), Some(6));
    assert_eq!(pcs(2).randomization_width(usize::MAX), None);
}

#[test]
fn query_bounds_count_the_fri_queries() {
    assert!(pcs(2).zk_query_bounds_are_satisfied(16, 4, 1));
    assert!(!pcs(2).zk_query_bounds_are_satisfied(8, 4, 1));
    assert!(pcs(2).zk_query_bounds_are_satisfied(12, 4, 1));
    assert!(!pcs(2).zk_query_bounds_are_satisfied(11, 4, 1));
}
