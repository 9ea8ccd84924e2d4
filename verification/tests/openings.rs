use fri_security::baby_bear::BabyBear;
use fri_security::hidden_openings::{merge_hidden_openings, HiddenOpeningError, Openings};
use fri_security::hiding_pcs::{FriParameters, HidingFriPcs};
use fri_security::openings::{check_query_capacity, distinct_opening_points, CapacityError};

/// Random codewords appended per matrix.
///
/// Must be `> 0` so each opening splits into a public part and a hidden part.
const NUM_RANDOM_CODEWORDS: usize = 2;

fn pcs() -> HidingFriPcs {
    HidingFriPcs::new(FriParameters { log_blowup: 1, num_queries: 2 }, NUM_RANDOM_CODEWORDS)
}

/// The public claims and the hidden openings of one round, one matrix of width 4 and one point.
///
/// ```text
///     hidden          = [round_0]      // 1 round
///     hidden[0]       = [matrix_0]     // 1 matrix
///     hidden[0][0]    = [point_0]      // 1 point
///     hidden[0][0][0] = [v_0, v_1]     // NUM_RANDOM_CODEWORDS values
/// ```
fn make_fixture() -> (Openings<u32>, Openings<u32>) {
    pcs()
        .split_opened_values(&vec![vec![vec![vec![1, 2, 3, 4, 5, 6]]]], false, 0)
        .unwrap()
}

#[test]
fn opened_values_split_and_merge() {
    let (public, hidden) = make_fixture();
    assert_eq!(public, vec![vec![vec![vec![1, 2, 3, 4]]]]);
    assert_eq!(hidden, vec![vec![vec![vec![5, 6]]]]);
    let merged = merge_hidden_openings(&public, &hidden).unwrap();
    assert_eq!(merged, vec![vec![vec![vec![1, 2, 3, 4, 5, 6]]]]);
}

#[test]
fn the_preprocessed_round_hides_nothing() {
    let opened = vec![vec![vec![vec![1, 2, 3]]], vec![vec![vec![7], vec![8]]]];
    let (public, hidden) = pcs().split_opened_values(&opened, true, 1).unwrap();
    assert_eq!(public, vec![vec![vec![vec![1]]], vec![vec![vec![7], vec![8]]]]);
    assert_eq!(hidden, vec![vec![vec![vec![2, 3]]], vec![vec![vec![], vec![]]]]);
    assert_eq!(merge_hidden_openings(&public, &hidden).unwrap(), opened);
    assert!(pcs().split_opened_values(&opened, false, 1).is_none());
    assert!(pcs().split_opened_values(&opened, true, 0).is_none());
}

#[test]
fn random_opening_round_count_mismatch() {
    let (claims, mut hidden) = make_fixture();

    // One random-opening entry is required per public round.
    //     claims:  [round_0]          -> expected 1
    //     hidden:  [round_0, EXTRA]   -> got 2
    let expected_rounds = claims.len();
    hidden.push(vec![]);

    let err = merge_hidden_openings(&claims, &hidden)
        .expect_err("should reject an extra random-opening round");

    match err {
        HiddenOpeningError::HidingRandomOpeningRoundCountMismatch { expected, got } => {
            assert_eq!(expected, expected_rounds);
            assert_eq!(got, expected_rounds + 1);
        }
        other => panic!("wrong error variant: {other:?}"),
    }
}

#[test]
fn random_opening_matrix_count_mismatch() {
    let (claims, mut hidden) = make_fixture();

    // Round counts match, so the per-round matrix check fires next.
    //     claims[0]:  [matrix_0]          -> expected 1
    //     hidden[0]:  [matrix_0, EXTRA]   -> got 2
    let expected_mats = claims[0].len();
    hidden[0].push(vec![]);

    let err = merge_hidden_openings(&claims, &hidden)
        .expect_err("should reject an extra random-opening matrix");

    match err {
        HiddenOpeningError::HidingRandomOpeningMatrixCountMismatch {
            round,
            expected,
            got,
        } => {
            assert_eq!(round, 0);
            assert_eq!(expected, expected_mats);
            assert_eq!(got, expected_mats + 1);
        }
        other => panic!("wrong error variant: {other:?}"),
    }
}

#[test]
fn random_opening_point_count_mismatch() {
    let (claims, mut hidden) = make_fixture();

    // Round and matrix counts match, so the per-matrix point check fires.
    //     claims[0][0]:  [point_0]          -> expected 1
    //     hidden[0][0]:  [point_0, EXTRA]   -> got 2
    let expected_points = claims[0][0].len();
    hidden[0][0].push(vec![]);

    let err = merge_hidden_openings(&claims, &hidden)
        .expect_err("should reject an extra random-opening point");

    match err {
        HiddenOpeningError::HidingRandomOpeningPointCountMismatch {
            round,
            matrix,
            expected,
            got,
        } => {
            assert_eq!(round, 0);
            assert_eq!(matrix, 0);
            assert_eq!(expected, expected_points);
            assert_eq!(got, expected_points + 1);
        }
        other => panic!("wrong error variant: {other:?}"),
    }
}

#[test]
fn the_first_mismatch_is_reported() {
    let public = vec![vec![vec![vec![1]]], vec![vec![vec![2]], vec![vec![3]]]];
    let mut hidden = public.clone();
    hidden[1][1].clear();
    hidden[1].push(vec![]);
    let err = merge_hidden_openings(&public, &hidden).unwrap_err();
    assert_eq!(
        err,
        HiddenOpeningError::HidingRandomOpeningMatrixCountMismatch { round: 1, expected: 2, got: 3 }
    );
    hidden[1].pop();
    let err = merge_hidden_openings(&public, &hidden).unwrap_err();
    assert_eq!(
        err,
        HiddenOpeningError::HidingRandomOpeningPointCountMismatch {
            round: 1,
            matrix: 1,
            expected: 1,
            got: 0
        }
    );
}

#[test]
fn opening_points_count_once() {
    let points = |values: &[u32]| values.iter().map(|v| BabyBear::new(*v)).collect::<Vec<_>>();
    let rounds = vec![
        vec![points(&[5, 6]), points(&[5])],
        vec![],
        vec![points(&[]), points(&[7, 6, 7])],
    ];
    let distinct = distinct_opening_points(&rounds);
    assert_eq!(distinct.len(), 3);
    for point in points(&[5, 6, 7]) {
        assert!(distinct.contains(&point));
    }
}

#[test]
fn direct_pcs_open_rejects_underprovisioned_query_capacity() {
    let zeta = vec![vec![vec![BabyBear::new(123)]]];
    // A trace of 2^3 rows is committed on 2^4 points, extended by the blowup 2.
    let err = pcs().check_openings(&zeta, &vec![vec![1 << 5]], 4).unwrap_err();
    assert_eq!(
        err,
        CapacityError::InsufficientCapacity {
            round: 0,
            matrix: 0,
            trace_domain_size: 8,
            num_extension_queries: 1,
        }
    );
    assert_eq!(pcs().check_openings(&zeta, &vec![vec![1 << 6]], 4), Ok(()));
}

#[test]
fn capacity_is_checked_matrix_by_matrix() {
    let heights = vec![vec![64, 64], vec![64, 62, 32]];
    assert_eq!(
        check_query_capacity(&heights, 1, 4, 1, 2),
        Err(CapacityError::HeightNotDivisible { round: 1, matrix: 1 })
    );
    let heights = vec![vec![64, 64], vec![64, 32, 62]];
    assert_eq!(
        check_query_capacity(&heights, 1, 4, 1, 2),
        Err(CapacityError::InsufficientCapacity {
            round: 1,
            matrix: 1,
            trace_domain_size: 8,
            num_extension_queries: 1,
        })
    );
    assert_eq!(
        check_query_capacity(&vec![], 63, 4, 1, 2),
        Err(CapacityError::LdeFactorOverflow)
    );
    assert_eq!(
        check_query_capacity(&vec![], usize::MAX, 4, 1, 2),
        Err(CapacityError::LdeFactorOverflow)
    );
    assert_eq!(check_query_capacity(&vec![], 62, 4, 1, 2), Ok(()));
}
