use fri_security::baby_bear::BabyBear;
use fri_security::domain::{Coset, Radix2Dit};
use fri_security::field::Field;
use fri_security::hiding_pcs::{
    lagrange_quotient_hiding_degree_report, FriParameters, HidingFriPcs, QuotientError,
};
use fri_security::matrix::RowMajorMatrix;
use fri_security::quotient::{balance_quotient_randomizers, randomize_chunk_coefficients};
use fri_security::selectors::quotient_chunk_selector_normalizers;
use p3_commit::PolynomialSpace;
use p3_dft::TwoAdicSubgroupDft;
use p3_field::coset::TwoAdicMultiplicativeCoset;
use p3_field::{Field as _, PrimeCharacteristicRing, PrimeField32};
use p3_matrix::bitrev::BitReversibleMatrix;
use p3_matrix::Matrix;
use rand::rngs::StdRng;
use rand::{RngExt, SeedableRng};

type Val = p3_baby_bear::BabyBear;
type Domain = TwoAdicMultiplicativeCoset<Val>;
type Chunks = Vec<(Coset<BabyBear>, RowMajorMatrix<BabyBear>)>;

/// Random codewords appended per matrix.
const NUM_RANDOM_CODEWORDS: usize = 2;

fn element(value: u32) -> BabyBear {
    BabyBear::new(value)
}

fn held(value: Val) -> BabyBear {
    BabyBear { value: value.as_canonical_u32() }
}

fn val(element: BabyBear) -> Val {
    Val::new(element.value)
}

fn coset(domain: &Domain) -> Coset<BabyBear> {
    Coset::new(held(domain.shift()), domain.log_size()).unwrap()
}

fn cosets(domains: &[Domain]) -> Vec<Coset<BabyBear>> {
    domains.iter().map(coset).collect()
}

fn pcs() -> HidingFriPcs {
    HidingFriPcs::new(FriParameters { log_blowup: 1, num_queries: 2 }, NUM_RANDOM_CODEWORDS)
}

fn draw(rng: &mut StdRng, count: usize) -> Vec<BabyBear> {
    (0..count).map(|_| held(rng.random::<Val>())).collect()
}

/// `chunks` chunks of the coset of the generator of `16` points, with the values `1, 2, ..`.
fn chunks_of(chunks: usize, width: usize) -> Chunks {
    let domain = Domain::new(Val::GENERATOR, 4).unwrap();
    let mut next = 0;
    domain
        .split_domains(chunks)
        .iter()
        .map(|chunk| {
            let values = (0..chunk.size() * width)
                .map(|_| {
                    next += 1;
                    element(next)
                })
                .collect();
            (coset(chunk), RowMajorMatrix::new(values, width).unwrap())
        })
        .collect()
}

#[test]
fn quotient_randomizer_balance_preserves_recomposition() {
    let domain = Domain::new(Val::GENERATOR, 4).unwrap();

    for num_chunks in [2, 4, 8] {
        let domains = domain.split_domains(num_chunks);
        let normalizers = quotient_chunk_selector_normalizers(&cosets(&domains))
            .expect("split domains are disjoint");
        let values_per_chunk = 5;
        let mut randomizers: Vec<BabyBear> = (0..(num_chunks - 1) * values_per_chunk)
            .map(|i| held(Val::from_usize(i * i + 11)))
            .chain(core::iter::repeat_n(BabyBear::zero(), values_per_chunk))
            .collect();

        balance_quotient_randomizers(&normalizers, values_per_chunk, &mut randomizers)
            .expect("valid randomizer shape");

        for offset in 0..values_per_chunk {
            let weighted_sum = normalizers
                .iter()
                .enumerate()
                .map(|(chunk, normalizer)| {
                    val(*normalizer) * val(randomizers[chunk * values_per_chunk + offset])
                })
                .sum::<Val>();
            assert_eq!(weighted_sum, Val::ZERO, "failed for {num_chunks} chunks");
        }
    }
}

/// The selector of each chunk at a point.
fn selectors_at(domains: &[Domain], point: Val) -> Vec<Val> {
    let normalizers = quotient_chunk_selector_normalizers(&cosets(domains))
        .expect("split quotient domains are disjoint");
    (0..domains.len())
        .map(|i| {
            (0..domains.len())
                .filter(|j| *j != i)
                .map(|j| domains[j].vanishing_poly_at_point(point))
                .product::<Val>()
                * val(normalizers[i])
        })
        .collect()
}

/// The value at a point of the polynomial with the given values, in bit-reversed order, on the
/// coset of the generator.
fn value_of_lde(values: Vec<Val>, point: Val) -> Val {
    let lde = p3_matrix::dense::RowMajorMatrix::new_col(values);
    let column = lde.bit_reverse_rows().to_row_major_matrix().values;
    let log_height = column.len().trailing_zeros() as usize;
    Domain::new(Val::GENERATOR, log_height)
        .unwrap()
        .evaluate_polynomial_at(&column, point)
}

#[test]
fn randomized_quotient_ldes_preserve_recomposition_at_arbitrary_points() {
    let mut pcs = pcs();
    let mut rng = StdRng::seed_from_u64(10);
    let dft = p3_dft::Radix2Dit::<Val>::default();

    let quotient_domain = Domain::new(Val::GENERATOR, 4).unwrap();
    let coefficients: Vec<Val> = (0..quotient_domain.size())
        .map(|i| Val::from_usize(i * i + 3 * i + 7))
        .collect();
    let quotient_evaluations: Vec<Val> = quotient_domain
        .iter()
        .map(|point| {
            coefficients
                .iter()
                .rev()
                .fold(Val::ZERO, |acc, &coefficient| acc * point + coefficient)
        })
        .collect();

    for num_chunks in [2, 4, 8] {
        let chunk_domains = quotient_domain.split_domains(num_chunks);
        let chunk_evaluations = quotient_domain.split_evals(
            num_chunks,
            p3_matrix::dense::RowMajorMatrix::new_col(quotient_evaluations.clone()),
        );
        let plain_ldes: Vec<Vec<Val>> = chunk_domains
            .iter()
            .copied()
            .zip(chunk_evaluations.clone())
            .map(|(domain, evaluations)| {
                dft.coset_lde_batch(evaluations, 2, Val::GENERATOR / domain.shift())
                    .bit_reverse_rows()
                    .to_row_major_matrix()
                    .values
            })
            .collect();
        let chunks: Chunks = chunk_domains
            .iter()
            .zip(chunk_evaluations)
            .map(|(domain, evaluations)| {
                let values = evaluations.values.iter().copied().map(held).collect();
                (coset(domain), RowMajorMatrix::new(values, 1).unwrap())
            })
            .collect();
        let count = pcs.quotient_random_value_count(&chunks, num_chunks).unwrap();
        let drawn = draw(&mut rng, count);
        let ldes = pcs
            .get_quotient_ldes(&Radix2Dit {}, &chunks, num_chunks, &drawn)
            .expect("valid quotient partition");

        for point in [Val::from_u32(12345), Val::from_u32(67890)] {
            let selectors = selectors_at(&chunk_domains, point);
            let recomposed = ldes
                .iter()
                .zip(&selectors)
                .map(|(lde, selector)| {
                    let column = (0..lde.height).map(|row| val(lde.values[row * lde.width]));
                    *selector * value_of_lde(column.collect(), point)
                })
                .sum::<Val>();
            let plain_recomposed = plain_ldes
                .iter()
                .zip(&selectors)
                .map(|(lde, selector)| *selector * value_of_lde(lde.clone(), point))
                .sum::<Val>();
            let expected = quotient_domain.evaluate_polynomial_at(&quotient_evaluations, point);

            assert_eq!(plain_recomposed, expected);

            assert_eq!(recomposed, expected, "failed for {num_chunks} chunks at {point}");
        }
    }

    let reports = pcs.quotient_degree_reports();
    assert_eq!(reports.len(), 3);
    assert_eq!(reports[0].quotient_chunk_domain_size, 8);
    assert_eq!(reports[2].quotient_chunk_count, 8);
}

#[test]
fn extensions_have_twice_the_blowup_and_every_random_codeword() {
    let mut pcs = pcs();
    let chunks = chunks_of(2, 3);
    // 2 chunks * 8 rows * 2 columns, and 1 chunk * 8 rows * 5 columns.
    assert_eq!(pcs.quotient_random_value_count(&chunks, 2), Some(32 + 40));
    let drawn = draw(&mut StdRng::seed_from_u64(3), 72);
    let ldes = pcs.get_quotient_ldes(&Radix2Dit {}, &chunks, 2, &drawn).unwrap();
    assert_eq!(ldes.len(), 2);
    for lde in &ldes {
        assert_eq!(lde.height, 32);
        assert_eq!(lde.width, 5);
    }
    // The random codewords are interpolated through the drawn values on the chunk's domain.
    let domain = Domain::new(val(chunks[1].0.shift), 3).unwrap();
    let column: Vec<Val> = (0..32).map(|row| val(ldes[1].values[row * 5 + 4])).collect();
    for (row, point) in domain.iter().enumerate() {
        assert_eq!(value_of_lde(column.clone(), point), val(drawn[16 + 2 * row + 1]));
    }
    // So is the chunk itself.
    let column: Vec<Val> = (0..32).map(|row| val(ldes[1].values[row * 5])).collect();
    for (row, point) in domain.iter().enumerate() {
        assert_eq!(value_of_lde(column.clone(), point), val(chunks[1].1.values[3 * row]));
    }
}

#[test]
fn randomized_coefficients_are_those_of_the_sum() {
    // q = 5 + 6 X, t = 1 + 2 X, (3 X^2 - 1) t = -1 - 2 X + 3 X^2 + 6 X^3.
    let values = randomize_chunk_coefficients(
        &[element(5), element(6)],
        &[element(1), element(2)],
        0,
        2,
        1,
        8,
        element(3),
    );
    let expected: Vec<BabyBear> = [4, 4, 3, 6, 0, 0, 0, 0].into_iter().map(element).collect();
    assert_eq!(values, expected);
}

#[test]
fn balancing_refuses_other_shapes() {
    let mut values = vec![element(1), element(2)];
    let one = element(1);
    assert_eq!(balance_quotient_randomizers(&[one], 2, &mut values), None);
    assert_eq!(balance_quotient_randomizers(&[one, one], 0, &mut values), None);
    assert_eq!(balance_quotient_randomizers(&[one, one], 2, &mut values), None);
    assert_eq!(balance_quotient_randomizers(&[one, element(0)], 1, &mut values), None);
    assert_eq!(values, vec![element(1), element(2)]);
}

#[test]
fn balancing_overwrites_the_final_randomizer() {
    // 3 * 1 + 1 * (-3) = 0, whatever stood in place of the -3.
    for held in [0, 2, 77] {
        let mut values = vec![element(1), element(held)];
        let normalizers = [element(3), element(1)];
        assert_eq!(balance_quotient_randomizers(&normalizers, 1, &mut values), Some(()));
        assert_eq!(values, vec![element(1), element(0).minus(element(3))]);
    }
    let mut values = vec![element(0), element(1)];
    let normalizers = [element(1), element(1)];
    assert_eq!(balance_quotient_randomizers(&normalizers, 1, &mut values), Some(()));
    assert_eq!(values, vec![element(0), element(0)]);
}

#[test]
fn normalizers_scale_the_other_vanishing_polynomials_to_one() {
    let domains = cosets(&Domain::new(Val::GENERATOR, 4).unwrap().split_domains(4));
    let normalizers = quotient_chunk_selector_normalizers(&domains).unwrap();
    for i in 0..4 {
        let mut product = normalizers[i];
        for j in 0..4 {
            if i != j {
                product = product.times(domains[j].vanishing_polynomial_at(domains[i].shift));
            }
        }
        assert_eq!(product, BabyBear::one());
    }
    assert!(quotient_chunk_selector_normalizers(&[domains[0], domains[0]]).is_none());
    assert!(quotient_chunk_selector_normalizers::<BabyBear>(&[]).is_none());
}

fn failure(pcs: &mut HidingFriPcs, chunks: &Chunks, num_chunks: usize) -> QuotientError {
    let count = pcs.quotient_random_value_count(chunks, num_chunks).unwrap_or(0);
    let drawn = vec![element(1); count.min(1 << 20)];
    pcs.get_quotient_ldes(&Radix2Dit {}, chunks, num_chunks, &drawn).unwrap_err()
}

#[test]
fn quotient_partitions_that_cannot_be_booked() {
    let mut pcs = pcs();
    assert_eq!(failure(&mut pcs, &vec![], 0), QuotientError::TooFewChunks);
    assert_eq!(failure(&mut pcs, &chunks_of(1, 1), 1), QuotientError::TooFewChunks);
    assert_eq!(failure(&mut pcs, &chunks_of(2, 1), 4), QuotientError::ChunkCountMismatch);
    let mut unequal = chunks_of(2, 1);
    unequal[1].1 = RowMajorMatrix::new(vec![element(1); 16], 2).unwrap();
    assert_eq!(failure(&mut pcs, &unequal, 2), QuotientError::UnequalShapes);
    let mut empty = chunks_of(2, 1);
    empty[0].1 = RowMajorMatrix::new(vec![], 1).unwrap();
    empty[1].1 = RowMajorMatrix::new(vec![], 1).unwrap();
    assert_eq!(failure(&mut pcs, &empty, 2), QuotientError::DegreesNotBookable);
    assert!(pcs.quotient_degree_reports().is_empty());
}

#[test]
fn quotient_partitions_that_are_booked_but_not_randomized() {
    let mut pcs = pcs();
    let mut overlapping = chunks_of(2, 1);
    overlapping[1].0 = overlapping[0].0;
    assert_eq!(failure(&mut pcs, &overlapping, 2), QuotientError::OverlappingDomains);
    assert_eq!(pcs.quotient_degree_reports().len(), 1);

    let chunks = chunks_of(2, 1);
    let short = pcs.get_quotient_ldes(&Radix2Dit {}, &chunks, 2, &[element(1); 3]);
    assert_eq!(short.unwrap_err(), QuotientError::RandomValueCountMismatch);
    assert_eq!(pcs.quotient_degree_reports().len(), 2);

    let mut mismatched = chunks_of(2, 1);
    mismatched[1].1 = RowMajorMatrix::new(vec![element(1); 4], 1).unwrap();
    mismatched[0].1 = RowMajorMatrix::new(vec![element(1); 4], 1).unwrap();
    assert_eq!(failure(&mut pcs, &mismatched, 2), QuotientError::DomainSizeMismatch);
    assert_eq!(pcs.quotient_degree_reports()[2].quotient_chunk_domain_size, 4);
}

#[test]
fn quotient_sizes_that_do_not_fit() {
    let params = FriParameters { log_blowup: 1, num_queries: 2 };
    let chunks = chunks_of(2, 1);
    let mut wide = HidingFriPcs::new(params, usize::MAX);
    assert_eq!(failure(&mut wide, &chunks, 2), QuotientError::WidthOverflow);
    let mut wide = HidingFriPcs::new(params, usize::MAX / 4);
    assert_eq!(failure(&mut wide, &chunks, 2), QuotientError::RandomizerSizeOverflow);
    let mut wide = HidingFriPcs::new(params, usize::MAX / 8 - 1);
    assert_eq!(failure(&mut wide, &chunks, 2), QuotientError::RandomizerAllocationOverflow);

    let mut wide = HidingFriPcs::new(params, usize::MAX / 32 + 1);
    assert_eq!(failure(&mut wide, &chunks, 2), QuotientError::LdeAllocationOverflow);

    for log_blowup in [24, 63, 64, usize::MAX] {
        let mut tall = HidingFriPcs::new(FriParameters { log_blowup, num_queries: 2 }, 2);
        assert_eq!(failure(&mut tall, &chunks, 2), QuotientError::LdeHeightOverflow);
    }
}

#[test]
fn no_random_values_are_asked_for_before_the_partition_is_accepted() {
    let pcs = pcs();
    assert_eq!(pcs.quotient_random_value_count(&chunks_of(2, 1), 2), Some(32 + 24));
    assert_eq!(pcs.quotient_random_value_count(&chunks_of(2, 1), 4), None);
    assert_eq!(pcs.quotient_random_value_count(&chunks_of(1, 1), 1), None);
    let mut overlapping = chunks_of(2, 1);
    overlapping[1].0 = overlapping[0].0;
    assert_eq!(pcs.quotient_random_value_count(&overlapping, 2), None);
}

#[test]
fn the_record_lists_the_booked_calls_in_order() {
    let mut pcs = pcs();
    assert!(pcs.quotient_degree_reports().is_empty());
    let mut expected = vec![];
    for num_chunks in [4, 2, 8] {
        let chunks = chunks_of(num_chunks, 1);
        let count = pcs.quotient_random_value_count(&chunks, num_chunks).unwrap();
        let drawn = vec![element(5); count];
        assert!(pcs.get_quotient_ldes(&Radix2Dit {}, &chunks, num_chunks, &drawn).is_ok());
        expected.push(lagrange_quotient_hiding_degree_report(16 / num_chunks, num_chunks).unwrap());
        // Neither a refused partition nor any other call changes the record.
        assert_eq!(failure(&mut pcs, &chunks, num_chunks + 1), QuotientError::ChunkCountMismatch);
        assert!(pcs.zk_query_bounds_are_satisfied(16, 4, 1));
        assert_eq!(pcs.quotient_degree_reports(), expected);
        assert_eq!(pcs.quotient_degree_reports(), expected);
    }
}

#[test]
fn split_cosets_share_the_points_and_select_their_own_chunk() {
    let domain = Domain::new(Val::GENERATOR, 4).unwrap();
    let points: Vec<Val> = domain.iter().collect();
    for num_chunks in [2, 4, 8] {
        let domains = domain.split_domains(num_chunks);
        for (i, chunk_domain) in domains.iter().enumerate() {
            for (row, point) in chunk_domain.iter().enumerate() {
                assert_eq!(point, points[i + num_chunks * row]);
                let selectors = selectors_at(&domains, point);
                for (j, selector) in selectors.into_iter().enumerate() {
                    assert_eq!(selector, if i == j { Val::ONE } else { Val::ZERO });
                }
            }
        }
    }
}
