//! A hiding FRI commitment scheme: its query capacity, degree bookkeeping and randomization.
use crate::domain::{is_domain_size, lemma_pow2_is_pow2, Coset, CosetDft, TwoAdicField};
use crate::field::{all_valid, dot, Field};
use crate::hidden_openings::{has_hidden, is_split, split_opened_values, Openings};
use crate::matrix::RowMajorMatrix;
use crate::openings::{
    check_query_capacity, distinct_opening_points, is_capacity_outcome, lemma_lists_have_one_length,
    lists_opening_points, points_are_valid, two_blowups, CapacityError,
};
use crate::powers::exact_log2;
use crate::quotient::{across_chunks, balance_quotient_randomizers};
use crate::quotient_lde::{is_randomized_lde, randomized_chunk_lde};
use crate::selectors::{
    all_well_formed, normalizes, quotient_chunk_selector_normalizers, selectors_exist,
};
use crate::slices::copy_slice;
use crate::trace::{is_randomized_trace, randomize_trace, trace_failure, TraceError};
use vstd::arithmetic::mul::*;
use vstd::arithmetic::power2::*;
use vstd::prelude::*;
use vstd::slice::slice_subrange;

verus! {

/// Equations (16) and (17) of ePrint 2024/1037 for `h = h_p = |H|`: the quotient randomizers have
/// room for every query, and the witness randomizers for every base field coordinate, twice over.
pub open spec fn query_bounds_hold(
    trace_domain_size: nat,
    extension_degree: nat,
    num_extension_queries: nat,
    num_domain_queries: nat,
) -> bool {
    &&& num_extension_queries + num_domain_queries <= trace_domain_size
    &&& 2 * (extension_degree * num_extension_queries + num_domain_queries) <= trace_domain_size
}

/// Check the Lagrange-quotient hiding capacity from ePrint 2024/1037,
/// Equations (16) and (17), under this implementation's choice
/// `h = h_p = |H|`.
///
/// `num_extension_queries` is `n_F`, `num_domain_queries` is `n_D`, and
/// `extension_degree` is `e = [F : F_p]`. Arithmetic overflow fails closed.
pub fn lagrange_quotient_hiding_query_bounds_are_satisfied(
    trace_domain_size: usize,
    extension_degree: usize,
    num_extension_queries: usize,
    num_domain_queries: usize,
) -> (r: bool)
    ensures
        r == query_bounds_hold(
            trace_domain_size as nat,
            extension_degree as nat,
            num_extension_queries as nat,
            num_domain_queries as nat,
        ),
{
    let quotient_queries: usize = match num_extension_queries.checked_add(num_domain_queries) {
        Some(sum) => sum,
        None => {
            return false;
        },
    };
    proof {
        lemma_mul_nonnegative(extension_degree as int, num_extension_queries as int);
    }
    let extension_coordinates: usize = match extension_degree.checked_mul(num_extension_queries) {
        Some(product) => product,
        None => {
            return false;
        },
    };
    let weighted_queries: usize = match extension_coordinates.checked_add(num_domain_queries) {
        Some(sum) => sum,
        None => {
            return false;
        },
    };
    let required_witness_freedom: usize = match weighted_queries.checked_mul(2) {
        Some(product) => product,
        None => {
            return false;
        },
    };
    quotient_queries <= trace_domain_size && required_witness_freedom <= trace_domain_size
}

/// A smaller trace domain, a larger extension or more queries never make the bounds hold.
pub proof fn law_query_bounds_are_monotone(
    trace_domain_size: nat,
    extension_degree: nat,
    num_extension_queries: nat,
    num_domain_queries: nat,
    larger_trace_domain_size: nat,
    smaller_extension_degree: nat,
    fewer_extension_queries: nat,
    fewer_domain_queries: nat,
)
    requires
        query_bounds_hold(
            trace_domain_size,
            extension_degree,
            num_extension_queries,
            num_domain_queries,
        ),
        trace_domain_size <= larger_trace_domain_size,
        smaller_extension_degree <= extension_degree,
        fewer_extension_queries <= num_extension_queries,
        fewer_domain_queries <= num_domain_queries,
    ensures
        query_bounds_hold(
            larger_trace_domain_size,
            smaller_extension_degree,
            fewer_extension_queries,
            fewer_domain_queries,
        ),
{
    lemma_mul_upper_bound(
        smaller_extension_degree as int,
        extension_degree as int,
        fewer_extension_queries as int,
        num_extension_queries as int,
    );
}

/// Every trace domain has room for no queries at all.
pub proof fn law_no_queries_fit_everywhere(
    trace_domain_size: usize,
    extension_degree: usize,
    answer: bool,
)
    requires
        call_ensures(
            lagrange_quotient_hiding_query_bounds_are_satisfied,
            (trace_domain_size, extension_degree, 0usize, 0usize),
            answer,
        ),
    ensures
        answer,
{
    assert(extension_degree * 0 == 0);
}

/// An extension field query takes two base field values for each of its `e` coordinates: with one
/// more of them a trace domain is accepted exactly where it has `2 e` points, and a domain of `2 e`
/// points less is accepted without it.
pub proof fn law_an_extension_query_takes_two_values_per_coordinate(
    trace_domain_size: usize,
    extension_degree: usize,
    num_extension_queries: usize,
    num_domain_queries: usize,
    with_one_more: bool,
    with_less_room: bool,
)
    requires
        extension_degree >= 1,
        num_extension_queries < usize::MAX,
        call_ensures(
            lagrange_quotient_hiding_query_bounds_are_satisfied,
            (
                trace_domain_size,
                extension_degree,
                (num_extension_queries + 1) as usize,
                num_domain_queries,
            ),
            with_one_more,
        ),
        2 * extension_degree <= trace_domain_size ==> call_ensures(
            lagrange_quotient_hiding_query_bounds_are_satisfied,
            (
                (trace_domain_size - 2 * extension_degree) as usize,
                extension_degree,
                num_extension_queries,
                num_domain_queries,
            ),
            with_less_room,
        ),
    ensures
        with_one_more <==> 2 * extension_degree <= trace_domain_size && with_less_room,
{
    let (e, f) = (extension_degree as int, num_extension_queries as int);
    assert(e * (f + 1) == e * f + e && f <= e * f) by (nonlinear_arith)
        requires
            e >= 1,
            f >= 0,
    ;
}

/// A query of the evaluation domain takes two base field values: with one more of them a trace
/// domain is accepted exactly where it has two points, and a domain of two points less is accepted
/// without it.
pub proof fn law_a_domain_query_takes_two_values(
    trace_domain_size: usize,
    extension_degree: usize,
    num_extension_queries: usize,
    num_domain_queries: usize,
    with_one_more: bool,
    with_less_room: bool,
)
    requires
        extension_degree >= 1,
        num_domain_queries < usize::MAX,
        call_ensures(
            lagrange_quotient_hiding_query_bounds_are_satisfied,
            (
                trace_domain_size,
                extension_degree,
                num_extension_queries,
                (num_domain_queries + 1) as usize,
            ),
            with_one_more,
        ),
        2 <= trace_domain_size ==> call_ensures(
            lagrange_quotient_hiding_query_bounds_are_satisfied,
            (
                (trace_domain_size - 2) as usize,
                extension_degree,
                num_extension_queries,
                num_domain_queries,
            ),
            with_less_room,
        ),
    ensures
        with_one_more <==> 2 <= trace_domain_size && with_less_room,
{
    let (e, f) = (extension_degree as int, num_extension_queries as int);
    assert(f <= e * f) by (nonlinear_arith)
        requires
            e >= 1,
            f >= 0,
    ;
}

/// Where the bounds hold, the quotient randomizers have a coefficient for every query, whatever the
/// extension degree. Over an extension of degree zero that and twice the domain queries is all.
pub proof fn law_every_query_has_a_quotient_coefficient(
    trace_domain_size: usize,
    extension_degree: usize,
    num_extension_queries: usize,
    num_domain_queries: usize,
    answer: bool,
)
    requires
        call_ensures(
            lagrange_quotient_hiding_query_bounds_are_satisfied,
            (trace_domain_size, extension_degree, num_extension_queries, num_domain_queries),
            answer,
        ),
    ensures
        answer ==> num_extension_queries + num_domain_queries <= trace_domain_size,
        extension_degree == 0 ==> (answer <==> num_extension_queries + num_domain_queries
            <= trace_domain_size && num_domain_queries + num_domain_queries <= trace_domain_size),
{
    assert(0 * num_extension_queries == 0) by (nonlinear_arith);
}

/// The scheme asks for room for its own FRI queries besides the given extension field queries.
pub proof fn law_a_scheme_counts_its_own_queries(
    pcs: HidingFriPcs,
    trace_domain_size: usize,
    extension_degree: usize,
    num_extension_queries: usize,
    answer: bool,
    direct: bool,
)
    requires
        call_ensures(
            HidingFriPcs::zk_query_bounds_are_satisfied,
            (&pcs, trace_domain_size, extension_degree, num_extension_queries),
            answer,
        ),
        call_ensures(
            lagrange_quotient_hiding_query_bounds_are_satisfied,
            (trace_domain_size, extension_degree, num_extension_queries, pcs.fri.num_queries),
            direct,
        ),
    ensures
        answer == direct,
{
}

/// A randomized chunk has room for the chunk and its randomizer, and the source's bound on the final
/// one for as many sizes more as there are chunks. A report is given exactly where there are two
/// chunks or more, none empty, and that bound fits the word.
pub proof fn law_degree_report_counts_chunk_sizes(
    size: usize,
    count: usize,
    result: Option<LagrangeQuotientHidingDegreeReport>,
)
    requires
        call_ensures(lagrange_quotient_hiding_degree_report, (size, count), result),
    ensures
        result is Some <==> size >= 1 && count >= 2 && (count + 2) * size <= usize::MAX,
        result matches Some(report) ==> {
            &&& report.quotient_chunk_domain_size == size
            &&& report.quotient_chunk_count == count
            &&& report.quotient_randomizer_coefficients_per_column == size
            &&& report.implemented_randomized_chunk_degree_bound_exclusive
                == report.quotient_chunk_domain_size
                + report.quotient_randomizer_coefficients_per_column
            &&& report.source_nonfinal_chunk_degree_bound_exclusive
                == report.implemented_randomized_chunk_degree_bound_exclusive
            &&& report.source_final_chunk_degree_bound_exclusive
                == report.source_nonfinal_chunk_degree_bound_exclusive + count * size
        },
{
    let (s, c) = (size as int, count as int);
    assert(s + (c + 1) * s == (c + 2) * s && (c + 2) * s == 2 * s + c * s) by (nonlinear_arith);
}

/// The random values of a partition: a single chunk takes its random columns and no randomizer, and
/// each further chunk takes its random columns and a randomizer with a value for each of its entries,
/// random columns included.
pub proof fn law_each_further_chunk_takes_columns_and_a_randomizer(
    count: nat,
    size: nat,
    width: nat,
    codewords: nat,
)
    ensures
        quotient_random_values(1, size, width, codewords) == size * codewords,
        quotient_random_values(count + 1, size, width, codewords) == quotient_random_values(
            count,
            size,
            width,
            codewords,
        ) + size * (width + 2 * codewords),
{
    let (columns, entries) = ((size * codewords) as int, (size * (width + codewords)) as int);
    let c = count as int;
    assert(1 * columns + (1 - 1) * entries == columns) by (nonlinear_arith);
    assert((c + 1) * columns + (c + 1 - 1) * entries == c * columns + (c - 1) * entries + columns
        + entries) by (nonlinear_arith);
    assert(columns + entries == size * (width + 2 * codewords)) by (nonlinear_arith)
        requires
            columns == size * codewords,
            entries == size * (width + codewords),
    ;
}

/// Which partitions are booked: those of two chunks or more, as many as announced, all of one height
/// and width, not empty, and small enough that `(d + 2) h` fits the word. Of several reasons against
/// it the first is given: too few, another number, other shapes, degrees.
pub proof fn law_partitions_are_booked_by_their_shape<F>(
    chunks: Seq<(Coset<F>, RowMajorMatrix<F>)>,
    num_chunks: nat,
)
    ensures
        ({
            let alike = forall|i: int, j: int|
                0 <= i < chunks.len() && 0 <= j < chunks.len() ==> (#[trigger] chunks[i]).1.height
                    == (#[trigger] chunks[j]).1.height && chunks[i].1.width == chunks[j].1.width;
            let height = chunks[0].1.height;
            let fits = height >= 1 && (num_chunks + 2) * height <= usize::MAX;
            let failure = booking_failure(chunks, num_chunks);
            &&& failure == Some(QuotientError::TooFewChunks) <==> num_chunks < 2
            &&& failure == Some(QuotientError::ChunkCountMismatch) <==> num_chunks >= 2
                && chunks.len() != num_chunks
            &&& failure == Some(QuotientError::UnequalShapes) <==> num_chunks >= 2 && chunks.len()
                == num_chunks && !alike
            &&& failure == Some(QuotientError::DegreesNotBookable) <==> num_chunks >= 2
                && chunks.len() == num_chunks && alike && !fits
            &&& failure is None <==> num_chunks >= 2 && chunks.len() == num_chunks && alike && fits
            &&& booking(chunks, num_chunks) is Some <==> failure is None
            &&& booking(chunks, num_chunks) matches Some(shape) ==> shape.0 == height && shape.1
                == num_chunks
        }),
{
    let alike = forall|i: int, j: int|
        0 <= i < chunks.len() && 0 <= j < chunks.len() ==> (#[trigger] chunks[i]).1.height
            == (#[trigger] chunks[j]).1.height && chunks[i].1.width == chunks[j].1.width;
    if chunks.len() >= 2 {
        let first = chunks[0];
        if alike {
            assert forall|i: int| 0 <= i < chunks.len() implies (#[trigger] chunks[i]).1.height
                == chunks[0].1.height && chunks[i].1.width == chunks[0].1.width by {
                assert(chunks[i].1.height == first.1.height);
            }
        }
        assert(chunks_have_one_shape(chunks) <==> alike);
        let (c, h) = (num_chunks as int, chunks[0].1.height as int);
        assert(h + (c + 1) * h == (c + 2) * h) by (nonlinear_arith);
    }
}

/// Exact degree bookkeeping for the Lagrange-quotient hiding construction.
///
/// This report binds the implementation choice `h_p = |H_i|` to the quotient degree
/// ranges in ePrint 2024/1037, Section 4.2. Every quotient chunk is interpolated
/// from `|H_i|` values, so it starts in `F[X]^{<|H_i|}`. Each nonfinal quotient randomizer
/// is represented by `|H_i|` values drawn from `R`; multiplication by the coset vanishing
/// polynomial gives an implemented randomized-chunk bound of `<2|H_i|`. The report describes
/// only degree and shape, not the source paper's independent-uniform sampling assumption.
///
/// The source permits the final component to have degree below
/// `|H| + max((d + 1)h, h_p)`, which is at least the implementation's `<2|H|`
/// bound when `d > 1`. Arithmetic overflow and invalid shapes return `None`.
#[derive(Clone, Copy, Debug, Eq, PartialEq)]
pub struct LagrangeQuotientHidingDegreeReport {
    pub quotient_chunk_domain_size: usize,
    pub quotient_chunk_count: usize,
    pub quotient_randomizer_coefficients_per_column: usize,
    pub implemented_randomized_chunk_degree_bound_exclusive: usize,
    pub source_nonfinal_chunk_degree_bound_exclusive: usize,
    pub source_final_chunk_degree_bound_exclusive: usize,
}

impl LagrangeQuotientHidingDegreeReport {
    /// The report of `count` chunks of `size` values: chunks below degree `2 size`, the source's
    /// final one below `size + (count + 1) size`.
    pub open spec fn describes(self, size: nat, count: nat) -> bool {
        &&& self.quotient_chunk_domain_size == size
        &&& self.quotient_chunk_count == count
        &&& self.quotient_randomizer_coefficients_per_column == size
        &&& self.implemented_randomized_chunk_degree_bound_exclusive == 2 * size
        &&& self.source_nonfinal_chunk_degree_bound_exclusive == size + size
        &&& self.source_final_chunk_degree_bound_exclusive == size + (count + 1) * size
    }
}

/// There is more than one chunk, none is empty, and the source's bound on the final one fits a
/// word.
pub open spec fn quotient_degrees_are_bookable(size: nat, count: nat) -> bool {
    &&& size > 0
    &&& count > 1
    &&& size + (count + 1) * size <= usize::MAX
}

/// The degree report of `quotient_chunk_count` chunks of `quotient_chunk_domain_size` values, or
/// nothing where the shape is invalid or a bound exceeds the word.
pub fn lagrange_quotient_hiding_degree_report(
    quotient_chunk_domain_size: usize,
    quotient_chunk_count: usize,
) -> (r: Option<LagrangeQuotientHidingDegreeReport>)
    ensures
        r is Some <==> quotient_degrees_are_bookable(
            quotient_chunk_domain_size as nat,
            quotient_chunk_count as nat,
        ),
        r is Some ==> r->0.describes(
            quotient_chunk_domain_size as nat,
            quotient_chunk_count as nat,
        ),
{
    if quotient_chunk_domain_size == 0 || quotient_chunk_count <= 1 {
        return None;
    }
    proof {
        lemma_mul_inequality(3, quotient_chunk_count + 1, quotient_chunk_domain_size as int);
        lemma_mul_inequality(1, quotient_chunk_domain_size as int, quotient_chunk_count + 1);
        lemma_mul_is_commutative(quotient_chunk_domain_size as int, quotient_chunk_count + 1);
    }
    let implemented_randomized_chunk_degree_bound_exclusive: usize =
        quotient_chunk_domain_size.checked_mul(2)?;
    let source_nonfinal_chunk_degree_bound_exclusive: usize =
        quotient_chunk_domain_size.checked_add(quotient_chunk_domain_size)?;
    let source_final_extra: usize = quotient_chunk_count.checked_add(1)?.checked_mul(
        quotient_chunk_domain_size,
    )?;
    let source_final_chunk_degree_bound_exclusive: usize = quotient_chunk_domain_size.checked_add(
        source_final_extra,
    )?;
    Some(
        LagrangeQuotientHidingDegreeReport {
            quotient_chunk_domain_size,
            quotient_chunk_count,
            quotient_randomizer_coefficients_per_column: quotient_chunk_domain_size,
            implemented_randomized_chunk_degree_bound_exclusive,
            source_nonfinal_chunk_degree_bound_exclusive,
            source_final_chunk_degree_bound_exclusive,
        },
    )
}

/// The implemented chunks meet the source's bound for all but the final chunk exactly, and stay
/// below its bound for the final one.
pub proof fn law_implemented_chunks_stay_in_the_source_degree_regime(
    report: LagrangeQuotientHidingDegreeReport,
    size: nat,
    count: nat,
)
    requires
        quotient_degrees_are_bookable(size, count),
        report.describes(size, count),
    ensures
        report.implemented_randomized_chunk_degree_bound_exclusive
            == report.source_nonfinal_chunk_degree_bound_exclusive,
        report.implemented_randomized_chunk_degree_bound_exclusive
            <= report.source_final_chunk_degree_bound_exclusive,
{
    lemma_mul_inequality(1, (count + 1) as int, size as int);
}

/// The parameters of the FRI protocol that the hiding scheme reads.
#[derive(Clone, Copy, Debug, PartialEq, Eq)]
pub struct FriParameters {
    /// The logarithm of the blowup factor.
    pub log_blowup: usize,
    /// How many points of the domain a proof is queried at.
    pub num_queries: usize,
}

/// A hiding FRI PCS: what it adds to a plain one.
///
/// It appends random codewords to every committed matrix, randomizes quotient chunks, and keeps a
/// record of the degrees of the chunks that it randomized. The random values come from its caller,
/// who is responsible for drawing them from sufficient entropy.
#[derive(Debug)]
pub struct HidingFriPcs {
    pub fri: FriParameters,
    pub num_random_codewords: usize,
    pub quotient_degree_reports: Vec<LagrangeQuotientHidingDegreeReport>,
}

/// Why quotient chunks cannot be randomized.
#[derive(Clone, Copy, Debug, PartialEq, Eq)]
pub enum QuotientError {
    /// There must be more than one chunk to preserve hiding.
    TooFewChunks,
    /// The number of chunks must match the quotient partition.
    ChunkCountMismatch,
    /// All hiding quotient chunks must have one common shape.
    UnequalShapes,
    /// The quotient degree bookkeeping must be valid and fit the word.
    DegreesNotBookable,
    /// The quotient domains must be disjoint.
    OverlappingDomains,
    /// The quotient width, random codewords included, must fit the word.
    WidthOverflow,
    /// The quotient randomizer size must fit the word.
    RandomizerSizeOverflow,
    /// The quotient randomizer allocation must fit the word.
    RandomizerAllocationOverflow,
    /// The size of a chunk's domain must be the height of the chunk.
    DomainSizeMismatch,
    /// The quotient LDE height must fit the word and the field.
    LdeHeightOverflow,
    /// The quotient LDE allocation must fit the word.
    LdeAllocationOverflow,
    /// There are not as many random values as the randomization takes.
    RandomValueCountMismatch,
}

/// The domains of quotient chunks.
pub open spec fn chunk_domains<F>(chunks: Seq<(Coset<F>, RowMajorMatrix<F>)>) -> Seq<Coset<F>> {
    Seq::new(chunks.len(), |i: int| chunks[i].0)
}

/// The chunks are well-formed matrices of field elements on well-formed domains.
pub open spec fn chunks_are_valid<F: TwoAdicField>(
    chunks: Seq<(Coset<F>, RowMajorMatrix<F>)>,
) -> bool {
    forall|i: int|
        0 <= i < chunks.len() ==> (#[trigger] chunks[i]).0.well_formed() && chunks[i].1.well_formed()
            && all_valid(chunks[i].1.values@)
}

/// All chunks have the shape of the first.
pub open spec fn chunks_have_one_shape<F>(chunks: Seq<(Coset<F>, RowMajorMatrix<F>)>) -> bool {
    forall|i: int|
        0 <= i < chunks.len() ==> (#[trigger] chunks[i]).1.height == chunks[0].1.height
            && chunks[i].1.width == chunks[0].1.width
}

/// Every chunk has as many rows as its domain has points.
pub open spec fn chunks_fill_their_domains<F>(chunks: Seq<(Coset<F>, RowMajorMatrix<F>)>) -> bool {
    forall|i: int| 0 <= i < chunks.len() ==> (#[trigger] chunks[i]).0.size == chunks[i].1.height
}

/// How many random values the randomization of `count` chunks takes: the random columns of all
/// chunks, and the randomizers of all but the last.
pub open spec fn quotient_random_values(count: nat, size: nat, width: nat, codewords: nat) -> int {
    count * (size * codewords) + (count - 1) * (size * (width + codewords))
}

/// Why the degrees of the chunks are not booked, if they are not.
pub open spec fn booking_failure<F>(
    chunks: Seq<(Coset<F>, RowMajorMatrix<F>)>,
    num_chunks: nat,
) -> Option<QuotientError> {
    if num_chunks <= 1 {
        Some(QuotientError::TooFewChunks)
    } else if chunks.len() != num_chunks {
        Some(QuotientError::ChunkCountMismatch)
    } else if !chunks_have_one_shape(chunks) {
        Some(QuotientError::UnequalShapes)
    } else if !quotient_degrees_are_bookable(chunks[0].1.height as nat, num_chunks) {
        Some(QuotientError::DegreesNotBookable)
    } else {
        None
    }
}

/// The height and the number of the chunks, where their degrees are booked.
pub open spec fn booking<F>(
    chunks: Seq<(Coset<F>, RowMajorMatrix<F>)>,
    num_chunks: nat,
) -> Option<(nat, nat)> {
    if booking_failure(chunks, num_chunks) is None {
        Some((chunks[0].1.height as nat, num_chunks))
    } else {
        None
    }
}

/// The heights and numbers of chunks that a sequence of calls booked, in order.
pub open spec fn booked<T>(calls: Seq<Option<T>>) -> Seq<T>
    decreases calls.len(),
{
    if calls.len() == 0 {
        Seq::empty()
    } else {
        match calls.last() {
            Some(shape) => booked(calls.drop_last()).push(shape),
            None => booked(calls.drop_last()),
        }
    }
}

/// Why chunks whose degrees are booked are not randomized, if they are not.
pub open spec fn randomization_failure<F: TwoAdicField>(
    chunks: Seq<(Coset<F>, RowMajorMatrix<F>)>,
    codewords: nat,
    log_blowup: nat,
    random_value_count: nat,
) -> Option<QuotientError> {
    let count = chunks.len();
    let size = chunks[0].1.height as nat;
    let width = chunks[0].1.width as nat + codewords;
    let lde_height = size * pow2(log_blowup + 1);
    if !selectors_exist(chunk_domains(chunks)) {
        Some(QuotientError::OverlappingDomains)
    } else if width > usize::MAX {
        Some(QuotientError::WidthOverflow)
    } else if size * width > usize::MAX {
        Some(QuotientError::RandomizerSizeOverflow)
    } else if count * (size * width) > usize::MAX {
        Some(QuotientError::RandomizerAllocationOverflow)
    } else if !chunks_fill_their_domains(chunks) {
        Some(QuotientError::DomainSizeMismatch)
    } else if lde_height > usize::MAX || lde_height > F::max_order() {
        Some(QuotientError::LdeHeightOverflow)
    } else if lde_height * width > usize::MAX {
        Some(QuotientError::LdeAllocationOverflow)
    } else if random_value_count != quotient_random_values(
        count,
        size,
        chunks[0].1.width as nat,
        codewords,
    ) {
        Some(QuotientError::RandomValueCountMismatch)
    } else {
        None
    }
}

/// What a booked partition needs to be randomized: disjoint domains, randomizers that can be counted,
/// chunks as large as their domains, extensions that the field has a domain for and that can be
/// counted, and a random value for each random column's entry of all chunks and for each entry of all
/// chunks but the last. Of several reasons against it the first, in that order, is given.
pub proof fn law_randomization_needs_room_and_random_values<F: TwoAdicField>(
    chunks: Seq<(Coset<F>, RowMajorMatrix<F>)>,
    codewords: nat,
    log_blowup: nat,
    random_value_count: nat,
)
    requires
        chunks.len() >= 1,
        chunks[0].1.height >= 1,
    ensures
        ({
            let failure = randomization_failure(chunks, codewords, log_blowup, random_value_count);
            let (n, h) = (chunks.len(), chunks[0].1.height as nat);
            let w = chunks[0].1.width as nat + codewords;
            let extended = 2 * h * pow2(log_blowup);
            let fill = forall|i: int|
                0 <= i < n ==> (#[trigger] chunks[i]).1.height == chunks[i].0.size;
            let disjoint = selectors_exist(chunk_domains(chunks));
            let counted = disjoint && w <= usize::MAX && n * (h * w) <= usize::MAX;
            &&& failure is None <==> {
                &&& selectors_exist(chunk_domains(chunks))
                &&& fill
                &&& w <= usize::MAX && n * (h * w) <= usize::MAX
                &&& extended <= F::max_order() && extended * w <= usize::MAX
                &&& random_value_count + h * w == n * (h * codewords) + n * (h * w)
            }
            &&& match failure {
                Some(QuotientError::OverlappingDomains) => !disjoint,
                Some(QuotientError::WidthOverflow) => disjoint && w > usize::MAX,
                Some(QuotientError::RandomizerSizeOverflow) => disjoint && w <= usize::MAX && h * w
                    > usize::MAX,
                Some(QuotientError::RandomizerAllocationOverflow) => disjoint && w <= usize::MAX && h
                    * w <= usize::MAX && n * (h * w) > usize::MAX,
                Some(QuotientError::DomainSizeMismatch) => counted && !fill,
                Some(QuotientError::LdeHeightOverflow) => counted && fill && (extended > usize::MAX
                    || extended > F::max_order()),
                Some(QuotientError::LdeAllocationOverflow) => counted && fill && extended
                    <= F::max_order() && extended * w > usize::MAX,
                Some(QuotientError::RandomValueCountMismatch) => counted && fill && extended
                    <= F::max_order() && extended * w <= usize::MAX && random_value_count + h * w != n
                    * (h * codewords) + n * (h * w),
                Some(_) => false,
                None => true,
            }
        }),
{
    let (n, h) = (chunks.len() as int, chunks[0].1.height as int);
    let w = chunks[0].1.width + codewords;
    lemma_pow2_unfold(log_blowup + 1);
    let p = pow2(log_blowup) as int;
    assert(h * (2 * p) == 2 * h * p) by (nonlinear_arith);
    let per = h * w;
    assert((n - 1) * per + per == n * per && 0 <= per && per <= n * per) by (nonlinear_arith)
        requires
            n >= 1,
            per == h * w,
            h >= 0,
            w >= 0,
    ;
    lemma_pow2_pos(log_blowup);
    let fill = forall|i: int| 0 <= i < n ==> (#[trigger] chunks[i]).1.height == chunks[i].0.size;
    assert(chunks_fill_their_domains(chunks) <==> fill);
}

/// The random columns that chunk `i` gets: the random values begin with those of all chunks.
pub open spec fn chunk_columns<F>(drawn: Seq<F>, size: nat, codewords: nat, i: int) -> Seq<F> {
    drawn.subrange(i * (size * codewords), (i + 1) * (size * codewords))
}

/// The randomizers `t_i` of all chunks: all but the last as drawn, the last one such that, weighted
/// by the selector normalizers of the chunks, they sum to zero.
pub open spec fn are_balanced_randomizers<F: TwoAdicField>(
    randomizers: Seq<F>,
    normalizers: Seq<F>,
    chunks: Seq<(Coset<F>, RowMajorMatrix<F>)>,
    codewords: nat,
    drawn: Seq<F>,
) -> bool {
    let count = chunks.len();
    let size = chunks[0].1.height as nat;
    let per_chunk = size * (chunks[0].1.width as nat + codewords);
    &&& normalizes(normalizers, chunk_domains(chunks))
    &&& randomizers.len() == count * per_chunk
    &&& all_valid(randomizers)
    &&& randomizers.take((count - 1) * per_chunk) == drawn.skip(
        (count * (size * codewords)) as int,
    )
    &&& forall|position: int|
        0 <= position < per_chunk ==> dot(
            normalizers,
            #[trigger] across_chunks(randomizers, per_chunk, position, count),
            count,
        ) == F::zero_value()
}

/// `ldes` are the low-degree extensions, of height `2^log_height`, of the chunks `q_i + Z_i t_i`.
pub open spec fn are_randomized_ldes<F: TwoAdicField>(
    ldes: Seq<RowMajorMatrix<F>>,
    log_height: nat,
    chunks: Seq<(Coset<F>, RowMajorMatrix<F>)>,
    codewords: nat,
    drawn: Seq<F>,
    randomizers: Seq<F>,
) -> bool {
    let size = chunks[0].1.height as nat;
    let per_chunk = size * (chunks[0].1.width as nat + codewords);
    &&& ldes.len() == chunks.len()
    &&& forall|i: int|
        0 <= i < chunks.len() ==> is_randomized_lde(
            #[trigger] ldes[i],
            log_height,
            chunks[i].0,
            chunks[i].1,
            chunk_columns(drawn, size, codewords, i),
            codewords,
            randomizers,
            i * per_chunk,
        )
}

/// `ldes` are the low-degree extensions, by twice the blowup, of the chunks randomized with
/// balanced randomizers.
pub open spec fn is_randomized_quotient<F: TwoAdicField>(
    ldes: Seq<RowMajorMatrix<F>>,
    chunks: Seq<(Coset<F>, RowMajorMatrix<F>)>,
    codewords: nat,
    log_blowup: nat,
    drawn: Seq<F>,
) -> bool {
    exists|normalizers: Seq<F>, randomizers: Seq<F>, log_height: nat|
        {
            &&& #[trigger] are_balanced_randomizers(
                randomizers,
                normalizers,
                chunks,
                codewords,
                drawn,
            )
            &&& pow2(log_height) == chunks[0].1.height as nat * pow2(log_blowup + 1)
            &&& #[trigger] are_randomized_ldes(
                ldes,
                log_height,
                chunks,
                codewords,
                drawn,
                randomizers,
            )
        }
}

/// What a quotient partition measures once its degrees are booked.
struct QuotientMeasures<F> {
    normalizers: Vec<F>,
    columns_per_chunk: usize,
    values_per_chunk: usize,
    total_columns: usize,
    lde_height: usize,
    log_height: usize,
}

impl HidingFriPcs {
    /// The record holds the reports of the given heights and numbers of chunks, in order.
    pub open spec fn records(self, shapes: Seq<(nat, nat)>) -> bool {
        &&& self.quotient_degree_reports@.len() == shapes.len()
        &&& forall|i: int|
            0 <= i < shapes.len() ==> (#[trigger] self.quotient_degree_reports@[i]).describes(
                shapes[i].0,
                shapes[i].1,
            )
    }

    /// What a call makes of the scheme: the parameters stay, and the record gets the report of the
    /// height and number of chunks that the call booked, if it booked any.
    pub open spec fn follows(self, before: Self, call: Option<(nat, nat)>) -> bool {
        &&& self.fri == before.fri
        &&& self.num_random_codewords == before.num_random_codewords
        &&& match call {
            Some((size, count)) => {
                &&& self.quotient_degree_reports@.len() == before.quotient_degree_reports@.len() + 1
                &&& self.quotient_degree_reports@.drop_last() == before.quotient_degree_reports@
                &&& self.quotient_degree_reports@.last().describes(size, count)
            },
            None => self.quotient_degree_reports@ == before.quotient_degree_reports@,
        }
    }

    /// The scheme with the given parameters, which has not randomized a quotient yet.
    pub fn new(params: FriParameters, num_random_codewords: usize) -> (r: Self)
        ensures
            r.fri == params,
            r.num_random_codewords == num_random_codewords,
            r.records(Seq::empty()),
    {
        HidingFriPcs { fri: params, num_random_codewords, quotient_degree_reports: Vec::new() }
    }

    /// Return the degree reports recorded by actual quotient-randomization calls.
    ///
    /// This is execution evidence for the concrete chunk sizes and counts seen by this PCS. It
    /// does not attest to the RNG's seed source or establish the source paper's simulator claim.
    pub fn quotient_degree_reports(&self) -> (r: Vec<LagrangeQuotientHidingDegreeReport>)
        ensures
            r@ == self.quotient_degree_reports@,
    {
        copy_slice(self.quotient_degree_reports.as_slice())
    }

    /// Whether a trace domain of this size can hide the given number of extension field queries
    /// besides the FRI queries.
    pub fn zk_query_bounds_are_satisfied(
        &self,
        trace_domain_size: usize,
        extension_degree: usize,
        num_extension_queries: usize,
    ) -> (r: bool)
        ensures
            r == query_bounds_hold(
                trace_domain_size as nat,
                extension_degree as nat,
                num_extension_queries as nat,
                self.fri.num_queries as nat,
            ),
    {
        lagrange_quotient_hiding_query_bounds_are_satisfied(
            trace_domain_size,
            extension_degree,
            num_extension_queries,
            self.fri.num_queries,
        )
    }

    /// The matrix that is committed to for a trace: the trace interleaved with random rows, with
    /// random codewords on the right.
    pub fn randomize_trace<T: Copy>(
        &self,
        domain_size: usize,
        trace: &RowMajorMatrix<T>,
        random_values: &[T],
    ) -> (r: Result<RowMajorMatrix<T>, TraceError>)
        requires
            trace.well_formed(),
        ensures
            r matches Err(error) ==> trace_failure(
                domain_size as nat,
                trace.height as nat,
                trace.width as nat,
                self.num_random_codewords as nat,
                random_values@.len(),
            ) == Some(error),
            r matches Ok(randomized) ==> trace_failure(
                domain_size as nat,
                trace.height as nat,
                trace.width as nat,
                self.num_random_codewords as nat,
                random_values@.len(),
            ) is None && is_randomized_trace(
                randomized,
                *trace,
                self.num_random_codewords as nat,
                random_values@,
            ),
    {
        randomize_trace(domain_size, trace, self.num_random_codewords, random_values)
    }

    /// Checks the quotient partition and gives the degree report of its randomization.
    fn book_quotient<F: TwoAdicField>(
        chunks: &[(Coset<F>, RowMajorMatrix<F>)],
        num_chunks: usize,
    ) -> (r: Result<LagrangeQuotientHidingDegreeReport, QuotientError>)
        ensures
            r matches Err(error) ==> booking_failure(chunks@, num_chunks as nat) == Some(error),
            r matches Ok(report) ==> booking_failure(chunks@, num_chunks as nat) is None
                && report.describes(chunks@[0].1.height as nat, num_chunks as nat),
    {
        if num_chunks <= 1 {
            return Err(QuotientError::TooFewChunks);
        }
        let count: usize = chunks.len();
        if count != num_chunks {
            return Err(QuotientError::ChunkCountMismatch);
        }
        let height: usize = chunks[0].1.height;
        let width: usize = chunks[0].1.width;
        let mut i: usize = 0;
        while i < count
            invariant
                i <= count,
                count == chunks@.len(),
                count == num_chunks,
                count > 1,
                height == chunks@[0].1.height,
                width == chunks@[0].1.width,
                forall|j: int|
                    0 <= j < i ==> (#[trigger] chunks@[j]).1.height == height && chunks@[j].1.width
                        == width,
            decreases count - i,
        {
            if chunks[i].1.height != height || chunks[i].1.width != width {
                assert(!chunks_have_one_shape(chunks@)) by {
                    let chunk = chunks@[i as int];
                    assert(chunk.1.height != chunks@[0].1.height || chunk.1.width
                        != chunks@[0].1.width);
                }
                return Err(QuotientError::UnequalShapes);
            }
            i = i + 1;
        }
        match lagrange_quotient_hiding_degree_report(height, num_chunks) {
            Some(report) => Ok(report),
            None => Err(QuotientError::DegreesNotBookable),
        }
    }

    /// Measures a quotient partition whose degrees are booked.
    fn measure_quotient<F: TwoAdicField>(
        &self,
        chunks: &[(Coset<F>, RowMajorMatrix<F>)],
        random_value_count: usize,
    ) -> (r: Result<QuotientMeasures<F>, QuotientError>)
        requires
            chunks_are_valid(chunks@),
            booking_failure(chunks@, chunks@.len()) is None,
        ensures
            r matches Err(error) ==> randomization_failure(
                chunks@,
                self.num_random_codewords as nat,
                self.fri.log_blowup as nat,
                random_value_count as nat,
            ) == Some(error),
            r matches Ok(measures) ==> {
                let size = chunks@[0].1.height as nat;
                let codewords = self.num_random_codewords as nat;
                let width = chunks@[0].1.width as nat + codewords;
                &&& randomization_failure(
                    chunks@,
                    codewords,
                    self.fri.log_blowup as nat,
                    random_value_count as nat,
                ) is None
                &&& normalizes(measures.normalizers@, chunk_domains(chunks@))
                &&& measures.columns_per_chunk == size * codewords
                &&& measures.values_per_chunk == size * width
                &&& measures.total_columns == chunks@.len() * (size * codewords)
                &&& measures.lde_height == size * pow2(self.fri.log_blowup as nat + 1)
                &&& measures.lde_height == pow2(measures.log_height as nat)
                &&& is_domain_size::<F>(measures.lde_height as nat)
                &&& 2 * size <= measures.lde_height
            },
    {
        let count: usize = chunks.len();
        let height: usize = chunks[0].1.height;
        let codewords: usize = self.num_random_codewords;
        let ghost size = height as nat;
        let domains: Vec<Coset<F>> = domains_of(chunks);
        let mut fill: bool = true;
        let mut i: usize = 0;
        while i < count
            invariant
                i <= count,
                count == chunks@.len(),
                fill == forall|j: int|
                    0 <= j < i ==> (#[trigger] chunks@[j]).0.size == chunks@[j].1.height,
            decreases count - i,
        {
            if chunks[i].0.size != chunks[i].1.height {
                fill = false;
            }
            i = i + 1;
        }
        let normalizers: Vec<F> = match quotient_chunk_selector_normalizers(domains.as_slice()) {
            Some(normalizers) => normalizers,
            None => {
                return Err(QuotientError::OverlappingDomains);
            },
        };
        let width: usize = match chunks[0].1.width.checked_add(codewords) {
            Some(width) => width,
            None => {
                return Err(QuotientError::WidthOverflow);
            },
        };
        let values_per_chunk: usize = match height.checked_mul(width) {
            Some(values) => values,
            None => {
                return Err(QuotientError::RandomizerSizeOverflow);
            },
        };
        let randomizer_count: usize = match count.checked_mul(values_per_chunk) {
            Some(values) => values,
            None => {
                return Err(QuotientError::RandomizerAllocationOverflow);
            },
        };
        proof {
            lemma_quotient_sizes(count as int, height as int, width as int, codewords as int);
        }
        let columns_per_chunk: usize = height * codewords;
        let total_columns: usize = count * columns_per_chunk;
        let sampled: usize = randomizer_count - values_per_chunk;
        if !fill {
            return Err(QuotientError::DomainSizeMismatch);
        }
        let ghost exponent = (self.fri.log_blowup + 1) as nat;
        proof {
            lemma_mul_inequality(1, height as int, pow2(exponent) as int);
            lemma_mul_is_commutative(pow2(exponent) as int, height as int);
        }
        let factor: usize = match two_blowups(self.fri.log_blowup) {
            Some(factor) => factor,
            None => {
                return Err(QuotientError::LdeHeightOverflow);
            },
        };
        let lde_height: usize = match height.checked_mul(factor) {
            Some(lde_height) => lde_height,
            None => {
                return Err(QuotientError::LdeHeightOverflow);
            },
        };
        if lde_height > F::order_limit() {
            return Err(QuotientError::LdeHeightOverflow);
        }
        if lde_height.checked_mul(width).is_none() {
            return Err(QuotientError::LdeAllocationOverflow);
        }
        if total_columns > random_value_count || random_value_count - total_columns != sampled {
            return Err(QuotientError::RandomValueCountMismatch);
        }
        proof {
            assert(chunks@[0].0.well_formed());
            assert(chunks@[0].0.size == chunks@[0].1.height);
            lemma_product_is_pow2(height as int, exponent);
            lemma_pow2_unfold(exponent);
            lemma_pow2_pos((exponent - 1) as nat);
            lemma_mul_inequality(2, factor as int, height as int);
            lemma_mul_is_commutative(factor as int, height as int);
        }
        let log_height: usize = exact_log2(lde_height);
        Ok(
            QuotientMeasures {
                normalizers,
                columns_per_chunk,
                values_per_chunk,
                total_columns,
                lde_height,
                log_height,
            },
        )
    }

    /// How many random values the randomization of a quotient partition takes. Nothing where its
    /// degrees are not booked, the domains overlap, or the number of the values, or that of the
    /// randomizers' coefficients, exceeds the word.
    pub fn quotient_random_value_count<F: TwoAdicField>(
        &self,
        chunks: &[(Coset<F>, RowMajorMatrix<F>)],
        num_chunks: usize,
    ) -> (r: Option<usize>)
        requires
            chunks_are_valid(chunks@),
        ensures
            r is Some <==> {
                &&& booking_failure(chunks@, num_chunks as nat) is None
                &&& selectors_exist(chunk_domains(chunks@))
                &&& chunks@[0].1.width + self.num_random_codewords <= usize::MAX
                &&& chunks@.len() * (chunks@[0].1.height * (chunks@[0].1.width
                    + self.num_random_codewords)) <= usize::MAX
                &&& quotient_random_values(
                    chunks@.len(),
                    chunks@[0].1.height as nat,
                    chunks@[0].1.width as nat,
                    self.num_random_codewords as nat,
                ) <= usize::MAX
            },
            r matches Some(count) ==> count == quotient_random_values(
                chunks@.len(),
                chunks@[0].1.height as nat,
                chunks@[0].1.width as nat,
                self.num_random_codewords as nat,
            ),
    {
        if Self::book_quotient(chunks, num_chunks).is_err() {
            return None;
        }
        if quotient_chunk_selector_normalizers(domains_of(chunks).as_slice()).is_none() {
            return None;
        }
        let count: usize = chunks.len();
        let height: usize = chunks[0].1.height;
        let codewords: usize = self.num_random_codewords;
        let width: usize = chunks[0].1.width.checked_add(codewords)?;
        proof {
            lemma_mul_nonnegative(height as int, width as int);
            lemma_mul_inequality(1, count as int, height * width);
        }
        let values_per_chunk: usize = height.checked_mul(width)?;
        let randomizers: usize = count.checked_mul(values_per_chunk)?;
        proof {
            lemma_quotient_sizes(count as int, height as int, width as int, codewords as int);
        }
        let columns: usize = count * (height * codewords);
        columns.checked_add(randomizers - values_per_chunk)
    }

    /// Get the quotient polynomial LDEs: the chunks of the quotient polynomial, randomized as
    /// explained in Section 4.2 of <https://eprint.iacr.org/2024/1037.pdf>, in bit-reversed order.
    ///
    /// `evaluations` holds the chunks, each with its domain, in standard order. `drawn` holds the
    /// random values in the order in which they are used: the random columns of each chunk, row by
    /// row, then the coefficients of the randomizer of each chunk but the last. A partition whose
    /// degrees could be booked is recorded even where a later check fails.
    pub fn get_quotient_ldes<F: TwoAdicField, D: CosetDft<F>>(
        &mut self,
        dft: &D,
        evaluations: &[(Coset<F>, RowMajorMatrix<F>)],
        num_chunks: usize,
        drawn: &[F],
    ) -> (r: Result<Vec<RowMajorMatrix<F>>, QuotientError>)
        requires
            chunks_are_valid(evaluations@),
            all_valid(drawn@),
        ensures
            final(self).follows(*old(self), booking(evaluations@, num_chunks as nat)),
            match booking_failure(evaluations@, num_chunks as nat) {
                Some(error) => r == Err::<Vec<RowMajorMatrix<F>>, QuotientError>(error),
                None => match randomization_failure(
                    evaluations@,
                    old(self).num_random_codewords as nat,
                    old(self).fri.log_blowup as nat,
                    drawn@.len(),
                ) {
                    Some(error) => r == Err::<Vec<RowMajorMatrix<F>>, QuotientError>(error),
                    None => r matches Ok(ldes) && is_randomized_quotient(
                        ldes@,
                        evaluations@,
                        old(self).num_random_codewords as nat,
                        old(self).fri.log_blowup as nat,
                        drawn@,
                    ),
                },
            },
    {
        let report: LagrangeQuotientHidingDegreeReport = match Self::book_quotient(
            evaluations,
            num_chunks,
        ) {
            Ok(report) => report,
            Err(error) => {
                return Err(error);
            },
        };
        self.quotient_degree_reports.push(report);
        assert(self.quotient_degree_reports@.drop_last() =~= old(self).quotient_degree_reports@);
        let measures: QuotientMeasures<F> = match self.measure_quotient(evaluations, drawn.len()) {
            Ok(measures) => measures,
            Err(error) => {
                return Err(error);
            },
        };
        let codewords: usize = self.num_random_codewords;
        proof {
            let first = evaluations@[0];
            assert(first.1.well_formed());
            lemma_mul_strictly_positive(first.1.height as int, first.1.width + codewords);
        }
        let randomizers: Vec<F> = balanced_randomizers(
            evaluations,
            codewords,
            &measures.normalizers,
            drawn,
            measures.total_columns,
            measures.values_per_chunk,
        );
        let ldes: Vec<RowMajorMatrix<F>> = randomized_ldes(
            dft,
            evaluations,
            codewords,
            drawn,
            &randomizers,
            measures.columns_per_chunk,
            measures.log_height,
            measures.lde_height,
        );
        assert(are_balanced_randomizers(
            randomizers@,
            measures.normalizers@,
            evaluations@,
            codewords as nat,
            drawn@,
        ));
        assert(is_randomized_quotient(
            ldes@,
            evaluations@,
            codewords as nat,
            self.fri.log_blowup as nat,
            drawn@,
        ));
        Ok(ldes)
    }

    /// Checks that the committed matrices have room for openings at the given points.
    ///
    /// A caller can request arbitrary extension field openings, so every distinct point counts as
    /// one extension field query. `heights` holds the LDE height of each matrix of each round.
    pub fn check_openings<E: Field>(
        &self,
        points: &Vec<Vec<Vec<E>>>,
        heights: &Vec<Vec<usize>>,
        extension_degree: usize,
    ) -> (r: Result<(), CapacityError>)
        requires
            points_are_valid(points@),
        ensures
            forall|distinct: Seq<E>|
                #[trigger] lists_opening_points(distinct, points@) ==> is_capacity_outcome(
                    r,
                    heights@,
                    self.fri.log_blowup as nat,
                    extension_degree as nat,
                    distinct.len(),
                    self.fri.num_queries as nat,
                ),
            exists|distinct: Seq<E>| #[trigger] lists_opening_points(distinct, points@),
    {
        let distinct: Vec<E> = distinct_opening_points(points);
        let count: usize = distinct.len();
        proof {
            assert(lists_opening_points(distinct@, points@));
            assert forall|other: Seq<E>| #[trigger] lists_opening_points(other, points@) implies other.len()
                == count by {
                lemma_lists_have_one_length(other, distinct@, points@);
            }
        }
        check_query_capacity(
            heights,
            self.fri.log_blowup,
            extension_degree,
            count,
            self.fri.num_queries,
        )
    }

    /// Splits off the opened values of the random codewords, which are to be hidden from the caller
    /// and travel in the proof. Nothing where a point has fewer values than there are codewords.
    pub fn split_opened_values<T: Copy>(
        &self,
        opened: &Openings<T>,
        is_preprocessing: bool,
        preprocessed_round: usize,
    ) -> (r: Option<(Openings<T>, Openings<T>)>)
        ensures
            r is Some <==> has_hidden(
                opened@,
                self.num_random_codewords as nat,
                is_preprocessing,
                preprocessed_round as nat,
            ),
            r matches Some(parts) ==> is_split(
                opened@,
                parts.0@,
                parts.1@,
                self.num_random_codewords as nat,
                is_preprocessing,
                preprocessed_round as nat,
            ),
    {
        split_opened_values(
            opened,
            self.num_random_codewords,
            is_preprocessing,
            preprocessed_round,
        )
    }

    /// The width of a committed matrix without its random codewords, or nothing where it has fewer
    /// columns than that.
    pub fn visible_width(&self, committed_width: usize) -> (r: Option<usize>)
        ensures
            r is Some <==> committed_width >= self.num_random_codewords,
            r matches Some(width) ==> width == committed_width - self.num_random_codewords,
    {
        committed_width.checked_sub(self.num_random_codewords)
    }

    /// The width of the randomization polynomial's matrix: one extension field element and the
    /// random codewords. Nothing where that exceeds the word.
    pub fn randomization_width(&self, extension_degree: usize) -> (r: Option<usize>)
        ensures
            r is Some <==> self.num_random_codewords + extension_degree <= usize::MAX,
            r matches Some(width) ==> width == self.num_random_codewords + extension_degree,
    {
        self.num_random_codewords.checked_add(extension_degree)
    }
}

/// The domains of quotient chunks.
fn domains_of<F: TwoAdicField>(chunks: &[(Coset<F>, RowMajorMatrix<F>)]) -> (r: Vec<Coset<F>>)
    requires
        chunks_are_valid(chunks@),
    ensures
        r@ == chunk_domains(chunks@),
        all_well_formed(r@),
{
    let count: usize = chunks.len();
    let mut domains: Vec<Coset<F>> = Vec::new();
    let mut i: usize = 0;
    while i < count
        invariant
            i <= count,
            count == chunks@.len(),
            chunks_are_valid(chunks@),
            domains@.len() == i,
            all_well_formed(domains@),
            forall|j: int| 0 <= j < i ==> #[trigger] domains@[j] == chunks@[j].0,
        decreases count - i,
    {
        assert(chunks@[i as int].0.well_formed());
        domains.push(chunks[i].0);
        i = i + 1;
    }
    assert(domains@ =~= chunk_domains(chunks@));
    domains
}

/// The number of random values that a scheme asks for is the number that it takes: with that many, a
/// partition is refused, if at all, for its domains' sizes or its extensions. Where it asks for none,
/// the partition is not booked, its domains overlap or its randomizers cannot be counted, or the
/// values themselves cannot.
pub proof fn law_a_scheme_asks_for_the_values_it_takes<F: TwoAdicField>(
    pcs: HidingFriPcs,
    chunks: &[(Coset<F>, RowMajorMatrix<F>)],
    num_chunks: usize,
    asked: Option<usize>,
)
    requires
        call_ensures(
            HidingFriPcs::quotient_random_value_count::<F>,
            (&pcs, chunks, num_chunks),
            asked,
        ),
    ensures
        asked matches Some(count) ==> booking_failure(chunks@, num_chunks as nat) is None && (
        randomization_failure(
            chunks@,
            pcs.num_random_codewords as nat,
            pcs.fri.log_blowup as nat,
            count as nat,
        ) matches Some(error) ==> error == QuotientError::DomainSizeMismatch || error
            == QuotientError::LdeHeightOverflow || error == QuotientError::LdeAllocationOverflow),
        asked is None && booking_failure(chunks@, num_chunks as nat) is None && selectors_exist(
            chunk_domains(chunks@),
        ) ==> {
            let (n, h) = (chunks@.len(), chunks@[0].1.height);
            let (w, c) = (chunks@[0].1.width, pcs.num_random_codewords);
            w + c > usize::MAX || n * (h * (w + c)) > usize::MAX || n * (h * c) + (n - 1) * (h * (w
                + c)) > usize::MAX
        },
{
    if booking_failure(chunks@, num_chunks as nat) is None {
        let (n, h) = (chunks@.len() as int, chunks@[0].1.height as int);
        let w = chunks@[0].1.width + pcs.num_random_codewords;
        lemma_quotient_sizes(n, h, w, pcs.num_random_codewords as int);
        assert(h * w <= n * (h * w)) by (nonlinear_arith)
            requires
                n >= 1,
                h * w >= 0,
        ;
    }
}

/// A call that books adds one report behind those that are there, of its own height and number of
/// chunks; any other leaves the record as it is. No call changes the parameters.
pub proof fn law_a_booked_call_adds_its_report_at_the_end(
    before: HidingFriPcs,
    after: HidingFriPcs,
    call: Option<(nat, nat)>,
    i: int,
)
    requires
        after.follows(before, call),
        0 <= i < after.quotient_degree_reports@.len(),
    ensures
        after.fri == before.fri,
        after.num_random_codewords == before.num_random_codewords,
        ({
            let (old_record, record) = (
                before.quotient_degree_reports@,
                after.quotient_degree_reports@,
            );
            &&& i < old_record.len() ==> record[i] == old_record[i]
            &&& match call {
                Some((height, count)) => {
                    &&& record.len() == old_record.len() + 1
                    &&& i == old_record.len() ==> record[i].quotient_chunk_domain_size == height
                        && record[i].quotient_chunk_count == count
                },
                None => record.len() == old_record.len(),
            }
        }),
{
    if call is Some && i < before.quotient_degree_reports@.len() {
        assert(after.quotient_degree_reports@.drop_last()[i] == after.quotient_degree_reports@[i]);
    }
}

/// A new scheme has the given parameters and an empty record, and reading the record gives all of it.
pub proof fn law_a_new_scheme_has_an_empty_record(
    params: FriParameters,
    num_random_codewords: usize,
    pcs: HidingFriPcs,
    other: HidingFriPcs,
    read: Vec<LagrangeQuotientHidingDegreeReport>,
)
    requires
        call_ensures(HidingFriPcs::new, (params, num_random_codewords), pcs),
        call_ensures(HidingFriPcs::quotient_degree_reports, (&other,), read),
    ensures
        pcs.fri == params,
        pcs.num_random_codewords == num_random_codewords,
        pcs.quotient_degree_reports@.len() == 0,
        read@ == other.quotient_degree_reports@,
{
}

/// A committed matrix has its visible columns and the random codewords, and the randomization
/// polynomial's matrix a column for each coordinate and the random codewords.
pub proof fn law_random_codewords_widen_every_matrix(
    pcs: HidingFriPcs,
    committed_width: usize,
    extension_degree: usize,
    visible: Option<usize>,
    randomization: Option<usize>,
)
    requires
        call_ensures(HidingFriPcs::visible_width, (&pcs, committed_width), visible),
        call_ensures(HidingFriPcs::randomization_width, (&pcs, extension_degree), randomization),
    ensures
        visible matches Some(width) ==> width + pcs.num_random_codewords == committed_width,
        visible is None ==> committed_width < pcs.num_random_codewords,
        randomization matches Some(width) ==> width == pcs.num_random_codewords + extension_degree,
        randomization is None ==> pcs.num_random_codewords + extension_degree > usize::MAX,
{
}

/// The record lists what was booked, call by call.
///
/// `states` begins with a scheme that has booked nothing and goes on with what each of `calls` made
/// of it. The last one's record holds, in order, the reports of the booked calls and no others, and
/// each is the only report of its chunks' height and number.
pub proof fn law_record_lists_the_booked_calls(
    states: Seq<HidingFriPcs>,
    calls: Seq<Option<(nat, nat)>>,
)
    requires
        states.len() == calls.len() + 1,
        states[0].records(Seq::empty()),
        forall|i: int|
            0 <= i < calls.len() ==> states[i + 1].follows(states[i], #[trigger] calls[i]),
    ensures
        states.last().records(booked(calls)),
        states.last().quotient_degree_reports@.len() == booked(calls).len(),
        forall|i: int, report: LagrangeQuotientHidingDegreeReport|
            0 <= i < booked(calls).len() && #[trigger] report.describes(
                booked(calls)[i].0,
                booked(calls)[i].1,
            ) ==> states.last().quotient_degree_reports@[i] == report,
    decreases calls.len(),
{
    let record = states.last().quotient_degree_reports@;
    if calls.len() > 0 {
        let earlier = states.drop_last();
        law_record_lists_the_booked_calls(earlier, calls.drop_last());
        assert(states.last().follows(earlier.last(), calls[calls.len() - 1]));
        assert forall|i: int| 0 <= i < booked(calls).len() implies (#[trigger] record[i]).describes(
            booked(calls)[i].0,
            booked(calls)[i].1,
        ) by {
            if calls.last() is Some && i < record.len() - 1 {
                assert(record[i] == record.drop_last()[i]);
            }
        }
    }
    assert forall|i: int, report: LagrangeQuotientHidingDegreeReport|
        0 <= i < booked(calls).len() && #[trigger] report.describes(
            booked(calls)[i].0,
            booked(calls)[i].1,
        ) implies record[i] == report by {
        assert(record[i].describes(booked(calls)[i].0, booked(calls)[i].1));
    }
}

/// The random columns of a chunk are no more than its randomizer, and the randomizers of all chunks
/// are one more than those of all but the last.
proof fn lemma_quotient_sizes(count: int, height: int, width: int, codewords: int)
    requires
        0 <= count,
        0 <= height,
        0 <= codewords <= width,
    ensures
        0 <= height * codewords <= height * width,
        0 <= count * (height * codewords) <= count * (height * width),
        count * (height * width) == (count - 1) * (height * width) + height * width,
{
    lemma_mul_inequality(codewords, width, height);
    lemma_mul_is_commutative(codewords, height);
    lemma_mul_is_commutative(width, height);
    lemma_mul_nonnegative(height, codewords);
    let columns = height * codewords;
    let values = height * width;
    lemma_mul_inequality(columns, values, count);
    lemma_mul_is_commutative(columns, count);
    lemma_mul_is_commutative(values, count);
    lemma_mul_nonnegative(count, columns);
    lemma_mul_is_distributive_add_other_way(values, count - 1, 1);
}

/// A power of two times `2^k` is a power of two.
proof fn lemma_product_is_pow2(n: int, k: nat)
    requires
        is_pow2(n),
    ensures
        is_pow2(n * pow2(k)),
{
    is_pow2_equiv(n);
    let b = choose|i: nat| vstd::arithmetic::power::pow(2, i) == n;
    lemma_pow2(b);
    lemma_pow2_adds(b, k);
    lemma_pow2_is_pow2(b + k);
}

/// The randomizers of all chunks: those that were drawn, and the last one, which balances them.
fn balanced_randomizers<F: TwoAdicField>(
    chunks: &[(Coset<F>, RowMajorMatrix<F>)],
    codewords: usize,
    normalizers: &Vec<F>,
    drawn: &[F],
    total_columns: usize,
    values_per_chunk: usize,
) -> (r: Vec<F>)
    requires
        chunks@.len() >= 2,
        chunks_are_valid(chunks@),
        all_valid(drawn@),
        normalizes(normalizers@, chunk_domains(chunks@)),
        values_per_chunk == chunks@[0].1.height * (chunks@[0].1.width + codewords),
        values_per_chunk > 0,
        total_columns == chunks@.len() * (chunks@[0].1.height * codewords),
        chunks@.len() * values_per_chunk <= usize::MAX,
        drawn@.len() == quotient_random_values(
            chunks@.len(),
            chunks@[0].1.height as nat,
            chunks@[0].1.width as nat,
            codewords as nat,
        ),
    ensures
        are_balanced_randomizers(r@, normalizers@, chunks@, codewords as nat, drawn@),
{
    let drawn_count: usize = drawn.len();
    let ghost count = chunks@.len();
    let ghost per = values_per_chunk as nat;
    proof {
        lemma_mul_nonnegative((count - 1) as int, per as int);
        lemma_mul_is_distributive_add_other_way(per as int, (count - 1) as int, 1);
    }
    let mut randomizers: Vec<F> = copy_slice(slice_subrange(drawn, total_columns, drawn_count));
    let ghost sampled = randomizers@;
    proof {
        F::constants_are_valid();
        assert(randomizers@.take(sampled.len() as int) =~= sampled);
    }
    let mut i: usize = 0;
    while i < values_per_chunk
        invariant
            i <= values_per_chunk,
            randomizers@.len() == sampled.len() + i,
            randomizers@.take(sampled.len() as int) == sampled,
            all_valid(randomizers@),
            F::zero_value().valid(),
        decreases values_per_chunk - i,
    {
        randomizers.push(F::zero());
        assert(randomizers@.take(sampled.len() as int) =~= sampled);
        i = i + 1;
    }
    let ghost initial = randomizers@;
    proof {
        assert(sampled.len() == (count - 1) * per);
        assert(normalizers@[count - 1] != F::zero_value());
    }
    let _: Option<()> = balance_quotient_randomizers(
        normalizers.as_slice(),
        values_per_chunk,
        &mut randomizers,
    );
    proof {
        assert(randomizers@.take((count - 1) * per) =~= drawn@.skip(total_columns as int)) by {
            assert forall|j: int| 0 <= j < (count - 1) * per implies #[trigger] randomizers@[j]
                == drawn@[total_columns + j] by {
                assert(initial[j] == initial.take(sampled.len() as int)[j]);
            }
        }
    }
    randomizers
}

/// The randomized extensions of all chunks.
fn randomized_ldes<F: TwoAdicField, D: CosetDft<F>>(
    dft: &D,
    chunks: &[(Coset<F>, RowMajorMatrix<F>)],
    codewords: usize,
    drawn: &[F],
    randomizers: &Vec<F>,
    columns_per_chunk: usize,
    log_height: usize,
    lde_height: usize,
) -> (r: Vec<RowMajorMatrix<F>>)
    requires
        chunks@.len() > 0,
        chunks_are_valid(chunks@),
        chunks_have_one_shape(chunks@),
        chunks_fill_their_domains(chunks@),
        all_valid(drawn@),
        all_valid(randomizers@),
        columns_per_chunk == chunks@[0].1.height * codewords,
        chunks@.len() * columns_per_chunk <= drawn@.len(),
        randomizers@.len() == chunks@.len() * (chunks@[0].1.height * (chunks@[0].1.width
            + codewords)),
        lde_height == pow2(log_height as nat),
        is_domain_size::<F>(lde_height as nat),
        2 * chunks@[0].1.height <= lde_height,
        chunks@[0].1.width + codewords <= usize::MAX,
        lde_height * (chunks@[0].1.width + codewords) <= usize::MAX,
    ensures
        are_randomized_ldes(
            r@,
            log_height as nat,
            chunks@,
            codewords as nat,
            drawn@,
            randomizers@,
        ),
{
    let count: usize = chunks.len();
    let drawn_count: usize = drawn.len();
    let ghost size = chunks@[0].1.height as nat;
    let ghost per = size * (chunks@[0].1.width as nat + codewords as nat);
    let mut ldes: Vec<RowMajorMatrix<F>> = Vec::new();
    let mut i: usize = 0;
    while i < count
        invariant
            i <= count,
            count == chunks@.len(),
            drawn_count == drawn@.len(),
            size == chunks@[0].1.height,
            per == size * (chunks@[0].1.width as nat + codewords as nat),
            chunks_are_valid(chunks@),
            chunks_have_one_shape(chunks@),
            chunks_fill_their_domains(chunks@),
            all_valid(drawn@),
            all_valid(randomizers@),
            columns_per_chunk == size * codewords as nat,
            count * columns_per_chunk <= drawn@.len(),
            randomizers@.len() == count * per,
            lde_height == pow2(log_height as nat),
            is_domain_size::<F>(lde_height as nat),
            2 * size <= lde_height,
            chunks@[0].1.width + codewords <= usize::MAX,
            lde_height * (chunks@[0].1.width + codewords) <= usize::MAX,
            ldes@.len() == i,
            forall|j: int|
                0 <= j < i ==> is_randomized_lde(
                    #[trigger] ldes@[j],
                    log_height as nat,
                    chunks@[j].0,
                    chunks@[j].1,
                    chunk_columns(drawn@, size, codewords as nat, j),
                    codewords as nat,
                    randomizers@,
                    j * per,
                ),
        decreases count - i,
    {
        proof {
            assert(chunks@[i as int].0.well_formed());
            assert(chunks@[i as int].1.height == size && chunks@[i as int].1.width
                == chunks@[0].1.width);
            assert(chunks@[i as int].0.size == size);
            lemma_mul_inequality(i + 1, count as int, columns_per_chunk as int);
            lemma_mul_inequality(i as int, i + 1, columns_per_chunk as int);
            lemma_mul_inequality(i + 1, count as int, per as int);
            lemma_mul_is_distributive_add_other_way(columns_per_chunk as int, i as int, 1);
            lemma_mul_nonnegative(i as int, columns_per_chunk as int);
        }
        let extra: &[F] = slice_subrange(
            drawn,
            i * columns_per_chunk,
            (i + 1) * columns_per_chunk,
        );
        assert(extra@ == chunk_columns(drawn@, size, codewords as nat, i as int));
        let lde: RowMajorMatrix<F> = randomized_chunk_lde(
            dft,
            chunks[i].0,
            &chunks[i].1,
            extra,
            codewords,
            randomizers.as_slice(),
            i,
            log_height,
            lde_height,
        );
        ldes.push(lde);
        i = i + 1;
    }
    ldes
}

} // verus!
