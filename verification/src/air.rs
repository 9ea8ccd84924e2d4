//! AIR composition error.
//!
//! The exact one-challenge root count for `K = num_constraints` consecutive powers of `alpha` is
//! `(K - 1) / |EF|` per fixed non-zero constraint vector.
use crate::natural::Natural;
use vstd::prelude::*;

verus! {

/// Exact root-count bookkeeping for Plonky3's single-`alpha` AIR fold.
///
/// For constraints emitted in one global order, Plonky3 evaluates
///
/// `C_fold(alpha) = sum_{i=0}^{K-1} alpha^(K-1-i) C_i`.
///
/// If the fixed coefficient vector `(C_0, ..., C_{K-1})` is non-zero, this is
/// a non-zero univariate polynomial of degree at most `K-1`.  Hence a uniform
/// `alpha` in the challenge field cancels it with probability at most
/// `(K-1)/|EF|`.  A union bound over a source-justified list of size `L` costs
/// `(K-1)L/|EF|`.
///
/// This report deliberately stops before that union bound: it does not accept
/// a caller-supplied list size and therefore cannot manufacture an affirmative
/// RbR or soundness result.  Callers must separately establish that the source
/// state function produces a non-zero coefficient polynomial for every
/// candidate and that the same list-size bound applies.  It also assumes an
/// ideal uniform challenge; it does not prove a Fiat-Shamir/ROM reduction.
#[derive(Clone, Debug, PartialEq, Eq)]
pub struct SingleAlphaConstraintCombinationReport {
    pub num_constraints: usize,
    pub lowest_alpha_power: usize,
    pub highest_alpha_power: usize,
    pub schwartz_zippel_degree_bound: usize,
    pub challenge_field_cardinality: Natural,
    pub per_candidate_error_numerator: usize,
    pub historical_calculator_numerator: usize,
    pub historical_calculator_factor_is_conservative: bool,
    pub independent_coefficients_assumed: bool,
    pub nonzero_coefficient_polynomial_required: bool,
    pub source_list_size_binding_established: bool,
    pub state_function_correspondence_established: bool,
    pub fiat_shamir_uniformity_established: bool,
    pub full_rbr_transfer_established: bool,
}

/// Build the exact single-`alpha` root-count report.
///
/// Returns `None` for fewer than two constraints or when the root-count
/// numerator is not strictly smaller than the challenge field.  These shapes
/// are refused rather than being reported as a meaningful positive-bit bound.
pub fn single_alpha_constraint_combination_report(
    num_constraints: usize,
    challenge_field_cardinality: Natural,
) -> (r: Option<SingleAlphaConstraintCombinationReport>)
    ensures
        r is Some <==> num_constraints >= 2 && num_constraints - 1 < challenge_field_cardinality@,
        r matches Some(report) ==> {
            &&& report.num_constraints == num_constraints
            &&& report.lowest_alpha_power == 0
            &&& report.highest_alpha_power == num_constraints - 1
            &&& report.schwartz_zippel_degree_bound == num_constraints - 1
            &&& report.challenge_field_cardinality@ == challenge_field_cardinality@
            &&& report.per_candidate_error_numerator == num_constraints - 1
            &&& report.historical_calculator_numerator == num_constraints
            &&& report.historical_calculator_factor_is_conservative
            &&& !report.independent_coefficients_assumed
            &&& report.nonzero_coefficient_polynomial_required
            &&& !report.source_list_size_binding_established
            &&& !report.state_function_correspondence_established
            &&& !report.fiat_shamir_uniformity_established
            &&& !report.full_rbr_transfer_established
        },
{
    let schwartz_zippel_degree_bound: usize = num_constraints.checked_sub(1)?;
    if schwartz_zippel_degree_bound == 0 || !Natural::from_usize(
        schwartz_zippel_degree_bound,
    ).less_than(&challenge_field_cardinality) {
        return None;
    }
    Some(
        SingleAlphaConstraintCombinationReport {
            num_constraints,
            lowest_alpha_power: 0,
            highest_alpha_power: schwartz_zippel_degree_bound,
            schwartz_zippel_degree_bound,
            challenge_field_cardinality,
            per_candidate_error_numerator: schwartz_zippel_degree_bound,
            historical_calculator_numerator: num_constraints,
            historical_calculator_factor_is_conservative: true,
            independent_coefficients_assumed: false,
            nonzero_coefficient_polynomial_required: true,
            source_list_size_binding_established: false,
            state_function_correspondence_established: false,
            fiat_shamir_uniformity_established: false,
            full_rbr_transfer_established: false,
        },
    )
}

/// Each number below the length occurs exactly once.
pub open spec fn lists_each_once(indices: Seq<usize>) -> bool {
    &&& forall|i: int| 0 <= i < indices.len() ==> #[trigger] indices[i] < indices.len()
    &&& indices.no_duplicates()
}

/// Whether a split of the constraints into base and extension field ones preserves every global
/// constraint index exactly once.
pub fn split_preserves_constraint_indices(base_indices: &[usize], ext_indices: &[usize]) -> (r: bool)
    requires
        base_indices@.len() + ext_indices@.len() <= usize::MAX,
    ensures
        r == lists_each_once(base_indices@ + ext_indices@),
{
    let base_count: usize = base_indices.len();
    let total: usize = base_count + ext_indices.len();
    let ghost indices = base_indices@ + ext_indices@;
    let mut seen: Vec<bool> = Vec::new();
    while seen.len() < total
        invariant
            seen@.len() <= total,
            forall|k: int| 0 <= k < seen@.len() ==> !#[trigger] seen@[k],
        decreases total - seen@.len(),
    {
        seen.push(false);
    }
    let mut i: usize = 0;
    while i < total
        invariant
            i <= total,
            total == indices.len(),
            seen@.len() == total,
            base_count == base_indices@.len(),
            indices == base_indices@ + ext_indices@,
            forall|j: int| 0 <= j < i ==> #[trigger] indices[j] < total && seen@[indices[j] as int],
            forall|k: int|
                0 <= k < total && #[trigger] seen@[k] ==> exists|j: int|
                    0 <= j < i && #[trigger] indices[j] == k,
            forall|j: int, k: int| 0 <= j < k < i ==> indices[j] != indices[k],
        decreases total - i,
    {
        let index: usize = if i < base_count {
            base_indices[i]
        } else {
            ext_indices[i - base_count]
        };
        assert(index == indices[i as int]);
        if index >= total || seen[index] {
            return false;
        }
        seen.set(index, true);
        i = i + 1;
    }
    true
}

/// When the root count is reported and what it says, over the arguments of the call: `K` constraints
/// are folded with the powers from zero to `K - 1`, so a challenge cancels them at no more than
/// `K - 1` of the field's elements, which must be some and fewer than all. The calculator's factor is
/// one more than that.
pub proof fn law_constraints_are_folded_with_consecutive_powers(
    num_constraints: usize,
    field: Natural,
    result: Option<SingleAlphaConstraintCombinationReport>,
)
    requires
        call_ensures(single_alpha_constraint_combination_report, (num_constraints, field), result),
    ensures
        result is Some <==> 2 <= num_constraints <= field@,
        result matches Some(report) ==> {
            &&& report.num_constraints == num_constraints
            &&& report.challenge_field_cardinality@ == field@
            &&& report.lowest_alpha_power == 0
            &&& report.highest_alpha_power - report.lowest_alpha_power + 1 == num_constraints
            &&& report.schwartz_zippel_degree_bound == report.highest_alpha_power
            &&& report.per_candidate_error_numerator == report.schwartz_zippel_degree_bound
            &&& report.historical_calculator_numerator == report.per_candidate_error_numerator + 1
            &&& report.historical_calculator_factor_is_conservative
            &&& report.nonzero_coefficient_polynomial_required
            &&& !report.independent_coefficients_assumed
            &&& !report.source_list_size_binding_established
            &&& !report.state_function_correspondence_established
            &&& !report.fiat_shamir_uniformity_established && !report.full_rbr_transfer_established
        },
{
}

/// A split preserves the constraint indices exactly where each global index stands at exactly one
/// place of it.
pub proof fn law_a_preserving_split_names_each_index_once(
    base_indices: &[usize],
    ext_indices: &[usize],
    answer: bool,
    index: int,
)
    requires
        call_ensures(split_preserves_constraint_indices, (base_indices, ext_indices), answer),
        0 <= index < base_indices@.len() + ext_indices@.len(),
    ensures
        answer ==> exists|place: int|
            0 <= place < base_indices@.len() + ext_indices@.len() && #[trigger] (base_indices@
                + ext_indices@)[place] == index,
        answer ==> (base_indices@ + ext_indices@)[index] < base_indices@.len() + ext_indices@.len(),
        forall|place: int|
            answer && 0 <= place < base_indices@.len() + ext_indices@.len() && #[trigger] (
            base_indices@ + ext_indices@)[place] == (base_indices@ + ext_indices@)[index] ==> place
                == index,
        !answer ==> {
            ||| exists|place: int|
                0 <= place < base_indices@.len() + ext_indices@.len() && #[trigger] (base_indices@
                    + ext_indices@)[place] >= base_indices@.len() + ext_indices@.len()
            ||| !(base_indices@ + ext_indices@).no_duplicates()
        },
{
    let indices = base_indices@ + ext_indices@;
    let total = indices.len() as int;
    if answer {
        let numbers = indices.map_values(|i: usize| i as int);
        assert(numbers.no_duplicates());
        numbers.unique_seq_to_set();
        let all = vstd::set_lib::set_int_range(0, total);
        vstd::set_lib::lemma_int_range(0, total);
        assert(numbers.to_set().subset_of(all)) by {
            assert forall|i: int| numbers.to_set().contains(i) implies all.contains(i) by {
                let place = numbers.index_of(i);
                assert(numbers[place] == indices[place]);
            }
        }
        vstd::set_lib::lemma_subset_equality(numbers.to_set(), all);
        assert(numbers.to_set().contains(index));
        let place = numbers.index_of(index);
        assert(indices[place] == index);
    }
}

} // verus!
