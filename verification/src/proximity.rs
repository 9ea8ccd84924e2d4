//! Proximity-gap and list-size reports shared across low-degree-test
//! modules.
//!
//! LDR (list-decoding regime, BCHKS25 explicit-m): agreement parameter
//! `alpha = (1 + 1/(2m)) * sqrt(rho)`, proximity parameter `gamma = 1 - alpha`, list size
//! `(m + 1/2) / sqrt(rho)`.
//!
//! References:
//! - [2020/654] Proximity Gaps for Reed--Solomon Codes
//! - [2024/1553] STARK-based Signatures from the RPO Permutation
//! - [2025/2055] BCHKS25 Theorem 4.2
use crate::powers::{checked_power_of_two, is_power_of_two};
use vstd::arithmetic::div_mod::*;
use vstd::arithmetic::mul::*;
use vstd::arithmetic::power::*;
use vstd::arithmetic::power2::*;
use vstd::prelude::*;

verus! {

/// Performance cap on the proximity parameter `m` searched in LDR
/// analyses. Matches Ethereum's `soundcalc`.
pub const LDR_M_CAP: usize = 1000;

/// Legacy base-code parameter report for one concrete FRI analysis.
///
/// This deliberately stops short of claiming that the source RbR state
/// function matches the implementation's acceptance predicate. In the ZK
/// profile, the source candidate-degree envelope is `2 * |H|`, whereas the
/// base Reed--Solomon code used here has dimension `|H|`.  Its final eta
/// comparison is therefore a cross-regime diagnostic, not an application of
/// the RPO Protocol-2 theorem.  Use [`exact_hiding_rbr_state_list_report`] for
/// the theorem-applicable hiding family and its actual committed FRI domain.
#[derive(Copy, Clone, Debug, Eq, PartialEq)]
pub struct LdrListParameterReport {
    pub trace_domain_size: usize,
    pub evaluation_domain_size: usize,
    pub log_blowup: usize,
    pub base_rs_dimension: usize,
    pub base_rs_rate_numerator: usize,
    pub base_rs_rate_denominator: usize,
    pub sqrt_rate_reciprocal: usize,
    pub proximity_m: usize,
    pub proximity_radius_numerator: usize,
    pub proximity_radius_denominator: usize,
    pub source_list_size_bound: usize,
    pub source_hiding_beta: usize,
    pub source_candidate_degree_bound: usize,
    pub source_expanded_candidate_degree_bound: usize,
    pub eta_comparison_left: usize,
    pub eta_comparison_right: usize,
    pub eta_positive: bool,
    pub analysis_m_selected_by_ldt_only: bool,
    pub full_composite_optimality_established: bool,
    pub base_rs_parameters_established: bool,
    pub source_list_formula_instantiated: bool,
    pub state_candidate_family_correspondence_established: bool,
    pub common_rs_and_list_size_regime_established: bool,
}

/// Exact Protocol-2 candidate-family and list-size report for one hiding FRI
/// execution.
///
/// The source code is `RS[G, D, beta * |H|]`.  In the concrete Plonky3 ZK
/// execution `beta = 2`, and the committed FRI codeword domain has size
/// `(beta * |H|) * 2^log_blowup`.  This distinction matters: the base trace
/// has dimension `|H|`, but it is not the code whose list is used by the
/// hiding-family state function.
#[derive(Copy, Clone, Debug, Eq, PartialEq)]
pub struct HidingRbrStateListReport {
    pub trace_domain_size: usize,
    pub source_hiding_beta: usize,
    pub source_candidate_degree_bound: usize,
    pub fri_log_blowup: usize,
    pub fri_evaluation_domain_size: usize,
    pub source_rs_rate_numerator: usize,
    pub source_rs_rate_denominator: usize,
    pub proximity_m: usize,
    pub source_agreement_numerator: usize,
    pub source_agreement_denominator: usize,
    pub source_distance_radius_numerator: usize,
    pub source_distance_radius_denominator: usize,
    pub source_expanded_candidate_degree_bound: usize,
    pub eta_comparison_left: usize,
    pub eta_comparison_right: usize,
    pub eta_positive: bool,
    pub source_list_bound_numerator: usize,
    pub source_list_bound_denominator: usize,
    pub source_list_size_integer_bound: usize,
    pub randomized_trace_degree_bound_exclusive: usize,
    pub randomized_chunk_degree_bound_exclusive: usize,
    pub mask_degree_bound_exclusive: usize,
    pub reduced_mask_degree_bound_exclusive: usize,
    pub reduced_opening_degree_bound_exclusive: usize,
    pub constraint_count: usize,
    pub priced_constraint_list_union_numerator: usize,
    pub source_protocol2_function_family_shape_established: bool,
    pub common_rs_and_list_size_regime_established: bool,
    pub state_candidate_family_correspondence_established: bool,
    pub fiat_shamir_uniformity_established: bool,
    pub full_rbr_transfer_established: bool,
    pub zero_knowledge_established: bool,
}

/// `1 / sqrt(rho)` for `rho = 1 / 2^log_blowup`, exact for an even `log_blowup`.
pub open spec fn sqrt_rate_reciprocal(log_blowup: nat) -> nat {
    pow2(log_blowup / 2)
}

/// The numerator `2m + 1` of `alpha = (2m + 1) / (2m / sqrt(rho))`.
pub open spec fn agreement_numerator(m: nat) -> nat {
    2 * m + 1
}

/// The denominator `2m / sqrt(rho)` of `alpha = (2m + 1) / (2m / sqrt(rho))`.
pub open spec fn agreement_denominator(m: nat, log_blowup: nat) -> nat {
    2 * m * sqrt_rate_reciprocal(log_blowup)
}

/// The finite-length list bound `m |D| / (k - 2m)`, rounded down.
pub open spec fn list_size_bound(m: nat, domain_size: nat, degree_bound: nat) -> int {
    (m * domain_size) as int / (degree_bound - 2 * m)
}

/// For an even `log_blowup` the square of `1 / sqrt(rho)` is the reciprocal of the rate.
pub proof fn law_sqrt_rate_is_exact(log_blowup: nat)
    requires
        log_blowup % 2 == 0,
    ensures
        sqrt_rate_reciprocal(log_blowup) * sqrt_rate_reciprocal(log_blowup) == pow2(log_blowup),
{
    lemma_pow2_adds(log_blowup / 2, log_blowup / 2);
}

proof fn lemma_sqrt_rate_even(log_blowup: nat)
    requires
        log_blowup > 0,
        log_blowup % 2 == 0,
    ensures
        sqrt_rate_reciprocal(log_blowup) >= 2,
        sqrt_rate_reciprocal(log_blowup) % 2 == 0,
        sqrt_rate_reciprocal(log_blowup) <= pow2(log_blowup),
{
    lemma_pow2_unfold(log_blowup / 2);
    lemma_pow2_pos((log_blowup / 2 - 1) as nat);
    lemma_pow2_strictly_increases(log_blowup / 2, log_blowup);
}

/// The hiding family and its parameters have the shape that the source state argument speaks of:
/// trace and quotient chunks below degree `k = 2 |H|`, the mask below `k - 1`, the reduced mask
/// below `k - 2`, all over the committed domain of `k * 2^log_blowup` points.
pub open spec fn hiding_family_shape(
    trace_domain_size: nat,
    log_blowup: nat,
    m: nat,
    domain_size: nat,
    trace_bound: nat,
    chunk_bound: nat,
    mask_bound: nat,
    reduced_mask_bound: nat,
    constraint_count: nat,
) -> bool {
    let k = 2 * trace_domain_size;
    &&& is_pow2(trace_domain_size as int)
    &&& log_blowup > 0
    &&& log_blowup % 2 == 0
    &&& 3 <= m < trace_domain_size
    &&& constraint_count >= 2
    &&& domain_size == k * pow2(log_blowup)
    &&& trace_bound == k
    &&& chunk_bound == k
    &&& mask_bound == k - 1
    &&& reduced_mask_bound == k - 2
}

/// What the numbers of the hiding report have in common: every one of them is at most
/// `(2m + 1) |D|` or the priced union, the agreement exceeds `(k + 2) / |D|`, and the list bound is
/// positive.
proof fn lemma_hiding_numbers(trace: int, log_blowup: nat, m: int, domain: int)
    requires
        3 <= m < trace,
        log_blowup > 0,
        log_blowup % 2 == 0,
        domain == 2 * trace * pow2(log_blowup),
    ensures
        2 * trace + 2 <= domain,
        sqrt_rate_reciprocal(log_blowup) >= 2,
        agreement_numerator(m as nat) < agreement_denominator(m as nat, log_blowup),
        agreement_denominator(m as nat, log_blowup) * (2 * trace + 2) < agreement_numerator(
            m as nat,
        ) * domain,
        agreement_denominator(m as nat, log_blowup) <= agreement_denominator(m as nat, log_blowup)
            * (2 * trace + 2),
        m * domain <= agreement_numerator(m as nat) * domain,
        domain <= agreement_numerator(m as nat) * domain,
        pow2(log_blowup) <= domain,
        list_size_bound(m as nat, domain as nat, (2 * trace) as nat) > 0,
{
    lemma_sqrt_rate_even(log_blowup);
    law_sqrt_rate_is_exact(log_blowup);
    let s = sqrt_rate_reciprocal(log_blowup) as int;
    let k = 2 * trace;
    assert(s * s >= 4) by (nonlinear_arith)
        requires
            s >= 2,
    ;
    let den = agreement_denominator(m as nat, log_blowup) as int;
    assert(den == 2 * m * s);
    assert(domain >= 4 * k && s * s <= domain) by (nonlinear_arith)
        requires
            domain == k * (s * s),
            s * s >= 4,
            k >= 1,
    ;
    assert(den >= 4 * m) by (nonlinear_arith)
        requires
            den == 2 * m * s,
            s >= 2,
            m >= 3,
    ;
    assert(den * (k + 2) < (2 * m + 1) * domain) by {
        assert((k + 2) * 2 * m < (2 * m + 1) * (k * s)) by (nonlinear_arith)
            requires
                s >= 2,
                m >= 3,
                k >= 8,
        ;
        assert(den * (k + 2) == s * ((k + 2) * 2 * m)) by (nonlinear_arith)
            requires
                den == 2 * m * s,
        ;
        assert((2 * m + 1) * domain == s * ((2 * m + 1) * (k * s))) by (nonlinear_arith)
            requires
                domain == k * (s * s),
        ;
        assert(s * ((k + 2) * 2 * m) < s * ((2 * m + 1) * (k * s))) by (nonlinear_arith)
            requires
                s >= 2,
                (k + 2) * 2 * m < (2 * m + 1) * (k * s),
        ;
    }
    assert(den <= den * (k + 2)) by (nonlinear_arith)
        requires
            den >= 0,
            k >= 0,
    ;
    assert(m * domain <= (2 * m + 1) * domain && domain <= (2 * m + 1) * domain)
        by (nonlinear_arith)
        requires
            m >= 3,
            domain >= 0,
    ;
    assert(m * domain >= k - 2 * m) by (nonlinear_arith)
        requires
            m >= 3,
            domain >= 4 * k,
            k >= 0,
    ;
    lemma_div_non_zero(m * domain, k - 2 * m);
}

/// Bind the executed hiding-family polynomial shape to the list used by the
/// source Protocol-2 state argument.
///
/// For the source agreement
///
/// `alpha = (1 + 1/(2m)) * sqrt(rho)`
///
/// this function requires an even logarithmic blowup so the value is exact.
/// The finite-length candidate-list bound is the RPO/ethSTARK expression
///
/// `L = m / (rho - 2m/|D|) = m|D| / (k - 2m)`.
///
/// Since a list cardinality is integral, `floor(L)` is a valid integer upper
/// bound whenever the source proves `|P| <= L`.  The exact unreduced rational
/// is retained as well.  This function establishes the candidate-family/list
/// part of the ideal-IOP state argument only; it deliberately does not claim
/// Fiat--Shamir uniformity, the complete RbR theorem, or zero knowledge.
#[allow(clippy::too_many_arguments)]
pub fn exact_hiding_rbr_state_list_report(
    trace_domain_size: usize,
    fri_log_blowup: usize,
    proximity_m: usize,
    fri_evaluation_domain_size: usize,
    randomized_trace_degree_bound_exclusive: usize,
    randomized_chunk_degree_bound_exclusive: usize,
    mask_degree_bound_exclusive: usize,
    reduced_mask_degree_bound_exclusive: usize,
    constraint_count: usize,
) -> (r: Option<HidingRbrStateListReport>)
    ensures
        r is Some <==> {
            &&& hiding_family_shape(
                trace_domain_size as nat,
                fri_log_blowup as nat,
                proximity_m as nat,
                fri_evaluation_domain_size as nat,
                randomized_trace_degree_bound_exclusive as nat,
                randomized_chunk_degree_bound_exclusive as nat,
                mask_degree_bound_exclusive as nat,
                reduced_mask_degree_bound_exclusive as nat,
                constraint_count as nat,
            )
            &&& agreement_numerator(proximity_m as nat) * fri_evaluation_domain_size <= usize::MAX
            &&& (constraint_count - 1) * list_size_bound(
                proximity_m as nat,
                fri_evaluation_domain_size as nat,
                (2 * trace_domain_size) as nat,
            ) <= usize::MAX
        },
        r matches Some(report) ==> {
            &&& report.trace_domain_size == trace_domain_size
            &&& report.source_hiding_beta == 2
            &&& report.source_candidate_degree_bound == 2 * trace_domain_size
            &&& report.fri_log_blowup == fri_log_blowup
            &&& report.fri_evaluation_domain_size == fri_evaluation_domain_size
            &&& report.source_rs_rate_numerator == 1
            &&& report.source_rs_rate_denominator == pow2(fri_log_blowup as nat)
            &&& report.proximity_m == proximity_m
            &&& report.source_agreement_numerator == agreement_numerator(proximity_m as nat)
            &&& report.source_agreement_denominator == agreement_denominator(
                proximity_m as nat,
                fri_log_blowup as nat,
            )
            &&& report.source_distance_radius_numerator == report.source_agreement_denominator
                - report.source_agreement_numerator
            &&& report.source_distance_radius_numerator > 0
            &&& report.source_distance_radius_denominator == report.source_agreement_denominator
            &&& report.source_expanded_candidate_degree_bound
                == report.source_candidate_degree_bound + 2
            &&& report.eta_comparison_left == report.source_agreement_numerator
                * fri_evaluation_domain_size
            &&& report.eta_comparison_right == report.source_agreement_denominator
                * report.source_expanded_candidate_degree_bound
            &&& report.eta_comparison_left > report.eta_comparison_right
            &&& report.eta_positive
        },
        r matches Some(report) ==> {
            &&& report.source_list_bound_numerator == proximity_m * fri_evaluation_domain_size
            &&& report.source_list_bound_denominator == 2 * trace_domain_size - 2 * proximity_m
            &&& report.source_list_size_integer_bound == list_size_bound(
                proximity_m as nat,
                fri_evaluation_domain_size as nat,
                (2 * trace_domain_size) as nat,
            )
            &&& report.source_list_size_integer_bound > 0
            &&& report.randomized_trace_degree_bound_exclusive
                == randomized_trace_degree_bound_exclusive
            &&& report.randomized_chunk_degree_bound_exclusive
                == randomized_chunk_degree_bound_exclusive
            &&& report.mask_degree_bound_exclusive == mask_degree_bound_exclusive
            &&& report.reduced_mask_degree_bound_exclusive == reduced_mask_degree_bound_exclusive
            &&& report.reduced_opening_degree_bound_exclusive == 2 * trace_domain_size - 1
            &&& report.constraint_count == constraint_count
            &&& report.priced_constraint_list_union_numerator == (constraint_count - 1)
                * report.source_list_size_integer_bound
            &&& report.source_protocol2_function_family_shape_established
            &&& report.common_rs_and_list_size_regime_established
            &&& report.state_candidate_family_correspondence_established
            &&& !report.fiat_shamir_uniformity_established
            &&& !report.full_rbr_transfer_established
            &&& !report.zero_knowledge_established
        },
{
    if !is_power_of_two(trace_domain_size) || fri_log_blowup == 0
        || fri_log_blowup % 2 != 0 || proximity_m < 3 || constraint_count < 2 {
        return None;
    }
    let ghost shape = hiding_family_shape(
        trace_domain_size as nat,
        fri_log_blowup as nat,
        proximity_m as nat,
        fri_evaluation_domain_size as nat,
        randomized_trace_degree_bound_exclusive as nat,
        randomized_chunk_degree_bound_exclusive as nat,
        mask_degree_bound_exclusive as nat,
        reduced_mask_degree_bound_exclusive as nat,
        constraint_count as nat,
    );
    proof {
        lemma_sqrt_rate_even(fri_log_blowup as nat);
        if shape {
            lemma_hiding_numbers(
                trace_domain_size as int,
                fri_log_blowup as nat,
                proximity_m as int,
                fri_evaluation_domain_size as int,
            );
        }
    }
    let source_hiding_beta: usize = 2;
    let source_candidate_degree_bound: usize = trace_domain_size.checked_mul(source_hiding_beta)?;
    if proximity_m >= source_candidate_degree_bound / 2 {
        return None;
    }
    let source_rs_rate_denominator: usize = checked_power_of_two(fri_log_blowup)?;
    let expected_fri_domain: usize = source_candidate_degree_bound.checked_mul(
        source_rs_rate_denominator,
    )?;
    if fri_evaluation_domain_size != expected_fri_domain {
        return None;
    }
    let expected_mask_bound: usize = source_candidate_degree_bound - 1;
    let expected_reduced_mask_bound: usize = source_candidate_degree_bound - 2;
    if randomized_trace_degree_bound_exclusive != source_candidate_degree_bound
        || randomized_chunk_degree_bound_exclusive != source_candidate_degree_bound
        || mask_degree_bound_exclusive != expected_mask_bound || reduced_mask_degree_bound_exclusive
        != expected_reduced_mask_bound {
        return None;
    }
    assert(shape);
    let source_expanded_candidate_degree_bound: usize = source_candidate_degree_bound.checked_add(
        2,
    )?;
    let sqrt_rate_reciprocal: usize = checked_power_of_two(fri_log_blowup / 2)?;
    let two_m: usize = proximity_m.checked_mul(2)?;
    let source_agreement_numerator: usize = two_m.checked_add(1)?;
    let source_agreement_denominator: usize = two_m.checked_mul(sqrt_rate_reciprocal)?;
    let source_distance_radius_numerator: usize = source_agreement_denominator
        - source_agreement_numerator;
    // alpha > (k + 2)/|D|, compared without division.
    let eta_comparison_left: usize = source_agreement_numerator.checked_mul(
        fri_evaluation_domain_size,
    )?;
    let eta_comparison_right: usize = source_agreement_denominator.checked_mul(
        source_expanded_candidate_degree_bound,
    )?;
    let eta_positive: bool = eta_comparison_left > eta_comparison_right;
    let source_list_bound_numerator: usize = proximity_m.checked_mul(fri_evaluation_domain_size)?;
    let source_list_bound_denominator: usize = source_candidate_degree_bound - two_m;
    let source_list_size_integer_bound: usize = source_list_bound_numerator
        / source_list_bound_denominator;
    let priced_constraint_list_union_numerator: usize = (constraint_count - 1).checked_mul(
        source_list_size_integer_bound,
    )?;
    Some(
        HidingRbrStateListReport {
            trace_domain_size,
            source_hiding_beta,
            source_candidate_degree_bound,
            fri_log_blowup,
            fri_evaluation_domain_size,
            source_rs_rate_numerator: 1,
            source_rs_rate_denominator,
            proximity_m,
            source_agreement_numerator,
            source_agreement_denominator,
            source_distance_radius_numerator,
            source_distance_radius_denominator: source_agreement_denominator,
            source_expanded_candidate_degree_bound,
            eta_comparison_left,
            eta_comparison_right,
            eta_positive,
            source_list_bound_numerator,
            source_list_bound_denominator,
            source_list_size_integer_bound,
            randomized_trace_degree_bound_exclusive,
            randomized_chunk_degree_bound_exclusive,
            mask_degree_bound_exclusive,
            reduced_mask_degree_bound_exclusive,
            reduced_opening_degree_bound_exclusive: expected_mask_bound,
            constraint_count,
            priced_constraint_list_union_numerator,
            source_protocol2_function_family_shape_established: true,
            common_rs_and_list_size_regime_established: true,
            state_candidate_family_correspondence_established: true,
            fiat_shamir_uniformity_established: false,
            full_rbr_transfer_established: false,
            zero_knowledge_established: false,
        },
    )
}

/// The base code's parameters agree: rate `1 / 2^log_blowup` at the given domain, and the hiding
/// envelope `k = 2 |H|`, `k+ = k + 2`.
pub open spec fn base_code_shape(
    trace_domain_size: nat,
    domain_size: nat,
    log_blowup: nat,
    m: nat,
    degree_bound: nat,
    expanded_degree_bound: nat,
) -> bool {
    &&& is_pow2(trace_domain_size as int)
    &&& log_blowup > 0
    &&& log_blowup % 2 == 0
    &&& m >= 3
    &&& domain_size == trace_domain_size * pow2(log_blowup)
    &&& degree_bound == 2 * trace_domain_size
    &&& expanded_degree_bound == degree_bound + 2
}

/// `alpha > k+ / |D|`, compared without division.
pub open spec fn eta_is_positive(
    m: nat,
    log_blowup: nat,
    domain_size: nat,
    expanded_degree_bound: nat,
) -> bool {
    agreement_numerator(m) * domain_size > expanded_degree_bound * agreement_denominator(
        m,
        log_blowup,
    )
}

proof fn lemma_base_numbers(trace: int, log_blowup: nat, m: int, domain: int)
    requires
        trace > 0,
        m >= 3,
        log_blowup > 0,
        log_blowup % 2 == 0,
        domain == trace * pow2(log_blowup),
    ensures
        pow2(log_blowup) <= domain,
        sqrt_rate_reciprocal(log_blowup) <= domain,
        agreement_numerator(m as nat) < agreement_denominator(m as nat, log_blowup),
        agreement_denominator(m as nat, log_blowup) <= (2 * trace + 2) * agreement_denominator(
            m as nat,
            log_blowup,
        ),
        agreement_numerator(m as nat) <= agreement_numerator(m as nat) * domain,
        agreement_numerator(m as nat) * sqrt_rate_reciprocal(log_blowup) <= agreement_numerator(
            m as nat,
        ) * domain,
        (agreement_numerator(m as nat) * sqrt_rate_reciprocal(log_blowup)) % 2 == 0,
{
    lemma_sqrt_rate_even(log_blowup);
    law_sqrt_rate_is_exact(log_blowup);
    let s = sqrt_rate_reciprocal(log_blowup) as int;
    let den = agreement_denominator(m as nat, log_blowup) as int;
    assert(den == 2 * m * s);
    assert(s <= s * s <= domain) by (nonlinear_arith)
        requires
            domain == trace * (s * s),
            s >= 2,
            trace > 0,
    ;
    assert(den >= 4 * m) by (nonlinear_arith)
        requires
            den == 2 * m * s,
            s >= 2,
            m >= 3,
    ;
    assert(den <= (2 * trace + 2) * den) by (nonlinear_arith)
        requires
            den >= 0,
            trace > 0,
    ;
    let u = 2 * m + 1;
    assert(u <= u * domain && u * s <= u * domain) by (nonlinear_arith)
        requires
            s <= domain,
            s >= 2,
            u >= 0,
    ;
    lemma_mul_mod_noop_right(u, s, 2);
}

/// Below blowup 16 the comparison asks for a trace longer than `2m`, from there on for nothing.
pub proof fn law_eta_is_positive_from_a_trace_length_on(
    trace_domain_size: nat,
    domain_size: nat,
    log_blowup: nat,
    m: nat,
    degree_bound: nat,
    expanded_degree_bound: nat,
)
    requires
        base_code_shape(
            trace_domain_size,
            domain_size,
            log_blowup,
            m,
            degree_bound,
            expanded_degree_bound,
        ),
    ensures
        eta_is_positive(m, log_blowup, domain_size, expanded_degree_bound) <==> (log_blowup >= 4
            || trace_domain_size > 2 * m),
{
    reveal(is_pow2);
    lemma_sqrt_rate_even(log_blowup);
    law_sqrt_rate_is_exact(log_blowup);
    let s = sqrt_rate_reciprocal(log_blowup) as int;
    let t = trace_domain_size as int;
    let x = (2 * m + 1) * (t * s);
    let y = (2 * t + 2) * (2 * m);
    assert((2 * m + 1) * (t * (s * s)) == s * x) by (nonlinear_arith)
        requires
            x == (2 * m + 1) * (t * s),
    ;
    assert((2 * t + 2) * (2 * m * s) == s * y) by (nonlinear_arith)
        requires
            y == (2 * t + 2) * (2 * m),
    ;
    assert((s * x > s * y) <==> x > y) by (nonlinear_arith)
        requires
            s >= 2,
    ;
    if log_blowup == 2 {
        lemma2_to64();
        assert((x > y) <==> t > 2 * m) by (nonlinear_arith)
            requires
                x == (2 * m + 1) * (t * 2),
                y == (2 * t + 2) * (2 * m),
        ;
    } else {
        lemma2_to64();
        if log_blowup > 4 {
            lemma_pow2_strictly_increases(2, log_blowup / 2);
        }
        assert(x > y) by (nonlinear_arith)
            requires
                x == (2 * m + 1) * (t * s),
                y == (2 * t + 2) * (2 * m),
                s >= 4,
                t >= 1,
                m >= 3,
        ;
    }
}

/// `eta > 0` for a trace of length `h` with the expanded bound `h + 2`: `1 + 1/(2m)` exceeds the
/// square root of `(h + 2) / h`. Both sides are squared and multiplied out.
pub open spec fn eta_precondition_holds(trace_length: nat, m: nat) -> bool {
    trace_length * ((2 * m + 1) * (2 * m + 1)) > (trace_length + 2) * ((2 * m) * (2 * m))
}

/// Largest proximity parameter `m` such that the `eta > 0` precondition of
/// Theorem 1 in [2021/582] holds, or zero where no positive one does. Caller applies
/// [`LDR_M_CAP`].
pub fn compute_upper_m(trace_length: usize) -> (r: usize)
    ensures
        r > 0 ==> eta_precondition_holds(trace_length as nat, r as nat),
        forall|m: nat| m > r ==> !#[trigger] eta_precondition_holds(trace_length as nat, m),
{
    let upper: usize = trace_length / 2;
    proof {
        assert forall|m: nat| m > 0 implies (#[trigger] eta_precondition_holds(
            trace_length as nat,
            m,
        ) <==> m <= upper) by {
            lemma_eta_precondition(trace_length as int, m as int);
        }
    }
    upper
}

/// The precondition holds exactly up to half the trace length.
proof fn lemma_eta_precondition(h: int, m: int)
    requires
        h >= 0,
        m > 0,
    ensures
        (h * ((2 * m + 1) * (2 * m + 1)) > (h + 2) * ((2 * m) * (2 * m))) <==> 2 * m <= h,
{
    // The two sides differ by 4 m (h - 2 m) + h.
    assert(h * ((2 * m + 1) * (2 * m + 1)) - (h + 2) * ((2 * m) * (2 * m)) == 4 * m * (h - 2 * m)
        + h) by (nonlinear_arith);
    if 2 * m <= h {
        assert(4 * m * (h - 2 * m) + h > 0) by (nonlinear_arith)
            requires
                2 * m <= h,
                m > 0,
        ;
    } else {
        assert(4 * m * (h - 2 * m) + h <= 0) by (nonlinear_arith)
            requires
                h - 2 * m <= -1,
                m > 0,
        ;
    }
}

/// Instantiate the exact Johnson/list-size parameters for the concrete
/// power-of-four FRI rate while retaining the ZK candidate-family gap.
///
/// For `rho = 1 / 2^log_blowup` with even `log_blowup`, this computes
///
/// - `theta = 1 - (1 + 1/(2m)) * sqrt(rho)`, and
/// - `ell_m = (m + 1/2) / sqrt(rho)`.
///
/// It also records a legacy cross-regime `eta > 0` comparison against the
/// separately established hiding envelope `k = 2|H|`, `k+ = k + 2`.  That
/// comparison is not theorem-applicable because this report's domain has size
/// `4|H|`, while the hiding family is committed over `8|H|`. The selected `m`
/// is explicitly labeled as an LDT-only analysis choice: it is not a field
/// carried by the proof and this function does not establish the source state
/// function or a full RbR theorem.
pub fn exact_ldr_list_parameter_report(
    trace_domain_size: usize,
    evaluation_domain_size: usize,
    log_blowup: usize,
    proximity_m: usize,
    source_candidate_degree_bound: usize,
    source_expanded_candidate_degree_bound: usize,
) -> (r: Option<LdrListParameterReport>)
    ensures
        r is Some <==> {
            &&& base_code_shape(
                trace_domain_size as nat,
                evaluation_domain_size as nat,
                log_blowup as nat,
                proximity_m as nat,
                source_candidate_degree_bound as nat,
                source_expanded_candidate_degree_bound as nat,
            )
            &&& eta_is_positive(
                proximity_m as nat,
                log_blowup as nat,
                evaluation_domain_size as nat,
                source_expanded_candidate_degree_bound as nat,
            )
            &&& agreement_numerator(proximity_m as nat) * evaluation_domain_size <= usize::MAX
        },
        r matches Some(report) ==> {
            &&& report.trace_domain_size == trace_domain_size
            &&& report.evaluation_domain_size == evaluation_domain_size
            &&& report.log_blowup == log_blowup
            &&& report.base_rs_dimension == trace_domain_size
            &&& report.base_rs_rate_numerator == 1
            &&& report.base_rs_rate_denominator == pow2(log_blowup as nat)
            &&& report.sqrt_rate_reciprocal == sqrt_rate_reciprocal(log_blowup as nat)
            &&& report.proximity_m == proximity_m
            &&& report.proximity_radius_numerator == report.proximity_radius_denominator
                - agreement_numerator(proximity_m as nat)
            &&& report.proximity_radius_numerator > 0
            &&& report.proximity_radius_denominator == agreement_denominator(
                proximity_m as nat,
                log_blowup as nat,
            )
            &&& 2 * report.source_list_size_bound == agreement_numerator(proximity_m as nat)
                * sqrt_rate_reciprocal(log_blowup as nat)
            &&& report.source_hiding_beta == 2
            &&& report.source_candidate_degree_bound == source_candidate_degree_bound
            &&& report.source_expanded_candidate_degree_bound
                == source_expanded_candidate_degree_bound
            &&& report.eta_comparison_left == agreement_numerator(proximity_m as nat)
                * evaluation_domain_size
            &&& report.eta_comparison_right == source_expanded_candidate_degree_bound
                * report.proximity_radius_denominator
            &&& report.eta_positive
            &&& report.analysis_m_selected_by_ldt_only
            &&& !report.full_composite_optimality_established
            &&& report.base_rs_parameters_established
            &&& report.source_list_formula_instantiated
            &&& !report.state_candidate_family_correspondence_established
            &&& !report.common_rs_and_list_size_regime_established
        },
{
    if !is_power_of_two(trace_domain_size) || log_blowup == 0 || log_blowup
        % 2 != 0 || proximity_m < 3 {
        return None;
    }
    proof {
        if evaluation_domain_size == trace_domain_size * pow2(log_blowup as nat) {
            lemma_base_numbers(
                trace_domain_size as int,
                log_blowup as nat,
                proximity_m as int,
                evaluation_domain_size as int,
            );
        }
    }
    let blowup: usize = checked_power_of_two(log_blowup)?;
    let expected_evaluation_domain_size: usize = trace_domain_size.checked_mul(blowup)?;
    if evaluation_domain_size != expected_evaluation_domain_size {
        return None;
    }
    let expected_source_candidate_degree_bound: usize = trace_domain_size.checked_mul(2)?;
    if source_candidate_degree_bound != expected_source_candidate_degree_bound
        || source_expanded_candidate_degree_bound != source_candidate_degree_bound.checked_add(
        2,
    )? {
        return None;
    }
    let sqrt_rate_reciprocal: usize = checked_power_of_two(log_blowup / 2)?;
    let two_m: usize = proximity_m.checked_mul(2)?;
    let two_m_plus_one: usize = two_m.checked_add(1)?;
    let proximity_radius_denominator: usize = two_m.checked_mul(sqrt_rate_reciprocal)?;
    let proximity_radius_numerator: usize = proximity_radius_denominator - two_m_plus_one;
    let list_size_numerator: usize = two_m_plus_one.checked_mul(sqrt_rate_reciprocal)?;
    let source_list_size_bound: usize = list_size_numerator / 2;
    // Compare alpha = (2m+1)/(2m*sqrt(1/rho)) with k+/|D| exactly.
    let eta_comparison_left: usize = two_m_plus_one.checked_mul(evaluation_domain_size)?;
    let eta_comparison_right: usize = source_expanded_candidate_degree_bound.checked_mul(
        proximity_radius_denominator,
    )?;
    let eta_positive: bool = eta_comparison_left > eta_comparison_right;
    if !eta_positive {
        return None;
    }
    Some(
        LdrListParameterReport {
            trace_domain_size,
            evaluation_domain_size,
            log_blowup,
            base_rs_dimension: trace_domain_size,
            base_rs_rate_numerator: 1,
            base_rs_rate_denominator: blowup,
            sqrt_rate_reciprocal,
            proximity_m,
            proximity_radius_numerator,
            proximity_radius_denominator,
            source_list_size_bound,
            source_hiding_beta: 2,
            source_candidate_degree_bound,
            source_expanded_candidate_degree_bound,
            eta_comparison_left,
            eta_comparison_right,
            eta_positive,
            analysis_m_selected_by_ldt_only: true,
            full_composite_optimality_established: false,
            base_rs_parameters_established: true,
            source_list_formula_instantiated: true,
            state_candidate_family_correspondence_established: false,
            common_rs_and_list_size_regime_established: false,
        },
    )
}

/// The largest proximity parameter is half the trace length: with `m` up to there, and with no larger
/// one, `(1 + 1/(2m))^2 > (h + 2) / h`, which is `2 m <= h`.
pub proof fn law_upper_m_is_half_the_trace_length(trace_length: usize, upper: usize, m: nat)
    requires
        call_ensures(compute_upper_m, (trace_length,), upper),
        m > 0,
    ensures
        upper + upper <= trace_length < upper + upper + 2,
        m <= upper <==> trace_length * (4 * m + 1) > 8 * (m * m),
{
    let h = trace_length as int;
    lemma_eta_precondition(h, m as int);
    if upper > 0 {
        lemma_eta_precondition(h, upper as int);
    }
    let next = (upper + 1) as nat;
    assert(next > upper ==> !eta_precondition_holds(trace_length as nat, next));
    lemma_eta_precondition(h, upper + 1);
    let k = m as int;
    assert((h * (4 * k + 1) > 8 * (k * k)) <==> 2 * k <= h) by {
        assert(h * (4 * k + 1) - 8 * (k * k) == 4 * k * (h - 2 * k) + h) by (nonlinear_arith);
        assert(h * ((2 * k + 1) * (2 * k + 1)) - (h + 2) * ((2 * k) * (2 * k)) == 4 * k * (h - 2 * k)
            + h) by (nonlinear_arith);
    }
}

/// When the hiding report is given and what it says, over the arguments of the call.
///
/// The code has dimension `k = 2 h` on `n = k 2^b` points, so rate `2^-b`. The agreement is
/// `(2 m + 1) / (2 m sqrt(2^b))`, and with the distance it makes one. It exceeds `(k + 2) / n`. The
/// list holds at most `L` candidates, `L` the largest integer with `L (k - 2 m) <= m n`, and the
/// constraints cost `K - 1` roots for each. The mask stays one degree below `k`, the reduced mask two.
pub proof fn law_hiding_report_follows_from_its_arguments(
    arguments: (usize, usize, usize, usize, usize, usize, usize, usize, usize),
    result: Option<HidingRbrStateListReport>,
)
    requires
        call_ensures(exact_hiding_rbr_state_list_report, arguments, result),
    ensures
        ({
            let (h, b, m, n) = (
                arguments.0 as int,
                arguments.1 as nat,
                arguments.2 as int,
                arguments.3 as int,
            );
            let constraints = arguments.8 as int;
            let k = h + h;
            let rate = pow2(b) as int;
            &&& result is Some <==> {
                &&& is_pow2(h)
                &&& b >= 2 && b % 2 == 0
                &&& 3 <= m < h
                &&& n == k * rate
                &&& arguments.4 == k && arguments.5 == k && arguments.6 == k - 1 && arguments.7 == k
                    - 2
                &&& constraints >= 2
                &&& (2 * m + 1) * n <= usize::MAX
                &&& (constraints - 1) * ((m * n) / (k - 2 * m)) <= usize::MAX
            }
            &&& result matches Some(report) ==> {
                let list = report.source_list_size_integer_bound as int;
                let (agree, whole) = (
                    report.source_agreement_numerator as int,
                    report.source_agreement_denominator as int,
                );
                &&& report.trace_domain_size == h && report.fri_log_blowup == b
                    && report.proximity_m == m && report.fri_evaluation_domain_size == n
                    && report.constraint_count == constraints
                &&& report.source_hiding_beta * h == report.source_candidate_degree_bound
                &&& report.source_candidate_degree_bound == k
                &&& report.source_rs_rate_numerator == 1 && report.source_rs_rate_denominator == rate
                &&& agree == 2 * m + 1
                &&& whole * whole == (2 * m) * (2 * m) * rate
                &&& report.source_distance_radius_numerator + agree == whole
                &&& report.source_distance_radius_denominator == whole
                &&& report.source_distance_radius_numerator > 0
                &&& report.source_expanded_candidate_degree_bound == k + 2
                &&& report.eta_comparison_left == agree * n && report.eta_comparison_right == whole * (
                k + 2)
                &&& report.eta_comparison_left > report.eta_comparison_right && report.eta_positive
                &&& report.source_list_bound_numerator == m * n
                &&& report.source_list_bound_denominator == k - 2 * m
                &&& list * (k - 2 * m) <= m * n < (list + 1) * (k - 2 * m)
                &&& report.priced_constraint_list_union_numerator + list == constraints * list
                &&& report.randomized_trace_degree_bound_exclusive == k
                    && report.randomized_chunk_degree_bound_exclusive == k
                &&& report.mask_degree_bound_exclusive + 1 == k
                    && report.reduced_mask_degree_bound_exclusive + 2 == k
                    && report.reduced_opening_degree_bound_exclusive + 1 == k
                &&& report.source_protocol2_function_family_shape_established
                    && report.common_rs_and_list_size_regime_established
                    && report.state_candidate_family_correspondence_established
                &&& !report.fiat_shamir_uniformity_established
                    && !report.full_rbr_transfer_established && !report.zero_knowledge_established
            }
        }),
{
    let (h, b, m, n) = (
        arguments.0 as int,
        arguments.1 as nat,
        arguments.2 as int,
        arguments.3 as int,
    );
    let constraints = arguments.8 as int;
    let k = 2 * h;
    if let Some(report) = result {
        let list = report.source_list_size_integer_bound as int;
        lemma_fundamental_div_mod(m * n, k - 2 * m);
        lemma_mod_bound(m * n, k - 2 * m);
        assert(list * (k - 2 * m) <= m * n < (list + 1) * (k - 2 * m)) by (nonlinear_arith)
            requires
                m * n == (k - 2 * m) * list + (m * n) % (k - 2 * m),
                0 <= (m * n) % (k - 2 * m) < k - 2 * m,
        ;
        law_sqrt_rate_is_exact(b);
        let s = sqrt_rate_reciprocal(b) as int;
        let whole = report.source_agreement_denominator as int;
        assert(whole * whole == (2 * m) * (2 * m) * (s * s)) by (nonlinear_arith)
            requires
                whole == 2 * m * s,
        ;
        assert((constraints - 1) * list + list == constraints * list) by (nonlinear_arith);
    }
}

/// When the base-code report is given and what it says, over the arguments of the call.
///
/// The code has dimension `h` on `n = h 2^b` points. The radius and the agreement
/// `(2 m + 1) / (2 m sqrt(2^b))` make one, and the list holds `(m + 1/2) sqrt(2^b)` candidates. The
/// comparison of the agreement with `(2 h + 2) / n` asks at blowup four for a trace longer than `2 m`.
pub proof fn law_base_report_follows_from_its_arguments(
    arguments: (usize, usize, usize, usize, usize, usize),
    result: Option<LdrListParameterReport>,
)
    requires
        call_ensures(exact_ldr_list_parameter_report, arguments, result),
    ensures
        ({
            let (h, n, b, m) = (
                arguments.0 as int,
                arguments.1 as int,
                arguments.2 as nat,
                arguments.3 as int,
            );
            let rate = pow2(b) as int;
            &&& result is Some <==> {
                &&& is_pow2(h)
                &&& b >= 2 && b % 2 == 0
                &&& m >= 3
                &&& n == h * rate
                &&& arguments.4 == 2 * h && arguments.5 == 2 * h + 2
                &&& b >= 4 || h > 2 * m
                &&& (2 * m + 1) * n <= usize::MAX
            }
            &&& result matches Some(report) ==> {
                let root = report.sqrt_rate_reciprocal as int;
                let whole = report.proximity_radius_denominator as int;
                &&& report.trace_domain_size == h && report.evaluation_domain_size == n
                    && report.log_blowup == b && report.proximity_m == m
                &&& report.base_rs_dimension == h
                &&& report.base_rs_rate_numerator == 1 && report.base_rs_rate_denominator == rate
                &&& root * root == rate
                &&& whole * whole == (2 * m) * (2 * m) * rate
                &&& report.proximity_radius_numerator + (2 * m + 1) == whole
                &&& report.source_list_size_bound + report.source_list_size_bound == (2 * m + 1)
                    * root
                &&& report.source_hiding_beta * h == report.source_candidate_degree_bound
                &&& report.source_candidate_degree_bound == 2 * h
                &&& report.source_expanded_candidate_degree_bound == 2 * h + 2
                &&& report.eta_comparison_left == (2 * m + 1) * n
                &&& report.eta_comparison_right == (2 * h + 2) * whole
                &&& report.eta_comparison_left > report.eta_comparison_right && report.eta_positive
                &&& report.analysis_m_selected_by_ldt_only && report.base_rs_parameters_established
                    && report.source_list_formula_instantiated
                &&& !report.full_composite_optimality_established
                    && !report.state_candidate_family_correspondence_established
                    && !report.common_rs_and_list_size_regime_established
            }
        }),
{
    let (h, n, b, m) = (
        arguments.0 as nat,
        arguments.1 as nat,
        arguments.2 as nat,
        arguments.3 as nat,
    );
    if base_code_shape(h, n, b, m, arguments.4 as nat, arguments.5 as nat) {
        law_eta_is_positive_from_a_trace_length_on(
            h,
            n,
            b,
            m,
            arguments.4 as nat,
            arguments.5 as nat,
        );
        law_sqrt_rate_is_exact(b);
        let s = sqrt_rate_reciprocal(b) as int;
        let whole = agreement_denominator(m, b) as int;
        assert(whole * whole == (2 * m) * (2 * m) * (s * s)) by (nonlinear_arith)
            requires
                whole == 2 * m * s,
        ;
    }
}

} // verus!
