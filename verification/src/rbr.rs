//! Exact ideal-IOP round-by-round state and failure-event bookkeeping for the
//! concrete hiding FRI profile.
//!
//! The source state proof is [2021/582, Theorem 5], as adapted to the hiding
//! family in [2024/1553, Theorem 2].  The printed round count in both sources
//! says `3 + |t|`, while the proof itself enumerates three pre-FRI events, one
//! event for every FRI reduction challenge, and a final query event, i.e.
//! `4 + |t|`.  This module follows the proof-consistent ledger and records the
//! discrepancy instead of silently dropping the last reduction event.
//!
//! Plonky3 combines the opening quotients with powers of one challenge.  The
//! batching event is therefore priced with the degree-`M` curve theorem
//! [2025/2055, Theorem 4.2], not as independent coefficients.  Each binary FRI
//! reduction event uses its line specialization, Theorem 1.5.
//!
//! This is an ideal public-coin IOP result.  It deliberately excludes the
//! Fiat--Shamir/ROM reduction, commitment binding, proof-of-work grinding,
//! zero knowledge, and deployment binding.
use crate::natural::Natural;
use crate::powers::is_power_of_two;
use crate::rational::{ceil_div, lemma_ceil_div, lemma_ceil_div_cancel, PositiveRational};
use crate::slices::copy_slice;
use vstd::arithmetic::div_mod::*;
use vstd::arithmetic::mul::*;
use vstd::arithmetic::power::*;
use vstd::arithmetic::power2::*;
use vstd::prelude::*;

verus! {

/// One exact non-negative failure probability. Its view is the fraction's two parts.
#[derive(Debug, PartialEq, Eq)]
pub struct ExactErrorFraction {
    pub numerator: Natural,
    pub denominator: Natural,
}

impl View for ExactErrorFraction {
    type V = (nat, nat);

    open spec fn view(&self) -> (nat, nat) {
        (self.numerator@, self.denominator@)
    }
}

impl ExactErrorFraction {
    /// `numerator / denominator`, or nothing where that is not a probability below one.
    fn new(numerator: Natural, denominator: Natural) -> (r: Option<Self>)
        ensures
            r is Some <==> numerator@ < denominator@,
            r is Some ==> r->0@ == (numerator@, denominator@),
    {
        if numerator.less_than(&denominator) {
            Some(ExactErrorFraction { numerator, denominator })
        } else {
            None
        }
    }

    /// Whether `self > other`.
    fn exceeds(&self, other: &Self) -> (r: bool)
        ensures
            r == below(other@, self@),
    {
        other.numerator.times(&self.denominator).less_than(
            &self.numerator.times(&other.denominator),
        )
    }
}

impl Clone for ExactErrorFraction {
    fn clone(&self) -> (r: Self)
        ensures
            r@ == self@,
    {
        ExactErrorFraction {
            numerator: self.numerator.clone(),
            denominator: self.denominator.clone(),
        }
    }
}

/// The fraction `x` is smaller than the fraction `y`.
pub open spec fn below(x: (nat, nat), y: (nat, nat)) -> bool {
    x.0 * y.1 < y.0 * x.1
}

/// Stable identity of the largest event in the exact RbR vector.
#[derive(Clone, Copy, Debug, Eq, PartialEq)]
pub enum FriRbrFailureEvent {
    ConstraintCombination,
    DeepEvaluation,
    OpeningBatchCombination,
    FriCommitRound(usize),
    FriQueries,
}

/// Complete proof-consistent event ledger for one fixed ideal-IOP profile.
#[derive(Clone, Debug, Eq, PartialEq)]
pub struct FriRbrStateTransitionReport {
    pub trace_domain_size: usize,
    pub source_candidate_degree_bound: usize,
    pub fri_evaluation_domain_size: usize,
    pub verifier_rejected_trace_domain_size: usize,
    pub evaluation_trace_domain_union_size: usize,
    pub source_list_size_integer_bound: usize,
    pub constraint_count: usize,
    pub input_batch_count: usize,
    pub input_matrix_count: usize,
    pub input_matrix_widths: Vec<usize>,
    pub input_matrix_opening_point_counts: Vec<usize>,
    pub opening_batch_function_count: usize,
    pub opening_batch_curve_degree: usize,
    pub fri_log_arities: Vec<usize>,
    pub fri_input_height: usize,
    pub fri_input_degree_bound: usize,
    pub fri_log_blowup: usize,
    pub fri_max_log_arity: usize,
    pub fri_commit_round_count: usize,
    pub num_queries: usize,
    pub source_printed_round_count: usize,
    pub proof_consistent_round_count: usize,
    pub failure_event_count: usize,
    pub source_round_count_indexing_discrepancy: bool,
    pub source_round_count_interpretation_author_confirmed: bool,
    pub source_error_vector_reused_verbatim: bool,
    pub source_state_ledger_adapted_with_bchks25_bounds: bool,
    pub constraint_combination_error: ExactErrorFraction,
    pub deep_evaluation_error: ExactErrorFraction,
    pub opening_batch_error: ExactErrorFraction,
    pub fri_commit_round_errors: Vec<ExactErrorFraction>,
    pub fri_query_error: ExactErrorFraction,
    pub maximum_failure_event: FriRbrFailureEvent,
    pub ideal_iop_rbr_error: ExactErrorFraction,
    pub verifier_degree_bound_established: bool,
    pub complete_failure_event_ledger_established: bool,
    pub proof_consistent_ideal_iop_rbr_correspondence_established: bool,
    pub fiat_shamir_rom_uniformity_established: bool,
    pub commitment_binding_established: bool,
    pub zero_knowledge_established: bool,
}

impl FriRbrStateTransitionReport {
    /// The failure probabilities of all events, in ledger order.
    pub open spec fn event_errors(self) -> Seq<(nat, nat)> {
        event_ledger(
            self.constraint_combination_error,
            self.deep_evaluation_error,
            self.opening_batch_error,
            self.fri_commit_round_errors@,
            self.fri_query_error,
        )
    }
}

/// The failure probabilities of all events: the three before FRI, one per FRI commit round, and
/// the queries.
pub open spec fn event_ledger(
    constraint: ExactErrorFraction,
    deep: ExactErrorFraction,
    batch: ExactErrorFraction,
    rounds: Seq<ExactErrorFraction>,
    query: ExactErrorFraction,
) -> Seq<(nat, nat)> {
    seq![constraint@, deep@, batch@] + Seq::new(rounds.len(), |i: int| rounds[i]@) + seq![query@]
}

/// The event that stands at `index` of a ledger with `round_count` FRI commit rounds.
pub open spec fn event_at(index: int, round_count: nat) -> FriRbrFailureEvent {
    if index == 0 {
        FriRbrFailureEvent::ConstraintCombination
    } else if index == 1 {
        FriRbrFailureEvent::DeepEvaluation
    } else if index == 2 {
        FriRbrFailureEvent::OpeningBatchCombination
    } else if index < 3 + round_count {
        FriRbrFailureEvent::FriCommitRound((index - 3) as usize)
    } else {
        FriRbrFailureEvent::FriQueries
    }
}

/// Among the first `count` fractions none exceeds the one at `index`, and those before it are
/// smaller.
pub open spec fn first_maximum(errors: Seq<(nat, nat)>, count: int, index: int) -> bool {
    &&& 0 <= index < count
    &&& forall|j: int| 0 <= j < count ==> !below(errors[index], #[trigger] errors[j])
    &&& forall|j: int| 0 <= j < index ==> below(#[trigger] errors[j], errors[index])
}

/// `event` is the first of the ledger that fails with the largest probability, which is `error`.
pub open spec fn is_largest_event(
    errors: Seq<(nat, nat)>,
    round_count: nat,
    event: FriRbrFailureEvent,
    error: (nat, nat),
) -> bool {
    exists|index: int|
        first_maximum(errors, errors.len() as int, index) && event == event_at(index, round_count)
            && error == errors[index]
}

proof fn lemma_below_transitive(x: (nat, nat), y: (nat, nat), z: (nat, nat))
    requires
        x.1 > 0,
        y.1 > 0,
        z.1 > 0,
        !below(y, x),
        below(y, z),
    ensures
        below(x, z),
{
    let (a, b, c, d, e, f) = (x.0, x.1, y.0, y.1, z.0, z.1);
    assert(a * f < e * b) by (nonlinear_arith)
        requires
            b > 0,
            d > 0,
            f > 0,
            c * b >= a * d,
            c * f < e * d,
    ;
}

/// Looking at one more fraction, the maximum moves exactly if that one is larger.
proof fn lemma_first_maximum_step(errors: Seq<(nat, nat)>, count: int, index: int)
    requires
        first_maximum(errors, count, index),
        count < errors.len(),
        forall|j: int| 0 <= j < errors.len() ==> (#[trigger] errors[j]).1 > 0,
    ensures
        below(errors[index], errors[count]) ==> first_maximum(errors, count + 1, count),
        !below(errors[index], errors[count]) ==> first_maximum(errors, count + 1, index),
{
    if below(errors[index], errors[count]) {
        assert forall|j: int| 0 <= j < count implies below(#[trigger] errors[j], errors[count]) by {
            lemma_below_transitive(errors[j], errors[index], errors[count]);
        }
        assert forall|j: int| 0 <= j < count + 1 implies !below(
            errors[count],
            #[trigger] errors[j],
        ) by {
        }
    }
}

/// The event with the largest failure probability, the earliest of the ledger where several are
/// as large, and that probability.
fn largest_failure_event(
    constraint: &ExactErrorFraction,
    deep: &ExactErrorFraction,
    batch: &ExactErrorFraction,
    rounds: &Vec<ExactErrorFraction>,
    query: &ExactErrorFraction,
) -> (r: (FriRbrFailureEvent, ExactErrorFraction))
    requires
        forall|j: int|
            0 <= j < rounds.len() + 4 ==> (#[trigger] event_ledger(
                *constraint,
                *deep,
                *batch,
                rounds@,
                *query,
            )[j]).1 > 0,
    ensures
        is_largest_event(
            event_ledger(*constraint, *deep, *batch, rounds@, *query),
            rounds@.len(),
            r.0,
            r.1@,
        ),
{
    let ghost errors = event_ledger(*constraint, *deep, *batch, rounds@, *query);
    let ghost mut index: int = 0;
    let mut event: FriRbrFailureEvent = FriRbrFailureEvent::ConstraintCombination;
    let mut error: ExactErrorFraction = constraint.clone();
    assert(errors[0] == constraint@ && errors[1] == deep@ && errors[2] == batch@);
    assert(first_maximum(errors, 1, 0));
    proof {
        lemma_first_maximum_step(errors, 1, index);
    }
    if deep.exceeds(&error) {
        event = FriRbrFailureEvent::DeepEvaluation;
        error = deep.clone();
        proof {
            index = 1;
        }
    }
    proof {
        lemma_first_maximum_step(errors, 2, index);
    }
    if batch.exceeds(&error) {
        event = FriRbrFailureEvent::OpeningBatchCombination;
        error = batch.clone();
        proof {
            index = 2;
        }
    }
    let mut round: usize = 0;
    while round < rounds.len()
        invariant
            round <= rounds.len(),
            errors == event_ledger(*constraint, *deep, *batch, rounds@, *query),
            forall|j: int| 0 <= j < errors.len() ==> (#[trigger] errors[j]).1 > 0,
            first_maximum(errors, 3 + round, index),
            event == event_at(index, rounds@.len()),
            error@ == errors[index],
        decreases rounds.len() - round,
    {
        proof {
            assert(errors[3 + round] == rounds[round as int]@);
            lemma_first_maximum_step(errors, 3 + round, index);
        }
        if rounds[round].exceeds(&error) {
            event = FriRbrFailureEvent::FriCommitRound(round);
            error = rounds[round].clone();
            proof {
                index = 3 + round;
            }
        }
        round = round + 1;
    }
    proof {
        assert(errors[3 + rounds.len()] == query@);
        lemma_first_maximum_step(errors, 3 + rounds.len(), index);
    }
    if query.exceeds(&error) {
        event = FriRbrFailureEvent::FriQueries;
        error = query.clone();
        proof {
            index = 3 + rounds.len();
        }
    }
    assert(first_maximum(errors, errors.len() as int, index));
    (event, error)
}

/// The error numerator of the degree-`d` curve theorem over a domain of `n` points with
/// multiplicity `m`, where `a / b` bounds the square root of the rate from below.
///
/// With `s = m + 1/2`, `gamma = 5/12` and `rho = 1/4` the theorem displays
///
/// `d * (n * (2 s^5 + 3 s gamma rho) / (3 (a/b)^3) + s / (a/b))`
///
/// which is `d u b (n b^2 (2 u^4 + 5) + 48 a^2) / (96 a^3)` for `u = 2 m + 1`. The numerator is
/// that, rounded up.
pub open spec fn curve_error_numerator(n: nat, m: nat, d: nat, a: nat, b: nat) -> nat {
    let u = 2 * m + 1;
    ceil_div(d * u * b * (n * b * b * (2 * (u * u * u * u) + 5) + 48 * a * a), 96 * (a * a * a))
}

pub proof fn lemma_pow_three(x: int)
    ensures
        pow(x, 3) == x * x * x,
{
    lemma_square_is_pow2(x);
    lemma_pow_adds(x, 2, 1);
    lemma_pow1(x);
}

pub proof fn lemma_pow_five(x: int)
    ensures
        pow(x, 5) == x * (x * x * x * x),
{
    lemma_pow_three(x);
    lemma_square_is_pow2(x);
    lemma_pow_adds(x, 3, 2);
    assert((x * x * x) * (x * x) == x * (x * x * x * x)) by (nonlinear_arith);
}

/// The fraction that the operations build is the closed form with `192 a` in both parts.
proof fn lemma_curve_fraction(n: int, d: int, u: int, a: int, b: int, lead: int, lead_den: int)
    requires
        lead == 96 * (u * (2 * (u * u * u * u) + 5)),
        lead_den == 3072,
    ensures
        ((((lead * (b * b * b)) * n) * (2 * a) + (u * b) * (lead_den * (a * a * a * 3))) * d) == (192
            * a) * (d * u * b * (n * b * b * (2 * (u * u * u * u) + 5) + 48 * a * a)),
        (lead_den * (a * a * a * 3)) * (2 * a) == (192 * a) * (96 * (a * a * a)),
{
    let q = 2 * (u * u * u * u) + 5;
    let left = ((96 * (u * q) * (b * b * b)) * n) * (2 * a);
    let right = (u * b) * (3072 * (a * a * a * 3));
    assert(left == 192 * a * (u * b * (n * b * b * q))) by (nonlinear_arith)
        requires
            left == ((96 * (u * q) * (b * b * b)) * n) * (2 * a),
    ;
    assert(right == 192 * a * (u * b * (48 * a * a))) by (nonlinear_arith)
        requires
            right == (u * b) * (3072 * (a * a * a * 3)),
    ;
    let x = n * b * b * q;
    let y = 48 * a * a;
    let ub = u * b;
    assert((left + right) * d == (192 * a) * (d * ub * (x + y))) by (nonlinear_arith)
        requires
            left == 192 * a * (ub * x),
            right == 192 * a * (ub * y),
    ;
    lemma_mul_is_associative(d, u, b);
    assert((3072 * (a * a * a * 3)) * (2 * a) == (192 * a) * (96 * (a * a * a)))
        by (nonlinear_arith);
}

/// The error numerator of the curve theorem, rounded up, or nothing where the theorem does not
/// speak (no points, a multiplicity below three, a constant curve) or `2 m + 1` exceeds the word.
fn proximity_curve_error_numerator_upper(
    domain_size: usize,
    theorem_m: usize,
    curve_degree: usize,
    sqrt_rate_lower: &PositiveRational,
) -> (r: Option<Natural>)
    requires
        sqrt_rate_lower.well_formed(),
    ensures
        r is Some <==> domain_size > 0 && theorem_m >= 3 && curve_degree > 0 && 2 * theorem_m + 1
            <= usize::MAX,
        r is Some ==> r->0@ == curve_error_numerator(
            domain_size as nat,
            theorem_m as nat,
            curve_degree as nat,
            sqrt_rate_lower.numerator@,
            sqrt_rate_lower.denominator@,
        ),
{
    if domain_size == 0 || theorem_m < 3 || curve_degree == 0 {
        return None;
    }
    let odd: usize = theorem_m.checked_mul(2)?.checked_add(1)?;
    let shifted_m: PositiveRational = PositiveRational::from_usize(odd, 2)?;
    let gamma: PositiveRational = PositiveRational::from_usize(5, 12)?;
    let rho_upper: PositiveRational = PositiveRational::from_usize(1, 4)?;
    let fifth_power: PositiveRational = shifted_m.pow(5).scale(2);
    let cross_term: PositiveRational = shifted_m.mul(&gamma).mul(&rho_upper).scale(3);
    let leading: PositiveRational = fifth_power.add(&cross_term);
    let denominator: PositiveRational = sqrt_rate_lower.pow(3).scale(3);
    let main: PositiveRational = leading.div(&denominator).scale(domain_size);
    let tail: PositiveRational = shifted_m.div(sqrt_rate_lower);
    let total: PositiveRational = main.add(&tail).scale(curve_degree);
    proof {
        let u = odd as int;
        let a = sqrt_rate_lower.numerator@ as int;
        let b = sqrt_rate_lower.denominator@ as int;
        lemma_pow_five(u);
        lemma_pow_five(2);
        lemma_pow_three(a);
        lemma_pow_three(b);
        let u4 = u * u * u * u;
        assert(fifth_power.denominator@ == 32 && cross_term.denominator@ == 96);
        assert(fifth_power.numerator@ == (u * u4) * 2 && cross_term.numerator@ == u * 5 * 1 * 3);
        assert(leading.denominator@ == 3072) by (nonlinear_arith)
            requires
                leading.denominator@ == fifth_power.denominator@ * cross_term.denominator@,
                fifth_power.denominator@ == 32,
                cross_term.denominator@ == 96,
        ;
        assert(leading.numerator@ == 96 * (u * (2 * u4 + 5))) by (nonlinear_arith)
            requires
                leading.numerator@ == (u * u4) * 2 * 96 + (u * 5 * 1 * 3) * 32,
        ;
        lemma_curve_fraction(
            domain_size as int,
            curve_degree as int,
            u,
            a,
            b,
            leading.numerator@ as int,
            leading.denominator@ as int,
        );
        lemma_mul_strictly_positive(a, a);
        lemma_mul_strictly_positive(a * a, a);
        lemma_mul_nonnegative(u, b);
        let x = (curve_degree as nat) * (u as nat) * (b as nat) * ((domain_size as nat) * (b as nat)
            * (b as nat) * (2 * (u4 as nat) + 5) + 48 * (a as nat) * (a as nat));
        lemma_ceil_div_cancel((192 * a) as nat, x, (96 * (a * a * a)) as nat);
    }
    Some(total.ceil())
}

/// The larger of two fractions has the larger ceiling.
proof fn lemma_ceil_div_monotonic(x: nat, y: nat, larger_x: nat, larger_y: nat)
    requires
        y > 0,
        larger_y > 0,
        x * larger_y <= larger_x * y,
    ensures
        ceil_div(x, y) <= ceil_div(larger_x, larger_y),
{
    let q = ceil_div(larger_x, larger_y);
    lemma_ceil_div(larger_x, larger_y, q);
    let c = ceil_div(x, y);
    lemma_ceil_div(x, y, c);
    if c > q {
        lemma_mul_inequality(q as int, c - 1, y as int);
        assert(q * y * larger_y < x * larger_y) by (nonlinear_arith)
            requires
                q * y < x,
                larger_y > 0,
        ;
        assert(larger_x * y <= q * larger_y * y) by (nonlinear_arith)
            requires
                larger_x <= q * larger_y,
                y > 0,
        ;
        assert(q * y * larger_y == q * larger_y * y) by (nonlinear_arith);
    }
}

/// A lower bound on the square root of the rate gives an upper bound on the error: for
/// `a / b <= c / e` the numerator at `a / b` is at least that at `c / e`.
pub proof fn law_lower_rate_bounds_are_conservative(
    n: nat,
    m: nat,
    d: nat,
    a: nat,
    b: nat,
    c: nat,
    e: nat,
)
    requires
        a > 0,
        c > 0,
        a * e <= c * b,
    ensures
        curve_error_numerator(n, m, d, c, e) <= curve_error_numerator(n, m, d, a, b),
{
    let u = 2 * m + 1;
    let q = 2 * (u * u * u * u) + 5;
    let nq = n * q;
    let du = d * u;
    let x = d * u * b * (n * b * b * q + 48 * a * a);
    let y = 96 * (a * a * a);
    let small_x = d * u * e * (n * e * e * q + 48 * c * c);
    let small_y = 96 * (c * c * c);
    // With p = b c and r = a e, both products are 96 d u (n q p^3 + 48 (a c)^2 p).
    let p = b * c;
    let r = a * e;
    let ac = a * c;
    lemma_mul_is_commutative(c as int, b as int);
    assert(x * small_y == 96 * (du * (nq * (p * p * p) + 48 * (ac * ac) * p))) by {
        lemma_curve_cross_product(du as int, n as int, q as int, a as int, b as int, c as int);
    }
    assert(small_x * y == 96 * (du * (nq * (r * r * r) + 48 * (ac * ac) * r))) by {
        lemma_curve_cross_product(du as int, n as int, q as int, c as int, e as int, a as int);
        lemma_mul_is_commutative(a as int, c as int);
        lemma_mul_is_commutative(a as int, e as int);
    }
    assert(r * r * r <= p * p * p) by (nonlinear_arith)
        requires
            0 <= r <= p,
    ;
    assert(du * (nq * (r * r * r) + 48 * (ac * ac) * r) <= du * (nq * (p * p * p) + 48 * (ac * ac)
        * p)) by (nonlinear_arith)
        requires
            0 <= r <= p,
            r * r * r <= p * p * p,
            0 <= nq,
            0 <= du,
            0 <= ac * ac,
    ;
    assert(y > 0 && small_y > 0) by (nonlinear_arith)
        requires
            y == 96 * (a * a * a),
            small_y == 96 * (c * c * c),
            a > 0,
            c > 0,
    ;
    lemma_ceil_div_monotonic(small_x, small_y, x, y);
}

proof fn lemma_curve_cross_product(du: int, n: int, q: int, a: int, b: int, c: int)
    ensures
        du * b * (n * b * b * q + 48 * a * a) * (96 * (c * c * c)) == 96 * (du * ((n * q) * ((b * c) * (
        b * c) * (b * c)) + 48 * ((a * c) * (a * c)) * (b * c))),
{
    let left = b * (n * b * b * q) * (c * c * c);
    let right = b * (48 * a * a) * (c * c * c);
    assert(left == (n * q) * ((b * c) * (b * c) * (b * c))) by (nonlinear_arith)
        requires
            left == b * (n * b * b * q) * (c * c * c),
    ;
    assert(right == 48 * ((a * c) * (a * c)) * (b * c)) by (nonlinear_arith)
        requires
            right == b * (48 * a * a) * (c * c * c),
    ;
    let f = n * b * b * q;
    let g = 48 * a * a;
    let k = c * c * c;
    assert(du * b * (f + g) * (96 * k) == 96 * (du * (b * f * k + b * g * k))) by (nonlinear_arith);
}

/// A smaller domain has no larger error.
proof fn lemma_curve_error_grows_with_the_domain(n: nat, larger: nat, m: nat, d: nat, a: nat, b: nat)
    requires
        a > 0,
        n <= larger,
    ensures
        curve_error_numerator(n, m, d, a, b) <= curve_error_numerator(larger, m, d, a, b),
{
    let u = 2 * m + 1;
    let q = 2 * (u * u * u * u) + 5;
    let front = d * u * b;
    let y = 96 * (a * a * a);
    let tail = 48 * a * a;
    let x = front * (n * b * b * q + tail);
    let larger_x = front * (larger * b * b * q + tail);
    let weight = b * b * q;
    assert(n * b * b * q == n * weight && larger * b * b * q == larger * weight)
        by (nonlinear_arith)
        requires
            weight == b * b * q,
    ;
    lemma_mul_inequality(n as int, larger as int, weight as int);
    lemma_mul_inequality(
        (n * weight + tail) as int,
        (larger * weight + tail) as int,
        front as int,
    );
    lemma_mul_is_commutative((n * weight + tail) as int, front as int);
    lemma_mul_is_commutative((larger * weight + tail) as int, front as int);
    assert(y > 0) by (nonlinear_arith)
        requires
            y == 96 * (a * a * a),
            a > 0,
    ;
    lemma_mul_inequality(x as int, larger_x as int, y as int);
    lemma_ceil_div_monotonic(x, y, larger_x, y);
}

/// How many opened columns there are over all matrices: each matrix counts its width once per
/// opening point.
pub open spec fn opened_column_count(widths: Seq<usize>, points: Seq<usize>) -> nat
    decreases widths.len(),
{
    if widths.len() == 0 {
        0
    } else {
        opened_column_count(widths.drop_last(), points.drop_last()) + widths.last() as nat
            * points.last() as nat
    }
}

proof fn lemma_opened_column_prefix(widths: Seq<usize>, points: Seq<usize>, count: int)
    requires
        widths.len() == points.len(),
        0 <= count <= widths.len(),
    ensures
        opened_column_count(widths.take(count), points.take(count)) <= opened_column_count(
            widths,
            points,
        ),
    decreases widths.len(),
{
    if count == widths.len() {
        assert(widths.take(count) =~= widths);
        assert(points.take(count) =~= points);
    } else {
        lemma_opened_column_prefix(widths.drop_last(), points.drop_last(), count);
        assert(widths.drop_last().take(count) =~= widths.take(count));
        assert(points.drop_last().take(count) =~= points.take(count));
    }
}

/// The number of opened columns, or nothing where a matrix is empty or unopened or the number
/// exceeds the word.
fn count_opened_columns(widths: &[usize], points: &[usize]) -> (r: Option<usize>)
    requires
        widths@.len() == points@.len(),
    ensures
        r is Some <==> {
            &&& forall|i: int| 0 <= i < widths@.len() ==> #[trigger] widths@[i] > 0
            &&& forall|i: int| 0 <= i < widths@.len() ==> #[trigger] points@[i] > 0
            &&& opened_column_count(widths@, points@) <= usize::MAX
        },
        r is Some ==> r->0 == opened_column_count(widths@, points@),
{
    let mut total: usize = 0;
    let mut i: usize = 0;
    while i < widths.len()
        invariant
            i <= widths.len(),
            widths@.len() == points@.len(),
            forall|j: int| 0 <= j < i ==> #[trigger] widths@[j] > 0,
            forall|j: int| 0 <= j < i ==> #[trigger] points@[j] > 0,
            total == opened_column_count(widths@.take(i as int), points@.take(i as int)),
        decreases widths.len() - i,
    {
        let width: usize = widths[i];
        let point_count: usize = points[i];
        if width == 0 || point_count == 0 {
            return None;
        }
        proof {
            let next = i + 1;
            lemma_opened_column_prefix(widths@, points@, next);
            assert(widths@.take(next).drop_last() =~= widths@.take(i as int));
            assert(points@.take(next).drop_last() =~= points@.take(i as int));
        }
        total = total.checked_add(width.checked_mul(point_count)?)?;
        i = i + 1;
    }
    assert(widths@.take(i as int) =~= widths@);
    assert(points@.take(i as int) =~= points@);
    Some(total)
}

/// What a union over the candidate list costs the constraint combination.
pub open spec fn constraint_error_numerator(constraint_count: nat, list_size: nat) -> int {
    (constraint_count - 1) * list_size
}

/// The larger of the two degrees that the DEEP evaluation tests: that of the constraints of
/// degree `constraint_degree` at the expanded bound, and that of the recomposed quotient of
/// `segment_count` segments.
pub open spec fn deep_degree(
    degree_bound: nat,
    expanded_degree_bound: nat,
    segment_count: nat,
    segment_length: nat,
    constraint_degree: nat,
) -> int {
    let constraints = constraint_degree * (expanded_degree_bound - 1) + (degree_bound - 1);
    let recomposition = degree_bound + (segment_count - 1) * segment_length + (expanded_degree_bound
        - 1);
    if constraints >= recomposition {
        constraints
    } else {
        recomposition
    }
}

/// The DEEP degree for every pair of candidates of the list, and every forbidden point that the
/// verifier does not reject.
pub open spec fn deep_error_numerator(degree: int, list_size: nat, accepted_forbidden: int) -> int {
    degree * (list_size * list_size) + accepted_forbidden
}

/// The numerator of the DEEP evaluation error, or nothing where it exceeds the word.
fn checked_deep_error_numerator(
    degree_bound: usize,
    expanded_degree_bound: usize,
    segment_count: usize,
    segment_length: usize,
    constraint_degree: usize,
    list_size: usize,
    accepted_forbidden: usize,
) -> (r: Option<usize>)
    requires
        degree_bound > 0,
        expanded_degree_bound > 0,
        segment_count > 0,
        list_size > 0,
    ensures
        ({
            let numerator = deep_error_numerator(
                deep_degree(
                    degree_bound as nat,
                    expanded_degree_bound as nat,
                    segment_count as nat,
                    segment_length as nat,
                    constraint_degree as nat,
                ),
                list_size as nat,
                accepted_forbidden as int,
            );
            &&& r is Some <==> numerator <= usize::MAX
            &&& r is Some ==> r->0 == numerator
        }),
{
    proof {
        let degree = deep_degree(
            degree_bound as nat,
            expanded_degree_bound as nat,
            segment_count as nat,
            segment_length as nat,
            constraint_degree as nat,
        );
        lemma_mul_nonnegative(constraint_degree as int, expanded_degree_bound - 1);
        lemma_mul_nonnegative(segment_count - 1, segment_length as int);
        let square = (list_size * list_size) as int;
        assert(square >= 1) by (nonlinear_arith)
            requires
                square == list_size * list_size,
                list_size >= 1,
        ;
        assert(degree * square >= degree && degree * square >= square) by (nonlinear_arith)
            requires
                degree >= 1,
                square >= 1,
        ;
    }
    let constraints: usize = constraint_degree.checked_mul(
        expanded_degree_bound - 1,
    )?.checked_add(degree_bound - 1)?;
    let recomposition: usize = degree_bound.checked_add(
        (segment_count - 1).checked_mul(segment_length)?,
    )?.checked_add(expanded_degree_bound - 1)?;
    let degree: usize = if constraints >= recomposition {
        constraints
    } else {
        recomposition
    };
    let list_factor: usize = list_size.checked_mul(list_size)?;
    degree.checked_mul(list_factor)?.checked_add(accepted_forbidden)
}

/// The error numerator of one binary FRI reduction, the line case of the curve theorem, over the
/// domain that is left after `round` halvings.
pub open spec fn commit_round_error_numerator(domain_size: nat, degree_bound: nat, round: nat) -> nat {
    curve_error_numerator(
        domain_size / pow2(round),
        3,
        1,
        (degree_bound - 2) as nat,
        2 * degree_bound,
    )
}

/// The error numerator of batching `function_count` openings with powers of one challenge.
pub open spec fn opening_batch_error_numerator(
    domain_size: nat,
    degree_bound: nat,
    function_count: nat,
) -> nat {
    curve_error_numerator(
        domain_size,
        6,
        (function_count - 1) as nat,
        (degree_bound - 2) as nat,
        2 * degree_bound,
    )
}

/// In the given round there is a domain left and the error is below one.
pub open spec fn commit_round_is_priced(
    domain_size: nat,
    degree_bound: nat,
    field: nat,
    round: int,
) -> bool {
    &&& domain_size / pow2(round as nat) > 0
    &&& commit_round_error_numerator(domain_size, degree_bound, round as nat) < field
}

pub proof fn lemma_halving(n: nat, round: nat)
    ensures
        n / pow2(round) / 2 == n / pow2(round + 1),
{
    lemma_pow2_unfold(round + 1);
    lemma_pow2_pos(round);
    lemma_div_denominator(n as int, pow2(round) as int, 2);
    lemma_mul_is_commutative(pow2(round) as int, 2);
}

proof fn lemma_halving_decreases(n: nat, first: nat, second: nat)
    requires
        first <= second,
    ensures
        n / pow2(second) <= n / pow2(first),
    decreases second - first,
{
    if first < second {
        lemma_halving(n, first);
        lemma_halving_decreases(n, first + 1, second);
    }
}

/// The error of each FRI reduction and the size of the domain after the last, or nothing where a
/// domain is used up or an error is not below one.
fn commit_round_errors(
    domain_size: usize,
    degree_bound: usize,
    round_count: usize,
    sqrt_rate_lower: &PositiveRational,
    field: &Natural,
) -> (r: Option<(Vec<ExactErrorFraction>, usize)>)
    requires
        degree_bound > 2,
        sqrt_rate_lower.well_formed(),
        sqrt_rate_lower.numerator@ == degree_bound - 2,
        sqrt_rate_lower.denominator@ == 2 * degree_bound,
    ensures
        r is Some <==> forall|i: int|
            0 <= i < round_count ==> #[trigger] commit_round_is_priced(
                domain_size as nat,
                degree_bound as nat,
                field@,
                i,
            ),
        r matches Some(found) ==> found.0@.len() == round_count && found.1 == domain_size as nat
            / pow2(round_count as nat) && forall|i: int|
            0 <= i < round_count ==> (#[trigger] found.0@[i])@ == (
                commit_round_error_numerator(domain_size as nat, degree_bound as nat, i as nat),
                field@,
            ),
{
    let mut errors: Vec<ExactErrorFraction> = Vec::new();
    let mut round_domain_size: usize = domain_size;
    let mut round: usize = 0;
    proof {
        lemma_pow0(2);
        lemma_div_basics(domain_size as int);
    }
    while round < round_count
        invariant
            round <= round_count,
            degree_bound > 2,
            sqrt_rate_lower.well_formed(),
            sqrt_rate_lower.numerator@ == degree_bound - 2,
            sqrt_rate_lower.denominator@ == 2 * degree_bound,
            errors@.len() == round,
            round_domain_size == domain_size as nat / pow2(round as nat),
            forall|i: int|
                0 <= i < round ==> #[trigger] commit_round_is_priced(
                    domain_size as nat,
                    degree_bound as nat,
                    field@,
                    i,
                ),
            forall|i: int|
                0 <= i < round ==> (#[trigger] errors@[i])@ == (
                    commit_round_error_numerator(domain_size as nat, degree_bound as nat, i as nat),
                    field@,
                ),
        decreases round_count - round,
    {
        let ghost priced = commit_round_is_priced(
            domain_size as nat,
            degree_bound as nat,
            field@,
            round as int,
        );
        let numerator: Natural = proximity_curve_error_numerator_upper(
            round_domain_size,
            3,
            1,
            sqrt_rate_lower,
        )?;
        let error: ExactErrorFraction = ExactErrorFraction::new(numerator, field.clone())?;
        errors.push(error);
        proof {
            lemma_halving(domain_size as nat, round as nat);
        }
        round_domain_size = round_domain_size / 2;
        round = round + 1;
    }
    Some((errors, round_domain_size))
}

/// The square root of the reduced rate `(k - 1) / n` lies between `(k - 2) / (2 k)` and one half,
/// and the lower end is far enough up for multiplicity 3 on lines and 6 on curves.
pub open spec fn rate_envelope_holds(degree_bound: nat, domain_size: nat) -> bool {
    let (k, n) = (degree_bound as int, domain_size as int);
    &&& (k - 2) * (k - 2) * n <= (k - 1) * ((2 * k) * (2 * k))
    &&& (k - 1) * 4 < n
    &&& (k - 2) * 72 > 35 * (2 * k)
    &&& (k - 2) * 15 > 7 * (2 * k)
}

/// At rate one quarter the envelope holds exactly for degree bounds above 72.
pub proof fn law_rate_envelope_is_a_degree_threshold(degree_bound: nat)
    ensures
        rate_envelope_holds(degree_bound, 4 * degree_bound) <==> degree_bound > 72,
{
    let k = degree_bound as int;
    if k > 72 {
        assert((k - 2) * (k - 2) * (4 * k) <= (k - 1) * ((2 * k) * (2 * k))) by (nonlinear_arith)
            requires
                k > 72,
        ;
    }
}

/// The rational bounds on the square root of the rate, or nothing where they do not hold.
fn checked_sqrt_rate_lower(degree_bound: usize, domain_size: usize) -> (r: Option<PositiveRational>)
    requires
        degree_bound > 2,
        domain_size > 0,
    ensures
        r is Some <==> 2 * degree_bound <= usize::MAX && rate_envelope_holds(
            degree_bound as nat,
            domain_size as nat,
        ),
        r is Some ==> r->0.well_formed() && r->0.numerator@ == degree_bound - 2
            && r->0.denominator@ == 2 * degree_bound,
{
    let lower: PositiveRational = PositiveRational::from_usize(
        degree_bound - 2,
        degree_bound.checked_mul(2)?,
    )?;
    let actual_rate: PositiveRational = PositiveRational::from_usize(degree_bound - 1, domain_size)?;
    let one_quarter: PositiveRational = PositiveRational::from_usize(1, 4)?;
    let line_threshold: PositiveRational = PositiveRational::from_usize(35, 72)?;
    let curve_threshold: PositiveRational = PositiveRational::from_usize(7, 15)?;
    if lower.square().exceeds(&actual_rate) || !one_quarter.exceeds(&actual_rate)
        || !lower.exceeds(&line_threshold) || !lower.exceeds(&curve_threshold) {
        return None;
    }
    Some(lower)
}

/// The sizes of the locked profile: blinding factor two, rate one quarter, and an evaluation
/// domain disjoint from the trace domain, which the verifier rejects points of.
pub open spec fn hiding_domains_agree(
    trace_domain_size: nat,
    candidate_degree_bound: nat,
    evaluation_domain_size: nat,
    rejected_trace_domain_size: nat,
    domain_union_size: nat,
    expanded_degree_bound: nat,
) -> bool {
    &&& trace_domain_size >= 4
    &&& is_pow2(trace_domain_size as int)
    &&& candidate_degree_bound == 2 * trace_domain_size
    &&& evaluation_domain_size == 4 * candidate_degree_bound
    &&& rejected_trace_domain_size == trace_domain_size
    &&& domain_union_size == evaluation_domain_size + trace_domain_size
    &&& expanded_degree_bound == candidate_degree_bound + 2
}

/// Three batches of ten matrices, none of them empty or unopened, of one height, with as many
/// opened columns as functions are batched.
pub open spec fn opening_batch_agrees(
    batch_count: nat,
    matrix_count: nat,
    widths: Seq<usize>,
    points: Seq<usize>,
    function_count: nat,
    share_one_height: bool,
) -> bool {
    &&& batch_count == 3
    &&& matrix_count == 10
    &&& widths.len() == matrix_count
    &&& points.len() == matrix_count
    &&& forall|i: int| 0 <= i < widths.len() ==> #[trigger] widths[i] > 0
    &&& forall|i: int| 0 <= i < widths.len() ==> #[trigger] points[i] > 0
    &&& function_count == opened_column_count(widths, points)
    &&& function_count >= 2
    &&& share_one_height
}

/// Binary folds only, and exactly as many as halve the evaluation domain down to four points.
pub open spec fn fold_schedule_agrees(
    evaluation_domain_size: nat,
    log_blowup: nat,
    max_log_arity: nat,
    log_arities: Seq<usize>,
    final_domain_size: nat,
) -> bool {
    &&& log_blowup == 2
    &&& max_log_arity == 1
    &&& log_arities.len() > 0
    &&& forall|i: int| 0 <= i < log_arities.len() ==> #[trigger] log_arities[i] == 1
    &&& final_domain_size == 4
    &&& evaluation_domain_size / pow2(log_arities.len()) == final_domain_size
}

/// Every error over the challenge field is below one, and the two that are counted in machine
/// words fit one.
pub open spec fn field_errors_are_priced(
    field: nat,
    domain_union_size: nat,
    constraint_numerator: int,
    deep_numerator: int,
    batch_numerator: nat,
    evaluation_domain_size: nat,
    degree_bound: nat,
    round_count: nat,
) -> bool {
    &&& domain_union_size < field
    &&& constraint_numerator <= usize::MAX
    &&& constraint_numerator < field
    &&& deep_numerator <= usize::MAX
    &&& deep_numerator < field
    &&& batch_numerator < field
    &&& forall|i: int|
        0 <= i < round_count ==> #[trigger] commit_round_is_priced(
            evaluation_domain_size,
            degree_bound,
            field,
            i,
        )
}

/// Whether every entry is one.
fn all_ones(values: &[usize]) -> (r: bool)
    ensures
        r == forall|i: int| 0 <= i < values@.len() ==> #[trigger] values@[i] == 1,
{
    let mut i: usize = 0;
    while i < values.len()
        invariant
            i <= values.len(),
            forall|j: int| 0 <= j < i ==> #[trigger] values@[j] == 1,
        decreases values.len() - i,
    {
        if values[i] != 1 {
            return false;
        }
        i = i + 1;
    }
    true
}

/// The probability that all queries miss at agreement `7/12`, or nothing where there are none or
/// more than an exponent can hold.
fn query_error(num_queries: usize) -> (r: Option<ExactErrorFraction>)
    ensures
        r is Some <==> 0 < num_queries <= u32::MAX,
        r is Some ==> r->0@ == (
            pow(7, num_queries as nat) as nat,
            pow(12, num_queries as nat) as nat,
        ),
{
    if num_queries == 0 || num_queries > u32::MAX as usize {
        return None;
    }
    let exponent: u32 = num_queries as u32;
    proof {
        lemma_query_error_below_one(num_queries as nat);
    }
    ExactErrorFraction::new(
        Natural::from_usize(7).pow(exponent),
        Natural::from_usize(12).pow(exponent),
    )
}

proof fn lemma_query_error_below_one(queries: nat)
    requires
        queries > 0,
    ensures
        0 < pow(7, queries) < pow(12, queries),
    decreases queries,
{
    lemma_pow_positive(7, queries);
    if queries == 1 {
        lemma_pow1(7);
        lemma_pow1(12);
    } else {
        let fewer = (queries - 1) as nat;
        lemma_query_error_below_one(fewer);
        lemma_pow_adds(7, 1, fewer);
        lemma_pow_adds(12, 1, fewer);
        lemma_pow1(7);
        lemma_pow1(12);
    }
}

/// Construct the exact report for the locked `beta=2`, rate-`1/4`, `m=3`
/// hiding family.
///
/// `fri_log_arities` is read from the verified proof.  This function accepts
/// only binary folds and independently reconstructs the required schedule, so
/// a shortened, extended, or reordered event vector fails closed.  The
/// verifier must also bind the proof-carried degree to the expected base trace
/// degree before this function may return a report.
#[allow(clippy::too_many_arguments)]
pub fn exact_fri_rbr_state_transition_report(
    trace_domain_size: usize,
    source_candidate_degree_bound: usize,
    fri_evaluation_domain_size: usize,
    verifier_rejected_trace_domain_size: usize,
    evaluation_trace_domain_union_size: usize,
    source_expanded_candidate_degree_bound: usize,
    quotient_segment_count: usize,
    quotient_segment_length: usize,
    max_constraint_degree: usize,
    source_list_size_integer_bound: usize,
    constraint_count: usize,
    challenge_field_cardinality: Natural,
    input_batch_count: usize,
    input_matrix_count: usize,
    input_matrix_widths: &[usize],
    input_matrix_opening_point_counts: &[usize],
    opening_batch_function_count: usize,
    all_input_matrices_share_one_height: bool,
    fri_input_height: usize,
    fri_input_degree_bound: usize,
    fri_log_blowup: usize,
    fri_max_log_arity: usize,
    fri_log_arities: &[usize],
    final_domain_size: usize,
    num_queries: usize,
    verifier_degree_bound_established: bool,
) -> (r: Option<FriRbrStateTransitionReport>)
    ensures
        r is Some <==> {
            &&& hiding_domains_agree(
                trace_domain_size as nat,
                source_candidate_degree_bound as nat,
                fri_evaluation_domain_size as nat,
                verifier_rejected_trace_domain_size as nat,
                evaluation_trace_domain_union_size as nat,
                source_expanded_candidate_degree_bound as nat,
            )
            &&& quotient_segment_count >= 2
            &&& quotient_segment_length > 0
            &&& max_constraint_degree > 0
            &&& source_list_size_integer_bound > 0
            &&& constraint_count >= 2
            &&& opening_batch_agrees(
                input_batch_count as nat,
                input_matrix_count as nat,
                input_matrix_widths@,
                input_matrix_opening_point_counts@,
                opening_batch_function_count as nat,
                all_input_matrices_share_one_height,
            )
            &&& fri_input_height == fri_evaluation_domain_size
            &&& fri_input_degree_bound == source_candidate_degree_bound
            &&& fold_schedule_agrees(
                fri_evaluation_domain_size as nat,
                fri_log_blowup as nat,
                fri_max_log_arity as nat,
                fri_log_arities@,
                final_domain_size as nat,
            )
            &&& 0 < num_queries <= u32::MAX
            &&& verifier_degree_bound_established
            &&& rate_envelope_holds(
                source_candidate_degree_bound as nat,
                fri_evaluation_domain_size as nat,
            )
            &&& field_errors_are_priced(
                challenge_field_cardinality@,
                evaluation_trace_domain_union_size as nat,
                constraint_error_numerator(
                    constraint_count as nat,
                    source_list_size_integer_bound as nat,
                ),
                deep_error_numerator(
                    deep_degree(
                        source_candidate_degree_bound as nat,
                        source_expanded_candidate_degree_bound as nat,
                        quotient_segment_count as nat,
                        quotient_segment_length as nat,
                        max_constraint_degree as nat,
                    ),
                    source_list_size_integer_bound as nat,
                    evaluation_trace_domain_union_size - verifier_rejected_trace_domain_size,
                ),
                opening_batch_error_numerator(
                    fri_evaluation_domain_size as nat,
                    source_candidate_degree_bound as nat,
                    opening_batch_function_count as nat,
                ),
                fri_evaluation_domain_size as nat,
                source_candidate_degree_bound as nat,
                fri_log_arities@.len(),
            )
        },
        r matches Some(report) ==> {
            &&& report.trace_domain_size == trace_domain_size
            &&& report.source_candidate_degree_bound == source_candidate_degree_bound
            &&& report.fri_evaluation_domain_size == fri_evaluation_domain_size
            &&& report.verifier_rejected_trace_domain_size == verifier_rejected_trace_domain_size
            &&& report.evaluation_trace_domain_union_size == evaluation_trace_domain_union_size
            &&& report.source_list_size_integer_bound == source_list_size_integer_bound
            &&& report.constraint_count == constraint_count
            &&& report.input_batch_count == input_batch_count
            &&& report.input_matrix_count == input_matrix_count
            &&& report.input_matrix_widths@ == input_matrix_widths@
            &&& report.input_matrix_opening_point_counts@ == input_matrix_opening_point_counts@
            &&& report.opening_batch_function_count == opening_batch_function_count
            &&& report.opening_batch_curve_degree == opening_batch_function_count - 1
            &&& report.fri_log_arities@ == fri_log_arities@
            &&& report.fri_input_height == fri_input_height
            &&& report.fri_input_degree_bound == fri_input_degree_bound
            &&& report.fri_log_blowup == fri_log_blowup
            &&& report.fri_max_log_arity == fri_max_log_arity
            &&& report.num_queries == num_queries
        },
        r matches Some(report) ==> {
            &&& report.fri_commit_round_count == fri_log_arities@.len()
            &&& report.source_printed_round_count == fri_log_arities@.len() + 3
            &&& report.proof_consistent_round_count == fri_log_arities@.len() + 4
            &&& report.failure_event_count == report.event_errors().len()
            &&& report.failure_event_count == report.proof_consistent_round_count
            &&& report.source_round_count_indexing_discrepancy
            &&& !report.source_round_count_interpretation_author_confirmed
            &&& !report.source_error_vector_reused_verbatim
            &&& report.source_state_ledger_adapted_with_bchks25_bounds
            &&& report.verifier_degree_bound_established
            &&& report.complete_failure_event_ledger_established
            &&& report.proof_consistent_ideal_iop_rbr_correspondence_established
            &&& !report.fiat_shamir_rom_uniformity_established
            &&& !report.commitment_binding_established
            &&& !report.zero_knowledge_established
        },
        r matches Some(report) ==> {
            &&& report.constraint_combination_error@ == (
                constraint_error_numerator(
                    constraint_count as nat,
                    source_list_size_integer_bound as nat,
                ) as nat,
                challenge_field_cardinality@,
            )
            &&& report.deep_evaluation_error@ == (
                deep_error_numerator(
                    deep_degree(
                        source_candidate_degree_bound as nat,
                        source_expanded_candidate_degree_bound as nat,
                        quotient_segment_count as nat,
                        quotient_segment_length as nat,
                        max_constraint_degree as nat,
                    ),
                    source_list_size_integer_bound as nat,
                    evaluation_trace_domain_union_size - verifier_rejected_trace_domain_size,
                ) as nat,
                challenge_field_cardinality@,
            )
            &&& report.opening_batch_error@ == (
                opening_batch_error_numerator(
                    fri_evaluation_domain_size as nat,
                    source_candidate_degree_bound as nat,
                    opening_batch_function_count as nat,
                ),
                challenge_field_cardinality@,
            )
            &&& report.fri_commit_round_errors@.len() == fri_log_arities@.len()
            &&& forall|i: int|
                0 <= i < fri_log_arities@.len() ==> (#[trigger] report.fri_commit_round_errors@[i])@
                    == (
                    commit_round_error_numerator(
                        fri_evaluation_domain_size as nat,
                        source_candidate_degree_bound as nat,
                        i as nat,
                    ),
                    challenge_field_cardinality@,
                )
            &&& report.fri_query_error@ == (
                pow(7, num_queries as nat) as nat,
                pow(12, num_queries as nat) as nat,
            )
            &&& is_largest_event(
                report.event_errors(),
                fri_log_arities@.len(),
                report.maximum_failure_event,
                report.ideal_iop_rbr_error@,
            )
        },
{
    if trace_domain_size < 4 || !is_power_of_two(trace_domain_size) || source_candidate_degree_bound
        != trace_domain_size.checked_mul(2)? || fri_evaluation_domain_size
        != source_candidate_degree_bound.checked_mul(4)? || verifier_rejected_trace_domain_size
        != trace_domain_size || evaluation_trace_domain_union_size
        != fri_evaluation_domain_size.checked_add(trace_domain_size)?
        || source_expanded_candidate_degree_bound != source_candidate_degree_bound.checked_add(
        2,
    )? {
        return None;
    }
    if quotient_segment_count < 2 || quotient_segment_length == 0 || max_constraint_degree == 0
        || source_list_size_integer_bound == 0 || constraint_count < 2 {
        return None;
    }
    if input_batch_count != 3 || input_matrix_count != 10 || input_matrix_widths.len()
        != input_matrix_count || input_matrix_opening_point_counts.len() != input_matrix_count
        || opening_batch_function_count < 2 || !all_input_matrices_share_one_height {
        return None;
    }
    if fri_input_height != fri_evaluation_domain_size || fri_input_degree_bound
        != source_candidate_degree_bound || fri_log_blowup != 2 || fri_max_log_arity != 1
        || final_domain_size != 4 || !verifier_degree_bound_established || fri_log_arities.len()
        == 0 || !all_ones(fri_log_arities) {
        return None;
    }
    let opened_columns: usize = count_opened_columns(
        input_matrix_widths,
        input_matrix_opening_point_counts,
    )?;
    if opened_columns != opening_batch_function_count {
        return None;
    }
    let sqrt_rate_lower: PositiveRational = checked_sqrt_rate_lower(
        source_candidate_degree_bound,
        fri_evaluation_domain_size,
    )?;
    let field: Natural = challenge_field_cardinality;
    if !Natural::from_usize(evaluation_trace_domain_union_size).less_than(&field) {
        return None;
    }
    proof {
        lemma_mul_nonnegative(constraint_count - 1, source_list_size_integer_bound as int);
    }
    let constraint_numerator: usize = (constraint_count - 1).checked_mul(
        source_list_size_integer_bound,
    )?;
    let constraint_combination_error: ExactErrorFraction = ExactErrorFraction::new(
        Natural::from_usize(constraint_numerator),
        field.clone(),
    )?;
    let deep_numerator: usize = checked_deep_error_numerator(
        source_candidate_degree_bound,
        source_expanded_candidate_degree_bound,
        quotient_segment_count,
        quotient_segment_length,
        max_constraint_degree,
        source_list_size_integer_bound,
        evaluation_trace_domain_union_size - verifier_rejected_trace_domain_size,
    )?;
    let deep_evaluation_error: ExactErrorFraction = ExactErrorFraction::new(
        Natural::from_usize(deep_numerator),
        field.clone(),
    )?;
    let opening_batch_curve_degree: usize = opening_batch_function_count - 1;
    let opening_batch_numerator: Natural = proximity_curve_error_numerator_upper(
        fri_evaluation_domain_size,
        6,
        opening_batch_curve_degree,
        &sqrt_rate_lower,
    )?;
    let opening_batch_error: ExactErrorFraction = ExactErrorFraction::new(
        opening_batch_numerator,
        field.clone(),
    )?;
    let (fri_commit_round_errors, folded_domain_size): (Vec<ExactErrorFraction>, usize) =
        commit_round_errors(
        fri_evaluation_domain_size,
        source_candidate_degree_bound,
        fri_log_arities.len(),
        &sqrt_rate_lower,
        &field,
    )?;
    if folded_domain_size != final_domain_size {
        return None;
    }
    let fri_query_error: ExactErrorFraction = query_error(num_queries)?;
    proof {
        lemma_query_error_below_one(num_queries as nat);
        let errors = event_ledger(
            constraint_combination_error,
            deep_evaluation_error,
            opening_batch_error,
            fri_commit_round_errors@,
            fri_query_error,
        );
        let rounds = fri_commit_round_errors@.len();
        assert forall|j: int| 0 <= j < rounds + 4 implies (#[trigger] errors[j]).1 > 0 by {
            if 3 <= j < 3 + rounds {
                assert(errors[j] == fri_commit_round_errors@[j - 3]@);
            }
        }
    }
    let (maximum_failure_event, ideal_iop_rbr_error): (FriRbrFailureEvent, ExactErrorFraction) =
        largest_failure_event(
        &constraint_combination_error,
        &deep_evaluation_error,
        &opening_batch_error,
        &fri_commit_round_errors,
        &fri_query_error,
    );
    let fri_commit_round_count: usize = fri_log_arities.len();
    proof {
        lemma_fold_count_is_small(fri_evaluation_domain_size, fri_commit_round_count as nat);
    }
    Some(
        FriRbrStateTransitionReport {
            trace_domain_size,
            source_candidate_degree_bound,
            fri_evaluation_domain_size,
            verifier_rejected_trace_domain_size,
            evaluation_trace_domain_union_size,
            source_list_size_integer_bound,
            constraint_count,
            input_batch_count,
            input_matrix_count,
            input_matrix_widths: copy_slice(input_matrix_widths),
            input_matrix_opening_point_counts: copy_slice(input_matrix_opening_point_counts),
            opening_batch_function_count,
            opening_batch_curve_degree,
            fri_log_arities: copy_slice(fri_log_arities),
            fri_input_height,
            fri_input_degree_bound,
            fri_log_blowup,
            fri_max_log_arity,
            fri_commit_round_count,
            num_queries,
            source_printed_round_count: fri_commit_round_count + 3,
            proof_consistent_round_count: fri_commit_round_count + 4,
            failure_event_count: 3 + fri_commit_round_count + 1,
            source_round_count_indexing_discrepancy: true,
            source_round_count_interpretation_author_confirmed: false,
            source_error_vector_reused_verbatim: false,
            source_state_ledger_adapted_with_bchks25_bounds: true,
            constraint_combination_error,
            deep_evaluation_error,
            opening_batch_error,
            fri_commit_round_errors,
            fri_query_error,
            maximum_failure_event,
            ideal_iop_rbr_error,
            verifier_degree_bound_established,
            complete_failure_event_ledger_established: true,
            proof_consistent_ideal_iop_rbr_correspondence_established: true,
            fiat_shamir_rom_uniformity_established: false,
            commitment_binding_established: false,
            zero_knowledge_established: false,
        },
    )
}

/// For one evaluation domain a single fold schedule is accepted, so a shortened, extended or
/// altered one never is.
pub proof fn law_fold_schedule_is_unique(
    evaluation_domain_size: nat,
    log_blowup: nat,
    max_log_arity: nat,
    first: Seq<usize>,
    second: Seq<usize>,
    final_domain_size: nat,
)
    requires
        fold_schedule_agrees(
            evaluation_domain_size,
            log_blowup,
            max_log_arity,
            first,
            final_domain_size,
        ),
        fold_schedule_agrees(
            evaluation_domain_size,
            log_blowup,
            max_log_arity,
            second,
            final_domain_size,
        ),
    ensures
        first == second,
{
    if first.len() < second.len() {
        lemma_halving(evaluation_domain_size, first.len());
        lemma_halving_decreases(evaluation_domain_size, first.len() + 1, second.len());
    } else if second.len() < first.len() {
        lemma_halving(evaluation_domain_size, second.len());
        lemma_halving_decreases(evaluation_domain_size, second.len() + 1, first.len());
    }
    assert(first =~= second);
}

/// A ledger has one largest event: whatever meets the description of it is the same event with
/// the same probability, and no event of the ledger is likelier.
pub proof fn law_largest_event_is_unique(
    errors: Seq<(nat, nat)>,
    round_count: nat,
    event: FriRbrFailureEvent,
    error: (nat, nat),
    other_event: FriRbrFailureEvent,
    other_error: (nat, nat),
)
    requires
        is_largest_event(errors, round_count, event, error),
        is_largest_event(errors, round_count, other_event, other_error),
    ensures
        event == other_event,
        error == other_error,
        forall|j: int| 0 <= j < errors.len() ==> !below(error, #[trigger] errors[j]),
{
    let i = choose|index: int|
        first_maximum(errors, errors.len() as int, index) && event == event_at(index, round_count)
            && error == errors[index];
    let j = choose|index: int|
        first_maximum(errors, errors.len() as int, index) && other_event == event_at(
            index,
            round_count,
        ) && other_error == errors[index];
    if i < j {
        assert(below(errors[i], errors[j]));
    } else if j < i {
        assert(below(errors[j], errors[i]));
    }
}

/// Later FRI reductions have no larger errors than earlier ones.
pub proof fn law_commit_round_errors_do_not_grow(
    domain_size: nat,
    degree_bound: nat,
    round: nat,
    later_round: nat,
)
    requires
        degree_bound > 2,
        round <= later_round,
    ensures
        commit_round_error_numerator(domain_size, degree_bound, later_round)
            <= commit_round_error_numerator(domain_size, degree_bound, round),
{
    lemma_halving_decreases(domain_size, round, later_round);
    lemma_curve_error_grows_with_the_domain(
        domain_size / pow2(later_round),
        domain_size / pow2(round),
        3,
        1,
        (degree_bound - 2) as nat,
        2 * degree_bound,
    );
}

/// A FRI reduction has no larger error than the opening batch.
pub proof fn lemma_reductions_stay_below_the_batch(
    domain_size: nat,
    degree_bound: nat,
    function_count: nat,
    round: nat,
)
    requires
        degree_bound > 2,
        function_count >= 2,
    ensures
        commit_round_error_numerator(domain_size, degree_bound, round)
            <= opening_batch_error_numerator(domain_size, degree_bound, function_count),
{
    let n = domain_size;
    let d = (function_count - 1) as nat;
    let a = (degree_bound - 2) as nat;
    let b = 2 * degree_bound;
    law_commit_round_errors_do_not_grow(n, degree_bound, 0, round);
    lemma_pow0(2);
    lemma_div_basics(n as int);
    let y = 96 * (a * a * a);
    assert(y > 0) by (nonlinear_arith)
        requires
            y == 96 * (a * a * a),
            a > 0,
    ;
    // The line case has u = 7 and 2 u^4 + 5 = 4807, the curve case u = 13 and 2 u^4 + 5 = 57127.
    let weight = n * b * b;
    let tail = 48 * a * a;
    let line = 1 * 7 * b * (weight * 4807 + tail);
    let curve = d * 13 * b * (weight * 57127 + tail);
    assert(0 <= weight && 0 <= tail) by (nonlinear_arith)
        requires
            weight == n * b * b,
            tail == 48 * a * a,
    ;
    let (w, t) = (weight * 4807 + tail, weight * 57127 + tail);
    assert(7 * b * w <= d * 13 * b * t) by (nonlinear_arith)
        requires
            0 <= w <= t,
            d >= 1,
            b >= 0,
    ;
    lemma_mul_inequality(line as int, curve as int, y as int);
    lemma_ceil_div_monotonic(line, y, curve, y);
    let (u, v) = ((2 * 3 + 1) as nat, (2 * 6 + 1) as nat);
    assert(2 * (u * u * u * u) + 5 == 4807 && 2 * (v * v * v * v) + 5 == 57127)
        by (nonlinear_arith)
        requires
            u == 7,
            v == 13,
    ;
    assert(curve_error_numerator(n, 3, 1, a, b) == ceil_div(line, y));
    assert(curve_error_numerator(n, 6, d, a, b) == ceil_div(curve, y));
}

/// No FRI reduction is ever the largest event of a ledger: the opening batch comes before them and
/// is at least as likely to fail.
pub proof fn law_no_reduction_is_the_largest_event(
    errors: Seq<(nat, nat)>,
    domain_size: nat,
    degree_bound: nat,
    function_count: nat,
    field: nat,
    round_count: nat,
    event: FriRbrFailureEvent,
    error: (nat, nat),
)
    requires
        degree_bound > 2,
        function_count >= 2,
        errors.len() == round_count + 4,
        errors[2] == (
            opening_batch_error_numerator(domain_size, degree_bound, function_count),
            field,
        ),
        forall|i: int|
            3 <= i < 3 + round_count ==> #[trigger] errors[i] == (
                commit_round_error_numerator(domain_size, degree_bound, (i - 3) as nat),
                field,
            ),
        is_largest_event(errors, round_count, event, error),
    ensures
        !(event is FriCommitRound),
{
    let index = choose|index: int|
        first_maximum(errors, errors.len() as int, index) && event == event_at(index, round_count)
            && error == errors[index];
    if 3 <= index < 3 + round_count {
        assert(below(errors[2], errors[index]));
        lemma_reductions_stay_below_the_batch(
            domain_size,
            degree_bound,
            function_count,
            (index - 3) as nat,
        );
        lemma_mul_inequality(errors[index].0 as int, errors[2].0 as int, field as int);
    }
}

/// A machine word cannot be halved more often than it has bits before nothing is left.
proof fn lemma_fold_count_is_small(domain_size: usize, rounds: nat)
    requires
        domain_size as nat / pow2(rounds) > 0,
    ensures
        rounds + 4 <= usize::MAX,
{
    if rounds > 64 {
        lemma2_to64();
        lemma2_to64_rest();
        lemma_pow2_strictly_increases(64, rounds);
        lemma_basic_div(domain_size as int, pow2(rounds) as int);
    }
}

} // verus!
