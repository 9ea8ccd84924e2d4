//! What the events of the failure ledger cost, over the inputs of the ledger alone.
use crate::domain::lemma_pow2_is_pow2;
use crate::natural::Natural;
use crate::rational::{ceil_div, lemma_ceil_div};
use crate::rbr::{
    below, commit_round_error_numerator, commit_round_is_priced, constraint_error_numerator,
    curve_error_numerator, deep_degree, deep_error_numerator, event_at,
    exact_fri_rbr_state_transition_report, first_maximum, fold_schedule_agrees,
    hiding_domains_agree, is_largest_event, law_rate_envelope_is_a_degree_threshold, lemma_halving,
    lemma_pow_five, lemma_pow_three, lemma_reductions_stay_below_the_batch, opened_column_count,
    opening_batch_error_numerator, FriRbrFailureEvent, FriRbrStateTransitionReport,
};
use vstd::arithmetic::div_mod::*;
use vstd::arithmetic::mul::*;
use vstd::arithmetic::power::*;
use vstd::arithmetic::power2::*;
use vstd::prelude::*;

verus! {

/// The curve theorem's error, rounded up.
///
/// With `s = m + 1/2`, `gamma = 5/12`, `rho = 1/4` and `r = a / b` the theorem displays
/// `d (n (2 s^5 + 3 s gamma rho) / (3 r^3) + s / r)`. Multiplied by `96 a^3` and with `u = 2 s` that
/// is `d (n (2 u^5 + 5 u) b^3 + 48 u b a^2)`: the numerator is the least integer from there on.
pub proof fn law_curve_error_is_the_theorem_rounded_up(n: nat, m: nat, d: nat, a: nat, b: nat)
    requires
        a > 0,
    ensures
        (curve_error_numerator(n, m, d, a, b) - 1) * (96 * pow(a as int, 3)) < d * (n * (2 * pow(
            (2 * m + 1) as int,
            5,
        ) + 5 * (2 * m + 1)) * pow(b as int, 3) + 48 * ((2 * m + 1) * b * (a * a)))
            <= curve_error_numerator(n, m, d, a, b) * (96 * pow(a as int, 3)),
{
    let u = 2 * m + 1;
    let v = u * u * u * u;
    lemma_pow_five(u as int);
    lemma_pow_three(a as int);
    lemma_pow_three(b as int);
    let q = 2 * v + 5;
    let x = d * u * b * (n * b * b * q + 48 * a * a);
    let y = 96 * (a * a * a);
    assert(y > 0) by (nonlinear_arith)
        requires
            y == 96 * (a * a * a),
            a > 0,
    ;
    lemma_ceil_div(x, y, ceil_div(x, y));
    let lead = 2 * (u * v) + 5 * u;
    assert(lead == u * q) by (nonlinear_arith)
        requires
            lead == 2 * (u * v) + 5 * u,
            q == 2 * v + 5,
    ;
    let left = n * b * b * q;
    let right = 48 * a * a;
    let main = n * (u * q) * (b * b * b);
    let tail = 48 * (u * b * (a * a));
    assert(main == u * b * left) by (nonlinear_arith)
        requires
            main == n * (u * q) * (b * b * b),
            left == n * b * b * q,
    ;
    assert(tail == u * b * right) by (nonlinear_arith)
        requires
            tail == 48 * (u * b * (a * a)),
            right == 48 * a * a,
    ;
    let ub = u * b;
    assert(d * (ub * left + ub * right) == d * u * b * (left + right)) by (nonlinear_arith)
        requires
            ub == u * b,
    ;
}

/// A reduction is priced over the points that the earlier ones have left: the reduction `later`
/// rounds on costs what the reduction now costs on a domain halved `later` times.
pub proof fn law_reductions_are_priced_over_the_folded_domain(
    domain_size: nat,
    degree_bound: nat,
    round: nat,
    later: nat,
)
    ensures
        commit_round_error_numerator(domain_size, degree_bound, round + later)
            == commit_round_error_numerator(domain_size / pow2(later), degree_bound, round),
{
    lemma_pow2_adds(later, round);
    lemma_pow2_pos(later);
    lemma_pow2_pos(round);
    lemma_div_denominator(domain_size as int, pow2(later) as int, pow2(round) as int);
}

/// The first reduction is the line case of the curve theorem with multiplicity three, at the rate
/// bound `(k - 2) / (2 k)`: the least integer from `7 b (4807 n b^2 + 48 a^2) / (96 a^3)` on, where
/// `a = k - 2` and `b = 2 k`.
pub proof fn law_first_reduction_is_a_line_over_the_domain(domain_size: nat, degree_bound: nat)
    requires
        degree_bound > 2,
    ensures
        ({
            let q = commit_round_error_numerator(domain_size, degree_bound, 0);
            let (a, b) = (degree_bound - 2, 2 * degree_bound);
            (q - 1) * (96 * (a * a * a)) < 7 * b * (4807 * domain_size * (b * b) + 48 * (a * a)) <= q
                * (96 * (a * a * a))
        }),
{
    let n = domain_size as int;
    let (a, b) = (degree_bound - 2, 2 * degree_bound);
    lemma_pow0(2);
    lemma_div_basics(n);
    law_curve_error_is_the_theorem_rounded_up(domain_size, 3, 1, a as nat, b as nat);
    lemma_pow_three(a);
    lemma_pow_three(b as int);
    lemma_pow_five(7);
    assert(2 * (7 * (7 * 7 * 7 * 7int)) + 5 * 7 == 7 * 4807) by (nonlinear_arith);
    assert(1 * (n * (7 * 4807) * (b * b * b) + 48 * (7 * b * (a * a))) == 7 * b * (4807 * n * (b * b)
        + 48 * (a * a))) by (nonlinear_arith);
}

/// The opening batch is the curve case with multiplicity six and one degree less than there are
/// functions: the least integer from `(M - 1) 13 b (57127 n b^2 + 48 a^2) / (96 a^3)` on.
pub proof fn law_opening_batch_is_a_curve_through_all_functions(
    domain_size: nat,
    degree_bound: nat,
    function_count: nat,
)
    requires
        degree_bound > 2,
        function_count >= 1,
    ensures
        ({
            let q = opening_batch_error_numerator(domain_size, degree_bound, function_count);
            let (a, b) = (degree_bound - 2, 2 * degree_bound);
            (q - 1) * (96 * (a * a * a)) < (function_count - 1) * (13 * b * (57127 * domain_size * (b
                * b) + 48 * (a * a))) <= q * (96 * (a * a * a))
        }),
{
    let n = domain_size as int;
    let d = function_count - 1;
    let (a, b) = (degree_bound - 2, 2 * degree_bound);
    law_curve_error_is_the_theorem_rounded_up(domain_size, 6, d as nat, a as nat, b as nat);
    lemma_pow_three(a);
    lemma_pow_three(b as int);
    lemma_pow_five(13);
    assert(2 * (13 * (13 * 13 * 13 * 13int)) + 5 * 13 == 13 * 57127) by (nonlinear_arith);
    assert(n * (13 * 57127) * (b * b * b) + 48 * (13 * b * (a * a)) == 13 * b * (57127 * n * (b * b)
        + 48 * (a * a))) by (nonlinear_arith);
}

/// As long as points are left, each reduction has a smaller error than the one before.
pub proof fn law_reduction_errors_strictly_decrease(
    domain_size: nat,
    degree_bound: nat,
    round: nat,
)
    requires
        degree_bound > 2,
        domain_size / pow2(round) >= 1,
    ensures
        commit_round_error_numerator(domain_size, degree_bound, round + 1)
            < commit_round_error_numerator(domain_size, degree_bound, round),
{
    let n = domain_size / pow2(round);
    let less = n / 2;
    lemma_halving(domain_size, round);
    law_reductions_are_priced_over_the_folded_domain(domain_size, degree_bound, 0, round);
    law_reductions_are_priced_over_the_folded_domain(domain_size, degree_bound, 0, round + 1);
    law_first_reduction_is_a_line_over_the_domain(n, degree_bound);
    law_first_reduction_is_a_line_over_the_domain(less, degree_bound);
    let q = commit_round_error_numerator(n, degree_bound, 0) as int;
    let p = commit_round_error_numerator(less, degree_bound, 0) as int;
    let (a, b) = (degree_bound - 2, 2 * degree_bound);
    let y = 96 * (a * a * a);
    let x = 7 * b * (4807 * n * (b * b) + 48 * (a * a));
    let w = 7 * b * (4807 * less * (b * b) + 48 * (a * a));
    let cube = b * (b * b);
    assert(x - w == 7 * 4807 * (n - less) * cube) by (nonlinear_arith)
        requires
            x == 7 * b * (4807 * n * (b * b) + 48 * (a * a)),
            w == 7 * b * (4807 * less * (b * b) + 48 * (a * a)),
            cube == b * (b * b),
    ;
    assert(a * a * a <= cube) by (nonlinear_arith)
        requires
            0 < a <= b,
            cube == b * (b * b),
    ;
    assert(7 * 4807 * (n - less) * cube >= 7 * 4807 * cube) by (nonlinear_arith)
        requires
            n - less >= 1,
            cube >= 0,
    ;
    assert(0 < y) by (nonlinear_arith)
        requires
            y == 96 * (a * a * a),
            a > 0,
    ;
    assert(x - w >= y);
    assert(p < q) by (nonlinear_arith)
        requires
            (p - 1) * y < w,
            x <= q * y,
            x - w >= y,
            y > 0,
    ;
}

/// A reduction of a domain of `2 h` points has twice the error of the next one, over `h` points, but
/// for the part that does not depend on the domain, which is `7 k / (k - 2)`, and the rounding.
pub proof fn law_reduction_errors_halve(half: nat, degree_bound: nat, round: nat)
    requires
        degree_bound > 2,
    ensures
        ({
            let now = commit_round_error_numerator(2 * half * pow2(round), degree_bound, round) as int;
            let next = commit_round_error_numerator(
                2 * half * pow2(round),
                degree_bound,
                round + 1,
            ) as int;
            &&& now < 2 * next + 1
            &&& (degree_bound - 2) * (2 * next - now - 2) < 7 * degree_bound
        }),
{
    let n = 2 * half * pow2(round);
    lemma_pow2_pos(round);
    lemma_div_multiples_vanish((2 * half) as int, pow2(round) as int);
    lemma_halving(n, round);
    assert(n / pow2(round) == 2 * half && n / pow2(round + 1) == half) by {
        lemma_mul_is_commutative((2 * half) as int, pow2(round) as int);
    }
    law_reductions_are_priced_over_the_folded_domain(n, degree_bound, 0, round);
    law_reductions_are_priced_over_the_folded_domain(n, degree_bound, 0, round + 1);
    law_first_reduction_is_a_line_over_the_domain(2 * half, degree_bound);
    law_first_reduction_is_a_line_over_the_domain(half, degree_bound);
    let h = half as int;
    let q = commit_round_error_numerator(2 * half, degree_bound, 0) as int;
    let p = commit_round_error_numerator(half, degree_bound, 0) as int;
    let (a, b) = (degree_bound - 2, 2 * degree_bound);
    let y = 96 * (a * a * a);
    let x = 7 * b * (4807 * (2 * h) * (b * b) + 48 * (a * a));
    let w = 7 * b * (4807 * h * (b * b) + 48 * (a * a));
    let tail = 7 * b * (48 * (a * a));
    assert(2 * w == x + tail) by (nonlinear_arith)
        requires
            x == 7 * b * (4807 * (2 * h) * (b * b) + 48 * (a * a)),
            w == 7 * b * (4807 * h * (b * b) + 48 * (a * a)),
            tail == 7 * b * (48 * (a * a)),
    ;
    assert(0 <= tail && 0 < y) by (nonlinear_arith)
        requires
            y == 96 * (a * a * a),
            tail == 7 * b * (48 * (a * a)),
            a > 0,
            b > 0,
    ;
    assert(q < 2 * p + 1) by (nonlinear_arith)
        requires
            (q - 1) * y < x,
            x <= 2 * (p * y),
            y > 0,
    ;
    // (2 p - 2) y < 2 w = x + tail <= q y + tail, and a tail = 7 k y
    let k = degree_bound as int;
    assert(a * tail == 7 * k * y) by (nonlinear_arith)
        requires
            tail == 7 * (2 * k) * (48 * (a * a)),
            y == 96 * (a * a * a),
    ;
    assert((2 * p - q - 2) * y < tail) by (nonlinear_arith)
        requires
            (p - 1) * y < w,
            2 * w == x + tail,
            x <= q * y,
    ;
    let gap = 2 * p - q - 2;
    assert(a * gap < 7 * k) by (nonlinear_arith)
        requires
            gap * y < tail,
            a * tail == 7 * k * y,
            a > 0,
            y > 0,
    ;
}

/// A single constraint needs no combination, and each further one costs one root for every candidate
/// of the list.
pub proof fn law_each_constraint_costs_a_root_per_candidate(constraint_count: nat, list_size: nat)
    ensures
        constraint_error_numerator(1, list_size) == 0,
        constraint_error_numerator(constraint_count + 1, list_size) == constraint_error_numerator(
            constraint_count,
            list_size,
        ) + list_size,
{
    assert((constraint_count + 1 - 1) * list_size == (constraint_count - 1) * list_size + list_size)
        by (nonlinear_arith);
}

/// The degree that the DEEP evaluation tests is that of the constraints or that of the recomposed
/// quotient, and it is below neither.
pub proof fn law_deep_degree_covers_both_branches(
    degree_bound: nat,
    expanded_degree_bound: nat,
    segment_count: nat,
    segment_length: nat,
    constraint_degree: nat,
)
    ensures
        ({
            let degree = deep_degree(
                degree_bound,
                expanded_degree_bound,
                segment_count,
                segment_length,
                constraint_degree,
            );
            &&& degree >= constraint_degree * (expanded_degree_bound - 1) + (degree_bound - 1)
            &&& degree >= degree_bound + (segment_count - 1) * segment_length + (
            expanded_degree_bound - 1)
            &&& {
                ||| degree == constraint_degree * (expanded_degree_bound - 1) + (degree_bound - 1)
                ||| degree == degree_bound + (segment_count - 1) * segment_length + (
                expanded_degree_bound - 1)
            }
        }),
{
}

/// Each pair of candidates can agree at as many points as the DEEP degree says, and each forbidden
/// point that the verifier accepts is one more.
pub proof fn law_deep_error_counts_pairs_and_forbidden_points(
    degree: int,
    list_size: nat,
    accepted_forbidden: int,
)
    ensures
        deep_error_numerator(degree, 0, accepted_forbidden) == accepted_forbidden,
        deep_error_numerator(degree, list_size + 1, accepted_forbidden) == deep_error_numerator(
            degree,
            list_size,
            accepted_forbidden,
        ) + degree * (2 * list_size + 1),
        deep_error_numerator(degree, list_size, accepted_forbidden + 1) == deep_error_numerator(
            degree,
            list_size,
            accepted_forbidden,
        ) + 1,
{
    let l = list_size as int;
    assert(degree * ((l + 1) * (l + 1)) == degree * (l * l) + degree * (2 * l + 1))
        by (nonlinear_arith);
    assert(degree * (0 * 0int) == 0) by (nonlinear_arith);
}

/// Fractions are compared as numbers: over one denominator the numerators decide, a common factor
/// changes nothing, no fraction is below itself, and of two either one is below the other or they
/// are equal as numbers.
pub proof fn law_fractions_are_ordered_as_numbers(x: (nat, nat), y: (nat, nat), factor: nat)
    requires
        x.1 > 0,
        y.1 > 0,
        factor > 0,
    ensures
        x.1 == y.1 ==> (below(x, y) <==> x.0 < y.0),
        below((factor * x.0, factor * x.1), y) <==> below(x, y),
        below(x, (factor * y.0, factor * y.1)) <==> below(x, y),
        !below(x, x),
        !(below(x, y) && below(y, x)),
        below(x, y) || below(y, x) || x.0 * y.1 == y.0 * x.1,
        x.0 == 0 && y.0 > 0 ==> below(x, y),
{
    let (a, b, c, d) = (x.0, x.1, y.0, y.1);
    assert(b == d ==> (a * d < c * b <==> a < c)) by (nonlinear_arith)
        requires
            b > 0,
            d > 0,
    ;
    assert((factor * a) * d < c * (factor * b) <==> a * d < c * b) by (nonlinear_arith)
        requires
            factor > 0,
    ;
    assert(a * (factor * d) < (factor * c) * b <==> a * d < c * b) by (nonlinear_arith)
        requires
            factor > 0,
    ;
    assert(a == 0 && c > 0 ==> a * d < c * b) by (nonlinear_arith)
        requires
            b > 0,
    ;
}

/// A larger fraction stays larger: the comparison is transitive.
pub proof fn law_fractions_are_ordered_transitively(x: (nat, nat), y: (nat, nat), z: (nat, nat))
    requires
        x.1 > 0,
        y.1 > 0,
        z.1 > 0,
        below(x, y),
        below(y, z),
    ensures
        below(x, z),
{
    let (a, b, c, d, e, f) = (x.0, x.1, y.0, y.1, z.0, z.1);
    assert(a * f < e * b) by (nonlinear_arith)
        requires
            b > 0,
            d > 0,
            f > 0,
            a * d < c * b,
            c * f < e * d,
    ;
}

/// A matrix of width `w` that is opened at `p` points contributes `w p` columns, in whatever batch it
/// comes: the columns of two lists of matrices add up.
pub proof fn law_opened_columns_add_up(
    widths: Seq<usize>,
    points: Seq<usize>,
    more_widths: Seq<usize>,
    more_points: Seq<usize>,
)
    requires
        widths.len() == points.len(),
        more_widths.len() == more_points.len(),
    ensures
        opened_column_count(widths + more_widths, points + more_points) == opened_column_count(
            widths,
            points,
        ) + opened_column_count(more_widths, more_points),
        opened_column_count(Seq::empty(), Seq::empty()) == 0,
        forall|width: usize, count: usize|
            #[trigger] opened_column_count(seq![width], seq![count]) == width * count,
    decreases more_widths.len(),
{
    assert forall|width: usize, count: usize| #[trigger]
        opened_column_count(seq![width], seq![count]) == width * count by {
        assert(opened_column_count(seq![width].drop_last(), seq![count].drop_last()) == 0);
    }
    if more_widths.len() == 0 {
        assert(widths + more_widths =~= widths);
        assert(points + more_points =~= points);
    } else {
        let (fewer_widths, fewer_points) = (more_widths.drop_last(), more_points.drop_last());
        law_opened_columns_add_up(widths, points, fewer_widths, fewer_points);
        assert((widths + more_widths).drop_last() =~= widths + fewer_widths);
        assert((points + more_points).drop_last() =~= points + fewer_points);
    }
}

/// What a report says of the largest event, over the report's own errors: it names the event that it
/// prices, no event is likelier, and those that come before it are less likely.
pub proof fn law_largest_event_is_priced_by_its_own_error(
    report: FriRbrStateTransitionReport,
    index: int,
)
    requires
        is_largest_event(
            report.event_errors(),
            report.fri_commit_round_errors@.len(),
            report.maximum_failure_event,
            report.ideal_iop_rbr_error@,
        ),
        report.fri_commit_round_errors@.len() <= usize::MAX,
        0 <= index < report.fri_commit_round_errors@.len(),
    ensures
        ({
            let error = report.ideal_iop_rbr_error@;
            &&& match report.maximum_failure_event {
                FriRbrFailureEvent::ConstraintCombination => error
                    == report.constraint_combination_error@,
                FriRbrFailureEvent::DeepEvaluation => error == report.deep_evaluation_error@
                    && below(report.constraint_combination_error@, error),
                FriRbrFailureEvent::OpeningBatchCombination => error == report.opening_batch_error@
                    && below(report.constraint_combination_error@, error) && below(
                    report.deep_evaluation_error@,
                    error,
                ),
                FriRbrFailureEvent::FriCommitRound(round) => {
                    &&& round < report.fri_commit_round_errors@.len()
                    &&& error == report.fri_commit_round_errors@[round as int]@
                    &&& below(report.opening_batch_error@, error)
                    &&& index < round ==> below(
                        report.fri_commit_round_errors@[index]@,
                        error,
                    )
                },
                FriRbrFailureEvent::FriQueries => error == report.fri_query_error@ && below(
                    report.constraint_combination_error@,
                    error,
                ) && below(report.deep_evaluation_error@, error) && below(
                    report.opening_batch_error@,
                    error,
                ) && below(report.fri_commit_round_errors@[index]@, error),
            }
            &&& !below(error, report.constraint_combination_error@)
            &&& !below(error, report.deep_evaluation_error@)
            &&& !below(error, report.opening_batch_error@)
            &&& !below(error, report.fri_commit_round_errors@[index]@)
            &&& !below(error, report.fri_query_error@)
        }),
{
    let errors = report.event_errors();
    let rounds = report.fri_commit_round_errors@;
    let at = choose|at: int|
        first_maximum(errors, errors.len() as int, at) && report.maximum_failure_event == event_at(
            at,
            rounds.len(),
        ) && report.ideal_iop_rbr_error@ == errors[at];
    assert(errors.len() == rounds.len() + 4);
    assert(errors[0] == report.constraint_combination_error@);
    assert(errors[1] == report.deep_evaluation_error@);
    assert(errors[2] == report.opening_batch_error@);
    assert(errors[3 + index] == rounds[index]@);
    assert(errors[(3 + rounds.len()) as int] == report.fri_query_error@);
    if 3 <= at < 3 + rounds.len() {
        assert(errors[at] == rounds[at - 3]@);
    }
}

/// An accepted profile is fixed by its trace domain: degree bound twice as large, evaluation domain
/// eight times, the union nine times, and the expanded bound two above the degree bound.
pub proof fn law_hiding_domains_follow_from_the_trace(
    trace_domain_size: nat,
    candidate_degree_bound: nat,
    evaluation_domain_size: nat,
    rejected_trace_domain_size: nat,
    domain_union_size: nat,
    expanded_degree_bound: nat,
)
    requires
        hiding_domains_agree(
            trace_domain_size,
            candidate_degree_bound,
            evaluation_domain_size,
            rejected_trace_domain_size,
            domain_union_size,
            expanded_degree_bound,
        ),
    ensures
        trace_domain_size >= 4,
        exists|log: nat| pow2(log) == trace_domain_size,
        candidate_degree_bound == trace_domain_size + trace_domain_size,
        evaluation_domain_size == 8 * trace_domain_size,
        domain_union_size - rejected_trace_domain_size == evaluation_domain_size,
        domain_union_size == 9 * trace_domain_size,
        expanded_degree_bound - candidate_degree_bound == 2,
{
    is_pow2_equiv(trace_domain_size as int);
    let log = choose|log: nat| pow(2, log) == trace_domain_size;
    lemma_pow2(log);
    assert(pow2(log) == trace_domain_size);
}

/// Every trace domain of a power of two from four on has an accepted profile.
pub proof fn law_hiding_domains_exist(log: nat)
    requires
        log >= 2,
    ensures
        hiding_domains_agree(
            pow2(log),
            pow2(log + 1),
            pow2(log + 3),
            pow2(log),
            pow2(log + 3) + pow2(log),
            pow2(log + 1) + 2,
        ),
{
    lemma_pow2_is_pow2(log);
    lemma_pow2_unfold(log + 1);
    lemma_pow2_unfold(log + 2);
    lemma_pow2_unfold(log + 3);
    lemma2_to64();
    if log > 2 {
        lemma_pow2_strictly_increases(2, log);
    }
}

/// The folds take the evaluation domain down to four points, one bit each: they are binary, and there
/// are as many as the domain has factors of two above four.
pub proof fn law_fold_schedule_ends_at_four_points(log: nat, log_arities: Seq<usize>)
    ensures
        fold_schedule_agrees(pow2(log), 2, 1, log_arities, 4) <==> {
            &&& log >= 3
            &&& log_arities.len() == log - 2
            &&& forall|i: int| 0 <= i < log_arities.len() ==> #[trigger] log_arities[i] == 1
        },
        forall|size: nat, log_blowup: nat, max_log_arity: nat, final_domain_size: nat|
            #[trigger] fold_schedule_agrees(
                size,
                log_blowup,
                max_log_arity,
                log_arities,
                final_domain_size,
            ) ==> log_blowup == 2 && max_log_arity == 1 && final_domain_size == 4,
{
    let folds = log_arities.len();
    lemma2_to64();
    lemma_pow2_pos(folds);
    if log >= folds {
        let rest = (log - folds) as nat;
        lemma_pow2_adds(rest, folds);
        lemma_div_multiples_vanish(pow2(rest) as int, pow2(folds) as int);
        lemma_mul_is_commutative(pow2(rest) as int, pow2(folds) as int);
        assert(pow2(log) / pow2(folds) == pow2(rest));
        if rest < 2 {
            lemma_pow2_strictly_increases(rest, 2);
        } else if rest > 2 {
            lemma_pow2_strictly_increases(2, rest);
        }
    } else {
        lemma_pow2_strictly_increases(log, folds);
        lemma_pow2_pos(log);
        lemma_basic_div(pow2(log) as int, pow2(folds) as int);
    }
}

/// What an issued ledger says, over the arguments of the call that issued it.
///
/// The field has `q` elements, the trace domain `h` points. The constraints cost one root less than
/// their number for each candidate, the DEEP evaluation at least each of its two degrees for each
/// pair of candidates and one for each of the `8 h` points that are not rejected, and the queries
/// `7/12` each. The reductions halve the domain, so that each has a smaller error than the one before.
/// No event is certain, and the largest error is not below that of any event.
pub proof fn law_ledger_prices_its_arguments(
    arguments: (
        usize,
        usize,
        usize,
        usize,
        usize,
        usize,
        usize,
        usize,
        usize,
        usize,
        usize,
        Natural,
        usize,
        usize,
        &[usize],
        &[usize],
        usize,
        bool,
        usize,
        usize,
        usize,
        usize,
        &[usize],
        usize,
        usize,
        bool,
    ),
    report: FriRbrStateTransitionReport,
    i: int,
)
    requires
        call_ensures(exact_fri_rbr_state_transition_report, arguments, Some(report)),
        0 <= i < report.fri_commit_round_errors@.len(),
    ensures
        ({
            let (h, k, n) = (arguments.0 as int, arguments.1 as int, arguments.2 as int);
            let (expanded, segments, length) = (
                arguments.5 as int,
                arguments.6 as int,
                arguments.7 as int,
            );
            let (degree, list) = (arguments.8 as int, arguments.9 as int);
            let (constraints, field) = (arguments.10 as int, arguments.11@);
            let functions = arguments.16 as int;
            let folds = arguments.22@.len();
            let queries = arguments.24 as nat;
            let (a, b) = (k - 2, 2 * k);
            let deep = report.deep_evaluation_error.numerator@;
            let batch = report.opening_batch_error.numerator@;
            let rounds = report.fri_commit_round_errors@;
            &&& h >= 4 && k == 2 * h && n == 8 * h && expanded == 2 * h + 2
            &&& n == 4 * pow2(folds) && rounds.len() == folds
            &&& report.constraint_combination_error.denominator@ == field
            &&& report.deep_evaluation_error.denominator@ == field
            &&& report.opening_batch_error.denominator@ == field
            &&& rounds[i].denominator@ == field
            &&& report.constraint_combination_error.numerator@ + list == constraints * list
            &&& deep >= (degree * (expanded - 1) + (k - 1)) * (list * list) + n
            &&& deep >= (k + (segments - 1) * length + (expanded - 1)) * (list * list) + n
            &&& {
                ||| deep == (degree * (expanded - 1) + (k - 1)) * (list * list) + n
                ||| deep == (k + (segments - 1) * length + (expanded - 1)) * (list * list) + n
            }
            &&& (batch - 1) * (96 * (a * a * a)) < (functions - 1) * (13 * b * (57127 * n * (b * b)
                + 48 * (a * a))) <= batch * (96 * (a * a * a))
            &&& (rounds[0].numerator@ - 1) * (96 * (a * a * a)) < 7 * b * (4807 * n * (b * b) + 48 * (a
                * a)) <= rounds[0].numerator@ * (96 * (a * a * a))
            &&& i + 1 < folds ==> {
                &&& rounds[i + 1].numerator@ < rounds[i].numerator@
                &&& rounds[i].numerator@ <= 2 * rounds[i + 1].numerator@
                &&& a * (2 * rounds[i + 1].numerator@ - rounds[i].numerator@ - 2) < 7 * k
            }
            &&& rounds[i].numerator@ <= batch
            &&& report.fri_query_error.numerator@ == pow(7, queries)
            &&& report.fri_query_error.denominator@ == pow(12, queries)
            &&& report.constraint_combination_error.numerator@ < field && deep < field && batch < field
                && rounds[i].numerator@ < field
            &&& !below(report.ideal_iop_rbr_error@, report.constraint_combination_error@)
            &&& !below(report.ideal_iop_rbr_error@, report.deep_evaluation_error@)
            &&& !below(report.ideal_iop_rbr_error@, report.opening_batch_error@)
            &&& !below(report.ideal_iop_rbr_error@, rounds[i]@)
            &&& !below(report.ideal_iop_rbr_error@, report.fri_query_error@)
            &&& report.failure_event_count == folds + 4
        }),
{
    let (h, k, n) = (arguments.0 as nat, arguments.1 as nat, arguments.2 as nat);
    let (expanded, segments, length) = (arguments.5 as int, arguments.6 as int, arguments.7 as int);
    let (degree, list) = (arguments.8 as int, arguments.9 as int);
    let constraints = arguments.10 as int;
    let functions = arguments.16 as nat;
    let log_arities = arguments.22@;
    let folds = log_arities.len();
    let rounds = report.fri_commit_round_errors@;
    assert((constraints - 1) * list + list == constraints * list) by (nonlinear_arith);
    assert(constraints * list >= list) by (nonlinear_arith)
        requires
            constraints >= 2,
            list >= 0,
    ;
    is_pow2_equiv(h as int);
    let log = choose|log: nat| pow(2, log) == h;
    lemma_pow2(log);
    lemma_pow2_unfold(log + 1);
    lemma_pow2_unfold(log + 2);
    lemma_pow2_unfold(log + 3);
    assert(n == pow2(log + 3));
    law_fold_schedule_ends_at_four_points(log + 3, log_arities);
    assert(folds == log + 1);
    law_deep_degree_covers_both_branches(
        k,
        expanded as nat,
        segments as nat,
        length as nat,
        degree as nat,
    );
    let selected = deep_degree(k, expanded as nat, segments as nat, length as nat, degree as nat);
    let first = degree * (expanded - 1) + (k - 1);
    let second = k + (segments - 1) * length + (expanded - 1);
    let pairs = list * list;
    assert(0 <= first && 0 <= second) by (nonlinear_arith)
        requires
            first == degree * (expanded - 1) + (k - 1),
            second == k + (segments - 1) * length + (expanded - 1),
            degree >= 0,
            expanded >= 1,
            k >= 1,
            segments >= 1,
            length >= 0,
    ;
    assert(selected * pairs >= first * pairs && selected * pairs >= second * pairs && pairs >= 0
        && selected * pairs >= 0) by (nonlinear_arith)
        requires
            selected >= first,
            selected >= second,
            first >= 0,
            pairs == list * list,
    ;
    law_opening_batch_is_a_curve_through_all_functions(n, k, functions);
    law_first_reduction_is_a_line_over_the_domain(n, k);
    lemma_reductions_stay_below_the_batch(n, k, functions, i as nat);
    assert(rounds[i]@ == (commit_round_error_numerator(n, k, i as nat), arguments.11@));
    assert(rounds[0]@ == (commit_round_error_numerator(n, k, 0), arguments.11@));
    assert(commit_round_is_priced(n, k, arguments.11@, i));
    if i + 1 < folds {
        assert(rounds[i + 1]@ == (commit_round_error_numerator(n, k, (i + 1) as nat), arguments.11@));
        law_reduction_errors_strictly_decrease(n, k, i as nat);
        let half = pow2((log + 2 - i) as nat);
        lemma_pow2_unfold((log + 3 - i) as nat);
        lemma_pow2_adds((log + 3 - i) as nat, i as nat);
        assert(2 * half * pow2(i as nat) == n);
        law_reduction_errors_halve(half, k, i as nat);
    }
    lemma_pow_positive(7, arguments.24 as nat);
    lemma_pow_positive(12, arguments.24 as nat);
    law_largest_event_is_priced_by_its_own_error(report, i);
}

/// When a ledger is issued, over the arguments of the call.
///
/// The trace domain `h` is a power of two above 36, all other sizes of the profile follow from it, the
/// matrices are ten, opened and counted, the folds are binary and as many as take `8 h` points to
/// four, and the field has room for every error: for `K - 1` roots for each candidate, for each DEEP
/// degree for each pair, and for the batch, which is at least as large as each reduction.
pub proof fn law_ledger_is_issued_for_its_profile(
    arguments: (
        usize,
        usize,
        usize,
        usize,
        usize,
        usize,
        usize,
        usize,
        usize,
        usize,
        usize,
        Natural,
        usize,
        usize,
        &[usize],
        &[usize],
        usize,
        bool,
        usize,
        usize,
        usize,
        usize,
        &[usize],
        usize,
        usize,
        bool,
    ),
    result: Option<FriRbrStateTransitionReport>,
)
    requires
        call_ensures(exact_fri_rbr_state_transition_report, arguments, result),
    ensures
        result is Some <==> {
            let (h, k, n) = (arguments.0 as int, arguments.1 as int, arguments.2 as int);
            let (expanded, segments, length) = (
                arguments.5 as int,
                arguments.6 as int,
                arguments.7 as int,
            );
            let (degree, list) = (arguments.8 as int, arguments.9 as int);
            let (constraints, field) = (arguments.10 as int, arguments.11@);
            let (widths, points) = (arguments.14@, arguments.15@);
            let functions = arguments.16 as int;
            let folds = arguments.22@;
            let (a, b) = (k - 2, 2 * k);
            let first = (degree * (expanded - 1) + (k - 1)) * (list * list) + n;
            let second = (k + (segments - 1) * length + (expanded - 1)) * (list * list) + n;
            &&& is_pow2(h) && h > 36
            &&& k == 2 * h && n == 8 * h && expanded == 2 * h + 2
            &&& arguments.3 == h && arguments.4 == 9 * h
            &&& segments >= 2 && length >= 1 && degree >= 1 && list >= 1 && constraints >= 2
            &&& arguments.12 == 3 && arguments.13 == 10
            &&& widths.len() == 10 && points.len() == 10
            &&& forall|i: int| 0 <= i < 10 ==> #[trigger] widths[i] >= 1
            &&& forall|i: int| 0 <= i < 10 ==> #[trigger] points[i] >= 1
            &&& functions == opened_column_count(widths, points) && functions >= 2
            &&& arguments.17
            &&& arguments.18 == n && arguments.19 == k && arguments.20 == 2 && arguments.21 == 1
            &&& n == 4 * pow2(folds.len())
            &&& forall|i: int| 0 <= i < folds.len() ==> #[trigger] folds[i] == 1
            &&& arguments.23 == 4
            &&& 1 <= arguments.24 <= u32::MAX
            &&& arguments.25
            &&& 9 * h < field
            &&& (constraints - 1) * list < field && (constraints - 1) * list <= usize::MAX
            &&& first < field && first <= usize::MAX
            &&& second < field && second <= usize::MAX
            &&& (functions - 1) * (13 * b * (57127 * n * (b * b) + 48 * (a * a))) <= (field - 1) * (96
                * (a * a * a))
        },
{
    let (h, k, n) = (arguments.0 as nat, arguments.1 as nat, arguments.2 as nat);
    let (expanded, segments, length) = (arguments.5 as int, arguments.6 as int, arguments.7 as int);
    let (degree, list) = (arguments.8 as int, arguments.9 as int);
    let field = arguments.11@;
    let functions = arguments.16 as nat;
    let folds = arguments.22@;
    if is_pow2(h as int) && k == 2 * h && n == 8 * h {
        is_pow2_equiv(h as int);
        let log = choose|log: nat| pow(2, log) == h;
        lemma_pow2(log);
        lemma_pow2_unfold(log + 1);
        lemma_pow2_unfold(log + 2);
        lemma_pow2_unfold(log + 3);
        assert(n == pow2(log + 3));
        law_fold_schedule_ends_at_four_points(log + 3, folds);
        lemma_pow2_unfold(log + 3);
        if n == 4 * pow2(folds.len()) {
            assert(folds.len() == log + 1) by {
                if folds.len() < log + 1 {
                    lemma_pow2_strictly_increases(folds.len(), log + 1);
                } else if folds.len() > log + 1 {
                    lemma_pow2_strictly_increases(log + 1, folds.len());
                }
            }
        }
        law_rate_envelope_is_a_degree_threshold(k);
        law_deep_degree_covers_both_branches(
            k,
            expanded as nat,
            segments as nat,
            length as nat,
            degree as nat,
        );
        let selected = deep_degree(
            k,
            expanded as nat,
            segments as nat,
            length as nat,
            degree as nat,
        );
        let first = degree * (expanded - 1) + (k - 1);
        let second = k + (segments - 1) * length + (expanded - 1);
        let pairs = list * list;
        assert(selected * pairs >= first * pairs && selected * pairs >= second * pairs)
            by (nonlinear_arith)
            requires
                selected >= first,
                selected >= second,
                pairs == list * list,
        ;
        if k > 2 && functions >= 2 {
            law_opening_batch_is_a_curve_through_all_functions(n, k, functions);
            let (a, b) = (k - 2, 2 * k);
            let x = (functions - 1) * (13 * b * (57127 * n * (b * b) + 48 * (a * a)));
            let y = 96 * (a * a * a);
            let q = opening_batch_error_numerator(n, k, functions) as int;
            assert(y > 0) by (nonlinear_arith)
                requires
                    y == 96 * (a * a * a),
                    a > 0,
            ;
            assert(q < field <==> x <= (field - 1) * y) by (nonlinear_arith)
                requires
                    (q - 1) * y < x <= q * y,
                    y > 0,
            ;
            if q < field && n == 4 * pow2(folds.len()) {
                assert forall|i: int| 0 <= i < folds.len() implies #[trigger] commit_round_is_priced(
                    n,
                    k,
                    field,
                    i,
                ) by {
                    lemma_reductions_stay_below_the_batch(n, k, functions, i as nat);
                    lemma_pow2_strictly_increases(i as nat, folds.len());
                    lemma_pow2_pos(i as nat);
                    lemma_div_non_zero(n as int, pow2(i as nat) as int);
                }
            }
        }
    }
}

} // verus!
