//! The openings of a hiding commitment scheme: the points that are opened, and the split of the
//! opened values into a public and a hidden part.
//!
//! Opened values nest by round, then matrix, then point; each point has a list of values.
use crate::field::Field;
use crate::hiding_pcs::{
    lagrange_quotient_hiding_query_bounds_are_satisfied, query_bounds_hold, HidingFriPcs,
};
use crate::powers::checked_power_of_two;
use vstd::arithmetic::div_mod::*;
use vstd::arithmetic::mul::*;
use vstd::arithmetic::power2::*;
use vstd::prelude::*;

verus! {

/// The value is one of the points that some matrix of some round is opened at.
pub open spec fn is_opened_at<E>(rounds: Seq<Vec<Vec<E>>>, point: E) -> bool {
    exists|round: int, matrix: int, index: int|
        0 <= round < rounds.len() && 0 <= matrix < rounds[round]@.len() && 0 <= index
            < rounds[round]@[matrix]@.len() && #[trigger] rounds[round]@[matrix]@[index] == point
}

/// The sequence holds every distinct opening point once.
pub open spec fn lists_opening_points<E>(distinct: Seq<E>, rounds: Seq<Vec<Vec<E>>>) -> bool {
    &&& distinct.no_duplicates()
    &&& forall|point: E| #[trigger] distinct.contains(point) <==> is_opened_at(rounds, point)
}

/// Two lists of the distinct opening points have one length.
pub proof fn lemma_lists_have_one_length<E>(a: Seq<E>, b: Seq<E>, rounds: Seq<Vec<Vec<E>>>)
    requires
        lists_opening_points(a, rounds),
        lists_opening_points(b, rounds),
    ensures
        a.len() == b.len(),
{
    a.unique_seq_to_set();
    b.unique_seq_to_set();
    assert(a.to_set() =~= b.to_set()) by {
        assert forall|point: E| a.to_set().contains(point) == b.to_set().contains(point) by {
            assert(a.contains(point) == b.contains(point));
        }
    }
}

/// All points are valid field elements.
pub open spec fn points_are_valid<E: Field>(rounds: Seq<Vec<Vec<E>>>) -> bool {
    forall|round: int, matrix: int, index: int|
        0 <= round < rounds.len() && 0 <= matrix < rounds[round]@.len() && 0 <= index
            < rounds[round]@[matrix]@.len() ==> (#[trigger] rounds[round]@[matrix]@[index]).valid()
}

/// The sequence holds the point.
fn holds<E: Field>(points: &Vec<E>, point: E) -> (r: bool)
    requires
        forall|i: int| 0 <= i < points@.len() ==> (#[trigger] points@[i]).valid(),
        point.valid(),
    ensures
        r == points@.contains(point),
{
    let count: usize = points.len();
    let mut i: usize = 0;
    while i < count
        invariant
            i <= count,
            count == points@.len(),
            forall|j: int| 0 <= j < points@.len() ==> (#[trigger] points@[j]).valid(),
            point.valid(),
            forall|j: int| 0 <= j < i ==> points@[j] != point,
        decreases count - i,
    {
        if points[i].equals(point) {
            return true;
        }
        i = i + 1;
    }
    false
}

/// `points` holds each point before the given position once.
spec fn collected<E>(
    points: Seq<E>,
    rounds: Seq<Vec<Vec<E>>>,
    round: int,
    matrix: int,
    index: int,
) -> bool {
    &&& points.no_duplicates()
    &&& forall|p: E|
        #[trigger] points.contains(p) <==> exists|r: int, m: int, k: int|
            comes_before(r, m, k, round, matrix, index) && 0 <= r < rounds.len() && 0 <= m
                < rounds[r]@.len() && 0 <= k < rounds[r]@[m]@.len()
                && #[trigger] rounds[r]@[m]@[k] == p
}

/// The lexicographic order of positions.
spec fn comes_before(r: int, m: int, k: int, round: int, matrix: int, index: int) -> bool {
    r < round || (r == round && (m < matrix || (m == matrix && k < index)))
}

/// Every distinct point that some matrix of some round is opened at, once.
pub fn distinct_opening_points<E: Field>(rounds: &Vec<Vec<Vec<E>>>) -> (r: Vec<E>)
    requires
        points_are_valid(rounds@),
    ensures
        lists_opening_points(r@, rounds@),
{
    let round_count: usize = rounds.len();
    let mut points: Vec<E> = Vec::new();
    let mut round: usize = 0;
    while round < round_count
        invariant
            round <= round_count,
            round_count == rounds@.len(),
            points_are_valid(rounds@),
            forall|i: int| 0 <= i < points@.len() ==> (#[trigger] points@[i]).valid(),
            collected(points@, rounds@, round as int, 0, 0),
        decreases round_count - round,
    {
        let matrix_count: usize = rounds[round].len();
        let mut matrix: usize = 0;
        while matrix < matrix_count
            invariant
                round < round_count,
                round_count == rounds@.len(),
                matrix <= matrix_count,
                matrix_count == rounds@[round as int]@.len(),
                points_are_valid(rounds@),
                forall|i: int| 0 <= i < points@.len() ==> (#[trigger] points@[i]).valid(),
                collected(points@, rounds@, round as int, matrix as int, 0),
            decreases matrix_count - matrix,
        {
            let point_count: usize = rounds[round][matrix].len();
            let mut index: usize = 0;
            while index < point_count
                invariant
                    round < round_count,
                    round_count == rounds@.len(),
                    matrix < matrix_count,
                    matrix_count == rounds@[round as int]@.len(),
                    index <= point_count,
                    point_count == rounds@[round as int]@[matrix as int]@.len(),
                    points_are_valid(rounds@),
                    forall|i: int| 0 <= i < points@.len() ==> (#[trigger] points@[i]).valid(),
                    collected(points@, rounds@, round as int, matrix as int, index as int),
                decreases point_count - index,
            {
                let point: E = rounds[round][matrix][index];
                let ghost before = points@;
                assert(point == rounds@[round as int]@[matrix as int]@[index as int]);
                assert(point.valid());
                if !holds(&points, point) {
                    points.push(point);
                }
                proof {
                    lemma_collect_next(
                        before,
                        points@,
                        rounds@,
                        round as int,
                        matrix as int,
                        index as int,
                    );
                }
                index = index + 1;
            }
            matrix = matrix + 1;
            proof {
                lemma_same_collection(
                    points@,
                    rounds@,
                    (round as int, matrix - 1, point_count as int),
                    (round as int, matrix as int, 0),
                );
            }
        }
        round = round + 1;
        proof {
            lemma_same_collection(
                points@,
                rounds@,
                (round - 1, matrix_count as int, 0),
                (round as int, 0, 0),
            );
        }
    }
    proof {
        assert forall|point: E| #[trigger] points@.contains(point) implies is_opened_at(
            rounds@,
            point,
        ) by {
            let (r, m, k) = choose|r: int, m: int, k: int|
                comes_before(r, m, k, round_count as int, 0, 0) && 0 <= r < rounds@.len() && 0 <= m
                    < rounds@[r]@.len() && 0 <= k < rounds@[r]@[m]@.len()
                    && #[trigger] rounds@[r]@[m]@[k] == point;
            assert(rounds@[r]@[m]@[k] == point);
        }
        assert forall|point: E| is_opened_at(rounds@, point) implies #[trigger] points@.contains(
            point,
        ) by {
            let (r, m, k) = choose|r: int, m: int, k: int|
                0 <= r < rounds@.len() && 0 <= m < rounds@[r]@.len() && 0 <= k
                    < rounds@[r]@[m]@.len() && #[trigger] rounds@[r]@[m]@[k] == point;
            assert(comes_before(r, m, k, round_count as int, 0, 0));
            assert(rounds@[r]@[m]@[k] == point);
        }
    }
    points
}

/// Taking up the point at a position.
proof fn lemma_collect_next<E>(
    before: Seq<E>,
    after: Seq<E>,
    rounds: Seq<Vec<Vec<E>>>,
    round: int,
    matrix: int,
    index: int,
)
    requires
        collected(before, rounds, round, matrix, index),
        0 <= round < rounds.len(),
        0 <= matrix < rounds[round]@.len(),
        0 <= index < rounds[round]@[matrix]@.len(),
        after == if before.contains(rounds[round]@[matrix]@[index]) {
            before
        } else {
            before.push(rounds[round]@[matrix]@[index])
        },
    ensures
        collected(after, rounds, round, matrix, index + 1),
{
    let point = rounds[round]@[matrix]@[index];
    assert forall|p: E| #[trigger] after.contains(p) <==> before.contains(p) || p == point by {
        if before.contains(p) && !before.contains(point) {
            let i = before.index_of(p);
            assert(after[i] == p);
        }
        if p == point && !before.contains(point) {
            assert(after[before.len() as int] == p);
        }
        if after.contains(p) && !before.contains(point) {
            let i = after.index_of(p);
            if i < before.len() {
                assert(before[i] == p);
            }
        }
    }
    assert forall|p: E| #[trigger] after.contains(p) implies exists|r: int, m: int, k: int|
        comes_before(r, m, k, round, matrix, index + 1) && 0 <= r < rounds.len() && 0 <= m
            < rounds[r]@.len() && 0 <= k < rounds[r]@[m]@.len() && #[trigger] rounds[r]@[m]@[k]
            == p by {
        if before.contains(p) {
            let (r, m, k) = choose|r: int, m: int, k: int|
                comes_before(r, m, k, round, matrix, index) && 0 <= r < rounds.len() && 0 <= m
                    < rounds[r]@.len() && 0 <= k < rounds[r]@[m]@.len()
                    && #[trigger] rounds[r]@[m]@[k] == p;
            assert(comes_before(r, m, k, round, matrix, index + 1));
            assert(rounds[r]@[m]@[k] == p);
        } else {
            assert(comes_before(round, matrix, index, round, matrix, index + 1));
            assert(rounds[round]@[matrix]@[index] == p);
        }
    }
    assert forall|p: E|
        (exists|r: int, m: int, k: int|
            comes_before(r, m, k, round, matrix, index + 1) && 0 <= r < rounds.len() && 0 <= m
                < rounds[r]@.len() && 0 <= k < rounds[r]@[m]@.len()
                && #[trigger] rounds[r]@[m]@[k] == p) implies #[trigger] after.contains(p) by {
        let (r, m, k) = choose|r: int, m: int, k: int|
            comes_before(r, m, k, round, matrix, index + 1) && 0 <= r < rounds.len() && 0 <= m
                < rounds[r]@.len() && 0 <= k < rounds[r]@[m]@.len()
                && #[trigger] rounds[r]@[m]@[k] == p;
        if !(r == round && m == matrix && k == index) {
            assert(comes_before(r, m, k, round, matrix, index));
            assert(rounds[r]@[m]@[k] == p);
            assert(before.contains(p));
        }
    }
}

/// Two positions with no point between them.
proof fn lemma_same_collection<E>(
    points: Seq<E>,
    rounds: Seq<Vec<Vec<E>>>,
    from: (int, int, int),
    to: (int, int, int),
)
    requires
        collected(points, rounds, from.0, from.1, from.2),
        forall|r: int, m: int, k: int|
            0 <= r < rounds.len() && 0 <= m < rounds[r]@.len() && 0 <= k < rounds[r]@[m]@.len() ==> (
            #[trigger] comes_before(r, m, k, from.0, from.1, from.2) <==> comes_before(
                r,
                m,
                k,
                to.0,
                to.1,
                to.2,
            )),
    ensures
        collected(points, rounds, to.0, to.1, to.2),
{
    assert forall|p: E|
        #[trigger] points.contains(p) <==> exists|r: int, m: int, k: int|
            comes_before(r, m, k, to.0, to.1, to.2) && 0 <= r < rounds.len() && 0 <= m
                < rounds[r]@.len() && 0 <= k < rounds[r]@[m]@.len()
                && #[trigger] rounds[r]@[m]@[k] == p by {
        if points.contains(p) {
            let (r, m, k) = choose|r: int, m: int, k: int|
                comes_before(r, m, k, from.0, from.1, from.2) && 0 <= r < rounds.len() && 0 <= m
                    < rounds[r]@.len() && 0 <= k < rounds[r]@[m]@.len()
                    && #[trigger] rounds[r]@[m]@[k] == p;
            assert(comes_before(r, m, k, to.0, to.1, to.2));
            assert(rounds[r]@[m]@[k] == p);
        }
        if exists|r: int, m: int, k: int|
            comes_before(r, m, k, to.0, to.1, to.2) && 0 <= r < rounds.len() && 0 <= m
                < rounds[r]@.len() && 0 <= k < rounds[r]@[m]@.len()
                && #[trigger] rounds[r]@[m]@[k] == p {
            let (r, m, k) = choose|r: int, m: int, k: int|
                comes_before(r, m, k, to.0, to.1, to.2) && 0 <= r < rounds.len() && 0 <= m
                    < rounds[r]@.len() && 0 <= k < rounds[r]@[m]@.len()
                    && #[trigger] rounds[r]@[m]@[k] == p;
            assert(comes_before(r, m, k, from.0, from.1, from.2));
            assert(rounds[r]@[m]@[k] == p);
        }
    }
}

/// Why a set of openings is refused.
#[derive(Clone, Copy, Debug, PartialEq, Eq)]
pub enum CapacityError {
    /// Twice the FRI blowup must fit the word.
    LdeFactorOverflow,
    /// The committed LDE height must be divisible by twice the FRI blowup.
    HeightNotDivisible { round: usize, matrix: usize },
    /// The randomizer degree is insufficient for ePrint 2024/1037 Equations (16) and (17).
    InsufficientCapacity {
        round: usize,
        matrix: usize,
        trace_domain_size: usize,
        num_extension_queries: usize,
    },
}

/// A committed matrix of this height has room for the queries.
pub open spec fn height_has_capacity(
    height: nat,
    factor: nat,
    extension_degree: nat,
    num_extension_queries: nat,
    num_domain_queries: nat,
) -> bool {
    &&& height % factor == 0
    &&& query_bounds_hold(
        height / factor,
        extension_degree,
        num_extension_queries,
        num_domain_queries,
    )
}

/// Every committed matrix before the given one has room for the queries.
pub open spec fn earlier_heights_have_capacity(
    heights: Seq<Vec<usize>>,
    round: int,
    matrix: int,
    factor: nat,
    extension_degree: nat,
    num_extension_queries: nat,
    num_domain_queries: nat,
) -> bool {
    forall|r: int, m: int|
        0 <= r < heights.len() && 0 <= m < heights[r]@.len() && (r < round || (r == round && m
            < matrix)) ==> height_has_capacity(
            #[trigger] heights[r]@[m] as nat,
            factor,
            extension_degree,
            num_extension_queries,
            num_domain_queries,
        )
}

/// What a check of the committed matrices, round by round, comes to: the first one without room is
/// reported.
pub open spec fn is_capacity_outcome(
    outcome: Result<(), CapacityError>,
    heights: Seq<Vec<usize>>,
    log_blowup: nat,
    extension_degree: nat,
    num_extension_queries: nat,
    num_domain_queries: nat,
) -> bool {
    let factor = pow2(log_blowup + 1);
    match outcome {
        Ok(()) => factor <= usize::MAX && earlier_heights_have_capacity(
            heights,
            heights.len() as int,
            0,
            factor,
            extension_degree,
            num_extension_queries,
            num_domain_queries,
        ),
        Err(CapacityError::LdeFactorOverflow) => factor > usize::MAX,
        Err(CapacityError::HeightNotDivisible { round, matrix }) => {
            &&& factor <= usize::MAX
            &&& round < heights.len() && matrix < heights[round as int]@.len()
            &&& heights[round as int]@[matrix as int] as nat % factor != 0
            &&& earlier_heights_have_capacity(
                heights,
                round as int,
                matrix as int,
                factor,
                extension_degree,
                num_extension_queries,
                num_domain_queries,
            )
        },
        Err(
            CapacityError::InsufficientCapacity {
                round,
                matrix,
                trace_domain_size,
                num_extension_queries: counted,
            },
        ) => {
            &&& factor <= usize::MAX
            &&& counted == num_extension_queries
            &&& round < heights.len() && matrix < heights[round as int]@.len()
            &&& heights[round as int]@[matrix as int] as nat % factor == 0
            &&& trace_domain_size == heights[round as int]@[matrix as int] as nat / factor
            &&& !query_bounds_hold(
                trace_domain_size as nat,
                extension_degree,
                num_extension_queries,
                num_domain_queries,
            )
            &&& earlier_heights_have_capacity(
                heights,
                round as int,
                matrix as int,
                factor,
                extension_degree,
                num_extension_queries,
                num_domain_queries,
            )
        },
    }
}

/// Checks that every committed matrix, given by its LDE height, has room for the queries.
pub fn check_query_capacity(
    heights: &Vec<Vec<usize>>,
    log_blowup: usize,
    extension_degree: usize,
    num_extension_queries: usize,
    num_domain_queries: usize,
) -> (r: Result<(), CapacityError>)
    ensures
        is_capacity_outcome(
            r,
            heights@,
            log_blowup as nat,
            extension_degree as nat,
            num_extension_queries as nat,
            num_domain_queries as nat,
        ),
{
    let factor: usize = match two_blowups(log_blowup) {
        Some(factor) => factor,
        None => {
            return Err(CapacityError::LdeFactorOverflow);
        },
    };
    let ghost f = factor as nat;
    let ghost e = extension_degree as nat;
    let ghost nf = num_extension_queries as nat;
    let ghost nd = num_domain_queries as nat;
    let round_count: usize = heights.len();
    let mut round: usize = 0;
    while round < round_count
        invariant
            round <= round_count,
            round_count == heights@.len(),
            f == factor,
            factor > 0,
            factor == pow2((log_blowup + 1) as nat),
            e == extension_degree,
            nf == num_extension_queries,
            nd == num_domain_queries,
            earlier_heights_have_capacity(heights@, round as int, 0, f, e, nf, nd),
        decreases round_count - round,
    {
        let matrix_count: usize = heights[round].len();
        let mut matrix: usize = 0;
        while matrix < matrix_count
            invariant
                round < round_count,
                round_count == heights@.len(),
                matrix <= matrix_count,
                matrix_count == heights@[round as int]@.len(),
                f == factor,
                factor > 0,
                factor == pow2((log_blowup + 1) as nat),
                e == extension_degree,
                nf == num_extension_queries,
                nd == num_domain_queries,
                earlier_heights_have_capacity(
                    heights@,
                    round as int,
                    matrix as int,
                    f,
                    e,
                    nf,
                    nd,
                ),
            decreases matrix_count - matrix,
        {
            let height: usize = heights[round][matrix];
            if height % factor != 0 {
                return Err(CapacityError::HeightNotDivisible { round, matrix });
            }
            let trace_domain_size: usize = height / factor;
            if !lagrange_quotient_hiding_query_bounds_are_satisfied(
                trace_domain_size,
                extension_degree,
                num_extension_queries,
                num_domain_queries,
            ) {
                return Err(
                    CapacityError::InsufficientCapacity {
                        round,
                        matrix,
                        trace_domain_size,
                        num_extension_queries,
                    },
                );
            }
            matrix = matrix + 1;
        }
        round = round + 1;
    }
    Ok(())
}

/// `2^(log_blowup + 1)`, or nothing where that exceeds the word.
pub fn two_blowups(log_blowup: usize) -> (r: Option<usize>)
    ensures
        r is Some <==> pow2((log_blowup + 1) as nat) <= usize::MAX,
        r matches Some(factor) ==> factor == pow2((log_blowup + 1) as nat) && factor > 0,
{
    proof {
        lemma_pow2_pos((log_blowup + 1) as nat);
    }
    match log_blowup.checked_add(1) {
        Some(exponent) => checked_power_of_two(exponent),
        None => {
            proof {
                lemma_large_exponent((log_blowup + 1) as nat);
            }
            None
        },
    }
}

/// A power of two with an exponent beyond the word is beyond the word.
proof fn lemma_large_exponent(exponent: nat)
    requires
        exponent > usize::MAX,
    ensures
        pow2(exponent) > usize::MAX,
{
    lemma_exponent_below_power(exponent);
}

proof fn lemma_exponent_below_power(exponent: nat)
    ensures
        exponent < pow2(exponent),
    decreases exponent,
{
    if exponent == 0 {
        lemma_pow2_pos(0);
    } else {
        lemma_exponent_below_power((exponent - 1) as nat);
        lemma_pow2_unfold(exponent);
    }
}

/// The distinct opening points, over the argument of the call: every point that some matrix is opened
/// at stands in the list, every entry of the list is such a point, and no two entries are the same.
pub proof fn law_distinct_points_are_the_opened_ones<E: Field>(
    rounds: Vec<Vec<Vec<E>>>,
    distinct: Vec<E>,
    entry: int,
    other_entry: int,
)
    requires
        call_ensures(distinct_opening_points::<E>, (&rounds,), distinct),
        0 <= entry < distinct@.len(),
        0 <= other_entry < distinct@.len(),
    ensures
        forall|r: int, m: int, k: int|
            0 <= r < rounds@.len() && 0 <= m < rounds@[r]@.len() && 0 <= k
                < rounds@[r]@[m]@.len() ==> distinct@.contains(#[trigger] rounds@[r]@[m]@[k]),
        exists|r: int, m: int, k: int|
            0 <= r < rounds@.len() && 0 <= m < rounds@[r]@.len() && 0 <= k < rounds@[r]@[m]@.len()
                && #[trigger] rounds@[r]@[m]@[k] == distinct@[entry],
        distinct@[entry] == distinct@[other_entry] ==> entry == other_entry,
{
    assert forall|r: int, m: int, k: int|
        0 <= r < rounds@.len() && 0 <= m < rounds@[r]@.len() && 0 <= k
            < rounds@[r]@[m]@.len() implies distinct@.contains(#[trigger] rounds@[r]@[m]@[k]) by {
        assert(is_opened_at(rounds@, rounds@[r]@[m]@[k]));
    }
    assert(distinct@.contains(distinct@[entry]));
    assert(is_opened_at(rounds@, distinct@[entry]));
}

/// A committed height has room exactly where it is the trace domain size times twice the blowup, and
/// that many points hold every query once, and two base field values for each domain query and each
/// coordinate of an extension query.
proof fn lemma_height_has_capacity(height: nat, factor: nat, e: nat, nf: nat, nd: nat)
    requires
        factor > 0,
    ensures
        height_has_capacity(height, factor, e, nf, nd) <==> exists|trace: nat|
            #[trigger] (trace * factor) == height && nf + nd <= trace && 2 * (e * nf) + 2 * nd
                <= trace,
{
    lemma_fundamental_div_mod(height as int, factor as int);
    let quotient = height / factor;
    lemma_mul_is_commutative(quotient as int, factor as int);
    if height_has_capacity(height, factor, e, nf, nd) {
        assert(quotient * factor == height);
    }
    if exists|trace: nat|
        #[trigger] (trace * factor) == height && nf + nd <= trace && 2 * (e * nf) + 2 * nd <= trace {
        let trace = choose|trace: nat|
            #[trigger] (trace * factor) == height && nf + nd <= trace && 2 * (e * nf) + 2 * nd
                <= trace;
        lemma_div_multiples_vanish(trace as int, factor as int);
        lemma_mod_multiples_basic(trace as int, factor as int);
        lemma_mul_is_commutative(trace as int, factor as int);
    }
}

/// What the capacity check answers, over the arguments of the call.
///
/// It is passed exactly where twice the blowup fits the word and every committed height is a multiple
/// `trace * 2^(log_blowup + 1)` of it with room for the queries in `trace` points. Otherwise the first
/// height, matrix by matrix, that is no such multiple or has no room is named, and all before it pass.
pub proof fn law_capacity_is_that_of_every_committed_trace(
    heights: Vec<Vec<usize>>,
    log_blowup: usize,
    extension_degree: usize,
    num_extension_queries: usize,
    num_domain_queries: usize,
    outcome: Result<(), CapacityError>,
    round: int,
    matrix: int,
)
    requires
        call_ensures(
            check_query_capacity,
            (&heights, log_blowup, extension_degree, num_extension_queries, num_domain_queries),
            outcome,
        ),
        0 <= round < heights@.len(),
        0 <= matrix < heights@[round]@.len(),
    ensures
        ({
            let factor = 2 * pow2(log_blowup as nat);
            let room = 2 * (extension_degree * num_extension_queries) + 2 * num_domain_queries;
            let queries = num_extension_queries + num_domain_queries;
            let height = heights@[round]@[matrix];
            let passes = exists|trace: nat|
                #[trigger] (trace * factor) == height && queries <= trace && room <= trace;
            &&& outcome == Err::<(), CapacityError>(CapacityError::LdeFactorOverflow) <==> factor
                > usize::MAX
            &&& outcome is Ok ==> passes
            &&& outcome matches Err(CapacityError::HeightNotDivisible { round: r, matrix: m }) ==> {
                &&& r < heights@.len() && m < heights@[r as int]@.len()
                &&& r == round && m == matrix ==> height as nat % factor != 0
                &&& round < r || round == r && matrix < m ==> passes
            }
            &&& outcome matches Err(
                CapacityError::InsufficientCapacity {
                    round: r,
                    matrix: m,
                    trace_domain_size: t,
                    num_extension_queries: counted,
                },
            ) ==> {
                &&& r < heights@.len() && m < heights@[r as int]@.len()
                &&& counted == num_extension_queries
                &&& r == round && m == matrix ==> t * factor == height && (queries > t || room > t)
                &&& round < r || round == r && matrix < m ==> passes
            }
        }),
{
    let factor = pow2((log_blowup + 1) as nat);
    lemma_pow2_unfold((log_blowup + 1) as nat);
    lemma_pow2_pos((log_blowup + 1) as nat);
    let (e, nf, nd) = (
        extension_degree as nat,
        num_extension_queries as nat,
        num_domain_queries as nat,
    );
    let height = heights@[round]@[matrix] as nat;
    lemma_height_has_capacity(height, factor, e, nf, nd);
    lemma_fundamental_div_mod(height as int, factor as int);
    lemma_mul_is_commutative((height / factor) as int, factor as int);
}

/// The scheme checks openings as the capacity check does, with one extension field query for each
/// distinct point and its own blowup and FRI queries.
pub proof fn law_openings_are_checked_by_their_distinct_points<E: Field>(
    pcs: HidingFriPcs,
    points: Vec<Vec<Vec<E>>>,
    heights: Vec<Vec<usize>>,
    extension_degree: usize,
    distinct: Vec<E>,
    outcome: Result<(), CapacityError>,
    direct: Result<(), CapacityError>,
)
    requires
        call_ensures(distinct_opening_points::<E>, (&points,), distinct),
        distinct@.len() <= usize::MAX,
        call_ensures(
            HidingFriPcs::check_openings::<E>,
            (&pcs, &points, &heights, extension_degree),
            outcome,
        ),
        call_ensures(
            check_query_capacity,
            (
                &heights,
                pcs.fri.log_blowup,
                extension_degree,
                distinct@.len() as usize,
                pcs.fri.num_queries,
            ),
            direct,
        ),
    ensures
        outcome == direct,
{
    assert(lists_opening_points(distinct@, points@));
    law_capacity_outcome_is_unique(
        outcome,
        direct,
        heights@,
        pcs.fri.log_blowup as nat,
        extension_degree as nat,
        distinct@.len(),
        pcs.fri.num_queries as nat,
    );
}

/// A check has one outcome.
pub proof fn law_capacity_outcome_is_unique(
    outcome: Result<(), CapacityError>,
    other: Result<(), CapacityError>,
    heights: Seq<Vec<usize>>,
    log_blowup: nat,
    extension_degree: nat,
    num_extension_queries: nat,
    num_domain_queries: nat,
)
    requires
        is_capacity_outcome(
            outcome,
            heights,
            log_blowup,
            extension_degree,
            num_extension_queries,
            num_domain_queries,
        ),
        is_capacity_outcome(
            other,
            heights,
            log_blowup,
            extension_degree,
            num_extension_queries,
            num_domain_queries,
        ),
    ensures
        outcome == other,
{
    let factor = pow2(log_blowup + 1);
    let (e, nf, nd) = (extension_degree, num_extension_queries, num_domain_queries);
    if outcome is Ok && other is Ok {
        assert(outcome->Ok_0 == () && other->Ok_0 == ());
    }
    if let Some((r, m)) = capacity_place(outcome) {
        assert(0 <= r < heights.len() && 0 <= m < heights[r]@.len());
        assert(!height_has_capacity(heights[r]@[m] as nat, factor, e, nf, nd));
        match capacity_place(other) {
            Some((s, t)) => {
                assert(0 <= s < heights.len() && 0 <= t < heights[s]@.len());
                assert(!height_has_capacity(heights[s]@[t] as nat, factor, e, nf, nd));
                assert(earlier_heights_have_capacity(heights, s, t, factor, e, nf, nd));
                assert(earlier_heights_have_capacity(heights, r, m, factor, e, nf, nd));
                assert(r == s && m == t);
            },
            None => {
                assert(earlier_heights_have_capacity(
                    heights,
                    heights.len() as int,
                    0,
                    factor,
                    e,
                    nf,
                    nd,
                ));
            },
        }
    } else if let Some((s, t)) = capacity_place(other) {
        assert(0 <= s < heights.len() && 0 <= t < heights[s]@.len());
        assert(!height_has_capacity(heights[s]@[t] as nat, factor, e, nf, nd));
        assert(earlier_heights_have_capacity(
            heights,
            heights.len() as int,
            0,
            factor,
            e,
            nf,
            nd,
        ));
    }
}

/// The round and the matrix that an outcome names.
spec fn capacity_place(outcome: Result<(), CapacityError>) -> Option<(int, int)> {
    match outcome {
        Err(CapacityError::HeightNotDivisible { round, matrix }) => Some(
            (round as int, matrix as int),
        ),
        Err(CapacityError::InsufficientCapacity { round, matrix, .. }) => Some(
            (round as int, matrix as int),
        ),
        _ => None,
    }
}

} // verus!
