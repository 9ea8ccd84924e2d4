//! DEEP-ALI out-of-domain sampling error in the form of [2024/1553] Theorems 2 and 3.
//!
//! Theorem 2 uses `L^2`, both theorems use `|G| - |D union H|`, and both include a second
//! quotient-segment degree branch. The reports round every logarithm against the prover, so they
//! are whole bits and never more than the exact expression has.
use crate::natural::Natural;
use crate::shape::{ErrorBits, StarkAirParams};
use vstd::arithmetic::mul::*;
use vstd::arithmetic::power::*;
use vstd::arithmetic::power2::*;
use vstd::prelude::*;

verus! {

/// `log2(value)` rounded down, for a positive `value`.
pub open spec fn floor_log2(value: nat) -> nat
    decreases value,
{
    if value <= 1 {
        0
    } else {
        1 + floor_log2(value / 2)
    }
}

/// `log2(value)` rounded up, for a positive `value`.
pub open spec fn ceil_log2(value: nat) -> nat {
    if is_pow2(value as int) {
        floor_log2(value)
    } else {
        floor_log2(value) + 1
    }
}

/// `n` is `log2(value)` rounded down exactly when `value` lies from `2^n` up to below `2^(n+1)`.
pub proof fn lemma_floor_log2(value: nat, n: nat)
    requires
        value > 0,
    ensures
        (n == floor_log2(value)) <==> pow2(n) <= value < pow2(n + 1),
    decreases value,
{
    lemma_pow2_unfold(n + 1);
    if value == 1 {
        lemma_pow0(2);
        if n > 0 {
            lemma_pow2_strictly_increases(0, n);
        }
    } else if n == 0 {
        lemma_pow0(2);
    } else {
        lemma_floor_log2(value / 2, (n - 1) as nat);
        lemma_pow2_unfold(n);
    }
}

/// `n` is `log2(value)` rounded up exactly when `2^n` is the first power of two from `value` on.
pub proof fn lemma_ceil_log2(value: nat, n: nat)
    requires
        value > 0,
    ensures
        (n == ceil_log2(value)) <==> value <= pow2(n) && (n > 0 ==> pow2((n - 1) as nat) < value),
{
    let f = floor_log2(value);
    lemma_floor_log2(value, f);
    is_pow2_equiv(value as int);
    if is_pow2(value as int) {
        let e = choose|e: nat| pow(2, e) == value;
        lemma_pow2_strictly_increases(e, e + 1);
        lemma_floor_log2(value, e);
        assert(value == pow2(f));
    } else {
        assert(pow(2, f) == pow2(f)) by {
            lemma_pow_positive(2, f);
        }
        assert(value != pow2(f));
    }
    let c = ceil_log2(value);
    assert(value <= pow2(c) && (c > 0 ==> pow2((c - 1) as nat) < value)) by {
        if is_pow2(value as int) && f > 0 {
            lemma_pow2_strictly_increases((f - 1) as nat, f);
        }
    }
    if n < c {
        if n < c - 1 {
            lemma_pow2_strictly_increases(n, (c - 1) as nat);
        }
    } else if n > c {
        if n - 1 > c {
            lemma_pow2_strictly_increases(c, (n - 1) as nat);
        }
    }
}

/// Exact integer lower bound on `log2(value)`.
pub fn log2_biguint_lower_bound(value: &Natural) -> (r: u64)
    requires
        value@ > 0,
    ensures
        r == floor_log2(value@),
{
    let bits: u64 = value.bits();
    proof {
        lemma_floor_log2(value@, (bits - 1) as nat);
    }
    bits - 1
}

/// Exact integer upper bound on `log2(value)`.
pub fn log2_biguint_upper_bound(value: &Natural) -> (r: u64)
    requires
        value@ > 0,
    ensures
        r == ceil_log2(value@),
{
    let bits: u64 = value.bits();
    proof {
        lemma_floor_log2(value@, (bits - 1) as nat);
    }
    if value.is_power_of_two() {
        bits - 1
    } else {
        bits
    }
}

/// `2^52`, the weight of the leading bit of a double's significand.
pub const DOUBLE_LEADING_BIT: u64 = 0x10_0000_0000_0000;

/// The biased exponent in the IEEE 754 bit pattern of a double.
pub open spec fn double_exponent(raw: u64) -> int {
    (raw / DOUBLE_LEADING_BIT) as int % 0x800
}

/// The fraction in the IEEE 754 bit pattern of a double.
pub open spec fn double_fraction(raw: u64) -> int {
    (raw % DOUBLE_LEADING_BIT) as int
}

/// The bit pattern is that of a finite double from `1.0` on.
pub open spec fn double_is_finite_and_at_least_one(raw: u64) -> bool {
    &&& raw < 0x8000_0000_0000_0000
    &&& 1023 <= double_exponent(raw) < 0x7ff
}

/// `2^52` times the value of a double from `1.0` on.
pub open spec fn scaled_double(raw: u64) -> int {
    (DOUBLE_LEADING_BIT + double_fraction(raw)) * pow2((double_exponent(raw) - 1023) as nat)
}

/// Whether the bit pattern is that of a finite double from `1.0` on.
pub fn is_finite_and_at_least_one(raw: u64) -> (r: bool)
    ensures
        r == double_is_finite_and_at_least_one(raw),
{
    let exponent: u64 = (raw / DOUBLE_LEADING_BIT) % 0x800;
    raw < 0x8000_0000_0000_0000 && exponent >= 1023 && exponent < 0x7ff
}

/// The logarithm of a double from `1.0` on, rounded up.
pub open spec fn double_ceil_log2(raw: u64) -> nat {
    (double_exponent(raw) - 1023 + (if double_fraction(raw) == 0 {
        0int
    } else {
        1int
    })) as nat
}

/// `2^double_ceil_log2` is the first power of two from the double on.
pub proof fn law_double_ceil_log2_is_tight(raw: u64)
    requires
        double_is_finite_and_at_least_one(raw),
    ensures
        scaled_double(raw) <= DOUBLE_LEADING_BIT * pow2(double_ceil_log2(raw)),
        double_ceil_log2(raw) > 0 ==> DOUBLE_LEADING_BIT * pow2(
            (double_ceil_log2(raw) - 1) as nat,
        ) < scaled_double(raw),
{
    let exponent = (double_exponent(raw) - 1023) as nat;
    let fraction = double_fraction(raw);
    let x = pow2(exponent);
    lemma_pow2_pos(exponent);
    lemma_pow2_unfold(exponent + 1);
    assert((DOUBLE_LEADING_BIT + fraction) * x <= DOUBLE_LEADING_BIT * (2 * x)) by (nonlinear_arith)
        requires
            fraction < DOUBLE_LEADING_BIT,
            x > 0,
    ;
    if fraction == 0 {
        if exponent > 0 {
            lemma_pow2_unfold(exponent);
        }
    } else {
        assert(DOUBLE_LEADING_BIT * x < (DOUBLE_LEADING_BIT + fraction) * x) by (nonlinear_arith)
            requires
                fraction > 0,
                x > 0,
        ;
    }
}

/// Exact integer upper bound on the logarithm of a positive normal `f64`, given by its bit
/// pattern. Source list-size bounds smaller than one are invalid for this calculator.
pub fn ceil_log2_f64(raw: u64) -> (r: u64)
    requires
        double_is_finite_and_at_least_one(raw),
    ensures
        r == double_ceil_log2(raw),
{
    let exponent: u64 = (raw / DOUBLE_LEADING_BIT) % 0x800 - 1023;
    let fraction: u64 = raw % DOUBLE_LEADING_BIT;
    if fraction == 0 {
        exponent
    } else {
        exponent + 1
    }
}

/// Explicit inputs to the source-form DEEP-ALI round-two error in
/// [2024/1553] Theorems 2 and 3.
///
/// This struct records the paper's parameters; constructing it does not
/// establish that a concrete protocol uses the same quotient decomposition.
/// In particular, callers must separately justify `quotient_segment_count`
/// and `quotient_segment_degree_bound` for their implementation.
#[derive(Clone, Debug, PartialEq, Eq)]
pub struct DeepAliRoundTwoParams {
    /// Cardinality of the DEEP challenge field `G`.
    pub field_cardinality: Natural,
    /// Exact size of `D union H`, from which the DEEP point is excluded.
    pub evaluation_trace_domain_union_size: usize,
    /// Source low-degree bound `k`.
    pub low_degree_bound: usize,
    /// Source expanded low-degree bound `k+`.
    pub expanded_low_degree_bound: usize,
    /// Number `f` of quotient segments.
    pub quotient_segment_count: usize,
    /// Degree bound `ell` of each quotient segment.
    pub quotient_segment_degree_bound: usize,
}

impl DeepAliRoundTwoParams {
    /// All counts are positive, `k <= k+`, and a DEEP point is left to choose.
    pub open spec fn admissible(self, air: StarkAirParams) -> bool {
        &&& air.max_constraint_degree > 0
        &&& self.low_degree_bound > 0
        &&& self.expanded_low_degree_bound >= self.low_degree_bound
        &&& self.quotient_segment_count > 0
        &&& self.quotient_segment_degree_bound > 0
        &&& self.evaluation_trace_domain_union_size < self.field_cardinality@
    }

    /// How many points the DEEP challenge is drawn from: `|G| - |D union H|`.
    pub open spec fn point_count(self) -> int {
        self.field_cardinality@ - self.evaluation_trace_domain_union_size
    }

    /// The degree of the constraints branch, `d_max (k+ - 1) + (k - 1)`.
    pub open spec fn constraint_branch(self, air: StarkAirParams) -> int {
        air.max_constraint_degree * (self.expanded_low_degree_bound - 1) + (self.low_degree_bound
            - 1)
    }

    /// The degree of the quotient-segment branch, `k + (f - 1) ell + (k+ - 1)`.
    pub open spec fn segment_branch(self) -> int {
        self.low_degree_bound + (self.quotient_segment_count - 1)
            * self.quotient_segment_degree_bound + (self.expanded_low_degree_bound - 1)
    }

    /// The larger of the two branches.
    pub open spec fn degree(self, air: StarkAirParams) -> int {
        if self.constraint_branch(air) >= self.segment_branch() {
            self.constraint_branch(air)
        } else {
            self.segment_branch()
        }
    }

    /// The whole bits of `degree * 2^list_bits / point_count`, with both logarithms rounded
    /// against the prover and nothing below zero.
    pub open spec fn error_bits(self, air: StarkAirParams, list_bits: nat) -> int {
        let bits = floor_log2(self.point_count() as nat) - ceil_log2(self.degree(air) as nat)
            - list_bits;
        if bits >= 0 {
            bits
        } else {
            0
        }
    }
}

/// The bits that `error_bits` reports are never more than the exact error has: an error that costs
/// `weight <= 2^list_bits` times the degree stays at or below `2^-bits`.
pub proof fn law_round_two_error_is_conservative(
    params: DeepAliRoundTwoParams,
    air: StarkAirParams,
    list_bits: nat,
    weight: nat,
)
    requires
        params.admissible(air),
        weight <= pow2(list_bits),
        params.error_bits(air, list_bits) > 0,
    ensures
        pow2(params.error_bits(air, list_bits) as nat) * (params.degree(air) * weight)
            <= params.point_count(),
{
    let bits = params.error_bits(air, list_bits) as nat;
    let degree = params.degree(air) as nat;
    let points = params.point_count() as nat;
    lemma_degree_is_positive(params, air);
    let f = floor_log2(points);
    let c = ceil_log2(degree);
    lemma_floor_log2(points, f);
    lemma_ceil_log2(degree, c);
    lemma_pow2_adds(bits, c);
    lemma_pow2_adds(bits + c, list_bits);
    assert(f == bits + c + list_bits);
    assert(pow2(bits) * (degree * weight) <= pow2(bits) * (pow2(c) * pow2(list_bits)))
        by (nonlinear_arith)
        requires
            degree <= pow2(c),
            weight <= pow2(list_bits),
            pow2(bits) >= 0,
    ;
    lemma_mul_is_associative(pow2(bits) as int, pow2(c) as int, pow2(list_bits) as int);
}

/// In the list-decoding regime the reported bits cover the square of every list size up to the
/// bound that was given.
pub proof fn law_list_decoding_error_is_conservative(
    params: DeepAliRoundTwoParams,
    air: StarkAirParams,
    list_size_bits: u64,
    list_size: nat,
)
    requires
        params.admissible(air),
        double_is_finite_and_at_least_one(list_size_bits),
        list_size * DOUBLE_LEADING_BIT <= scaled_double(list_size_bits),
        params.error_bits(air, 2 * double_ceil_log2(list_size_bits)) > 0,
    ensures
        pow2(params.error_bits(air, 2 * double_ceil_log2(list_size_bits)) as nat) * (params.degree(
            air,
        ) * (list_size * list_size)) <= params.point_count(),
{
    let c = double_ceil_log2(list_size_bits);
    law_double_ceil_log2_is_tight(list_size_bits);
    assert(list_size <= pow2(c)) by (nonlinear_arith)
        requires
            list_size * DOUBLE_LEADING_BIT <= DOUBLE_LEADING_BIT * pow2(c),
            DOUBLE_LEADING_BIT > 0,
    ;
    lemma_pow2_adds(c, c);
    lemma_mul_upper_bound(
        list_size as int,
        pow2(c) as int,
        list_size as int,
        pow2(c) as int,
    );
    law_round_two_error_is_conservative(params, air, 2 * c, list_size * list_size);
}

proof fn lemma_degree_is_positive(params: DeepAliRoundTwoParams, air: StarkAirParams)
    requires
        params.admissible(air),
    ensures
        params.degree(air) > 0,
        params.constraint_branch(air) >= 0,
        params.segment_branch() > 0,
{
    lemma_mul_nonnegative(
        air.max_constraint_degree as int,
        params.expanded_low_degree_bound - 1,
    );
    lemma_mul_nonnegative(
        params.quotient_segment_count - 1,
        params.quotient_segment_degree_bound as int,
    );
}

/// Source-form DEEP-ALI round-two error in the unique-decoding regime
/// ([2024/1553] Theorem 3).
///
/// Returns `None` rather than manufacturing a number when a count is zero,
/// the expanded degree is smaller than `k`, or `|D union H| >= |G|`.
pub fn deep_ali_round_two_error_udr(air: &StarkAirParams, params: &DeepAliRoundTwoParams) -> (r:
    Option<ErrorBits>)
    ensures
        r is Some <==> params.admissible(*air),
        r is Some ==> r->0.bits == params.error_bits(*air, 0),
{
    deep_ali_round_two_error(air, params, 0)
}

/// Source-form DEEP-ALI round-two error in the list-decoding regime
/// ([2024/1553] Theorem 2).
///
/// The theorem's list-size contribution is quadratic. `list_size_bits` is the
/// bit pattern of the list-size bound as an `f64`, which must be
/// the bound justified for the same proximity regime as the other
/// source parameters. Returns `None` for invalid or degenerate inputs.
pub fn deep_ali_round_two_error_ldr(
    air: &StarkAirParams,
    params: &DeepAliRoundTwoParams,
    list_size_bits: u64,
) -> (r: Option<ErrorBits>)
    ensures
        r is Some <==> params.admissible(*air) && double_is_finite_and_at_least_one(list_size_bits),
        r is Some ==> r->0.bits == params.error_bits(
            *air,
            2 * double_ceil_log2(list_size_bits),
        ),
{
    if !is_finite_and_at_least_one(list_size_bits) {
        return None;
    }
    let list_size_log_upper: u64 = ceil_log2_f64(list_size_bits);
    deep_ali_round_two_error(air, params, 2 * list_size_log_upper)
}

/// The whole bits of the round-two error where the list costs `list_bits` of them.
fn deep_ali_round_two_error(
    air: &StarkAirParams,
    params: &DeepAliRoundTwoParams,
    list_bits: u64,
) -> (r: Option<ErrorBits>)
    ensures
        r is Some <==> params.admissible(*air),
        r is Some ==> r->0.bits == params.error_bits(*air, list_bits as nat),
{
    if air.max_constraint_degree == 0 || params.low_degree_bound == 0
        || params.expanded_low_degree_bound < params.low_degree_bound
        || params.quotient_segment_count == 0 || params.quotient_segment_degree_bound == 0 {
        return None;
    }
    let excluded: Natural = Natural::from_usize(params.evaluation_trace_domain_union_size);
    if !excluded.less_than(&params.field_cardinality) {
        return None;
    }
    proof {
        lemma_degree_is_positive(*params, *air);
    }
    let denominator: Natural = params.field_cardinality.minus(&excluded);
    let k: Natural = Natural::from_usize(params.low_degree_bound);
    let k_minus_one: Natural = Natural::from_usize(params.low_degree_bound - 1);
    let k_plus_minus_one: Natural = Natural::from_usize(params.expanded_low_degree_bound - 1);
    let first_branch: Natural = Natural::from_usize(air.max_constraint_degree).times(
        &k_plus_minus_one,
    ).plus(&k_minus_one);
    let second_branch: Natural = k.plus(
        &Natural::from_usize(params.quotient_segment_count - 1).times(
            &Natural::from_usize(params.quotient_segment_degree_bound),
        ),
    ).plus(&k_plus_minus_one);
    let selected: Natural = if first_branch.less_than(&second_branch) {
        second_branch
    } else {
        first_branch
    };
    let point_bits: u64 = log2_biguint_lower_bound(&denominator);
    let degree_bits: u64 = log2_biguint_upper_bound(&selected);
    let bits: u64 = point_bits.saturating_sub(degree_bits).saturating_sub(list_bits);
    Some(ErrorBits { bits })
}

/// The reported bits are `floor(log2 points) - ceil(log2 degree) - list_bits` for every degree that
/// is the larger of the two branches.
proof fn lemma_error_bits(
    params: DeepAliRoundTwoParams,
    air: StarkAirParams,
    list_bits: nat,
    point_bits: nat,
    degree_bits: nat,
    degree: nat,
)
    requires
        params.admissible(air),
        pow2(point_bits) <= params.field_cardinality@ - params.evaluation_trace_domain_union_size
            < pow2(point_bits + 1),
        degree <= pow2(degree_bits),
        degree_bits > 0 ==> pow2((degree_bits - 1) as nat) < degree,
        degree >= air.max_constraint_degree * (params.expanded_low_degree_bound - 1) + (
        params.low_degree_bound - 1),
        degree >= params.low_degree_bound + (params.quotient_segment_count - 1)
            * params.quotient_segment_degree_bound + (params.expanded_low_degree_bound - 1),
        degree == air.max_constraint_degree * (params.expanded_low_degree_bound - 1) + (
        params.low_degree_bound - 1) || degree == params.low_degree_bound + (
        params.quotient_segment_count - 1) * params.quotient_segment_degree_bound + (
        params.expanded_low_degree_bound - 1),
    ensures
        params.error_bits(air, list_bits) == if point_bits >= degree_bits + list_bits {
            point_bits - degree_bits - list_bits
        } else {
            0
        },
{
    lemma_degree_is_positive(params, air);
    lemma_floor_log2(params.point_count() as nat, point_bits);
    lemma_ceil_log2(degree, degree_bits);
}

/// The reported bits are the whole bits of the source expression, each logarithm rounded against the
/// prover, in both regimes.
///
/// `degree` is the larger of `d_max (k+ - 1) + (k - 1)` and `k + (f - 1) ell + (k+ - 1)`, and takes
/// `degree_bits` bits rounded up; the points `|G| - |D union H|` have `point_bits` bits rounded down.
/// The double that bounds the list size has the exponent `1023 + list_exponent`; with a fraction it
/// takes one bit more than that, and the list counts twice.
pub proof fn law_round_two_bits_are_those_of_the_larger_branch(
    air: StarkAirParams,
    params: DeepAliRoundTwoParams,
    raw: u64,
    list_exponent: nat,
    fraction: nat,
    point_bits: nat,
    degree_bits: nat,
    degree: nat,
    unique: ErrorBits,
    listed: ErrorBits,
)
    requires
        call_ensures(deep_ali_round_two_error_udr, (&air, &params), Some(unique)),
        call_ensures(deep_ali_round_two_error_ldr, (&air, &params, raw), Some(listed)),
        raw == (1023 + list_exponent) * 0x10_0000_0000_0000 + fraction,
        fraction < 0x10_0000_0000_0000,
        pow2(point_bits) <= params.field_cardinality@ - params.evaluation_trace_domain_union_size
            < pow2(point_bits + 1),
        degree <= pow2(degree_bits),
        degree_bits > 0 ==> pow2((degree_bits - 1) as nat) < degree,
        degree >= air.max_constraint_degree * (params.expanded_low_degree_bound - 1) + (
        params.low_degree_bound - 1),
        degree >= params.low_degree_bound + (params.quotient_segment_count - 1)
            * params.quotient_segment_degree_bound + (params.expanded_low_degree_bound - 1),
        degree == air.max_constraint_degree * (params.expanded_low_degree_bound - 1) + (
        params.low_degree_bound - 1) || degree == params.low_degree_bound + (
        params.quotient_segment_count - 1) * params.quotient_segment_degree_bound + (
        params.expanded_low_degree_bound - 1),
    ensures
        unique.bits == if point_bits >= degree_bits {
            point_bits - degree_bits
        } else {
            0
        },
        ({
            let list_bits = if fraction == 0 {
                list_exponent
            } else {
                list_exponent + 1
            };
            listed.bits == if point_bits >= degree_bits + 2 * list_bits {
                point_bits - degree_bits - 2 * list_bits
            } else {
                0
            }
        }),
{
    lemma_error_bits(params, air, 0, point_bits, degree_bits, degree);
    lemma_double_parts(raw, (1023 + list_exponent) as int, fraction as int);
    lemma_error_bits(params, air, 2 * double_ceil_log2(raw), point_bits, degree_bits, degree);
}

/// The exponent and the fraction of a double are the quotient and the remainder of its bit pattern by
/// the leading bit's weight.
proof fn lemma_double_parts(raw: u64, exponent: int, fraction: int)
    requires
        raw == exponent * 0x10_0000_0000_0000 + fraction,
        0 <= fraction < 0x10_0000_0000_0000,
        0 <= exponent < 0x800,
    ensures
        double_exponent(raw) == exponent,
        double_fraction(raw) == fraction,
{
    assert(raw / DOUBLE_LEADING_BIT == exponent && raw % DOUBLE_LEADING_BIT == fraction);
}

/// The bits are never more than either branch of the source expression has: in the unique-decoding
/// regime `2^bits` times the degree of each branch, and in the list-decoding regime that times the
/// square of every list size up to the double, is at most the number of points.
pub proof fn law_round_two_bits_cover_both_branches(
    air: StarkAirParams,
    params: DeepAliRoundTwoParams,
    raw: u64,
    list_exponent: nat,
    fraction: nat,
    list_size: nat,
    unique: ErrorBits,
    listed: ErrorBits,
)
    requires
        call_ensures(deep_ali_round_two_error_udr, (&air, &params), Some(unique)),
        call_ensures(deep_ali_round_two_error_ldr, (&air, &params, raw), Some(listed)),
        raw == (1023 + list_exponent) * 0x10_0000_0000_0000 + fraction,
        fraction < 0x10_0000_0000_0000,
        list_size * 0x10_0000_0000_0000 <= (0x10_0000_0000_0000 + fraction) * pow2(list_exponent),
    ensures
        ({
            let points = params.field_cardinality@ - params.evaluation_trace_domain_union_size;
            let constraints = air.max_constraint_degree * (params.expanded_low_degree_bound - 1) + (
            params.low_degree_bound - 1);
            let segments = params.low_degree_bound + (params.quotient_segment_count - 1)
                * params.quotient_segment_degree_bound + (params.expanded_low_degree_bound - 1);
            &&& unique.bits > 0 ==> pow2(unique.bits as nat) * constraints <= points
            &&& unique.bits > 0 ==> pow2(unique.bits as nat) * segments <= points
            &&& listed.bits > 0 ==> pow2(listed.bits as nat) * (constraints * (list_size
                * list_size)) <= points
            &&& listed.bits > 0 ==> pow2(listed.bits as nat) * (segments * (list_size * list_size))
                <= points
        }),
{
    let points = params.field_cardinality@ - params.evaluation_trace_domain_union_size;
    let constraints = air.max_constraint_degree * (params.expanded_low_degree_bound - 1) + (
    params.low_degree_bound - 1);
    let segments = params.low_degree_bound + (params.quotient_segment_count - 1)
        * params.quotient_segment_degree_bound + (params.expanded_low_degree_bound - 1);
    lemma_degree_is_positive(params, air);
    lemma_double_parts(raw, (1023 + list_exponent) as int, fraction as int);
    let degree = params.degree(air);
    lemma2_to64();
    assert(pow2(0) == 1);
    if unique.bits > 0 {
        law_round_two_error_is_conservative(params, air, 0, 1);
        lemma_product_grows(pow2(unique.bits as nat) as int, constraints, degree, 1);
        lemma_product_grows(pow2(unique.bits as nat) as int, segments, degree, 1);
    }
    if listed.bits > 0 {
        law_list_decoding_error_is_conservative(params, air, raw, list_size);
        let square = (list_size * list_size) as int;
        lemma_mul_nonnegative(list_size as int, list_size as int);
        lemma_product_grows(pow2(listed.bits as nat) as int, constraints, degree, square);
        lemma_product_grows(pow2(listed.bits as nat) as int, segments, degree, square);
    }
}

proof fn lemma_product_grows(factor: int, small: int, large: int, weight: int)
    requires
        0 <= factor,
        small <= large,
        0 <= weight,
    ensures
        factor * (small * weight) <= factor * (large * weight),
{
    lemma_mul_inequality(small, large, weight);
    lemma_mul_inequality(small * weight, large * weight, factor);
    lemma_mul_is_commutative(factor, small * weight);
    lemma_mul_is_commutative(factor, large * weight);
}

/// When bits are reported: in the unique-decoding regime exactly where every count is positive, the
/// expanded bound is not below the bound and a DEEP point is left, in the list-decoding regime
/// exactly where besides the list size is a finite double from one on, whose bit patterns lie from
/// that of one up to below that of infinity.
pub proof fn law_round_two_bits_are_reported_for_valid_parameters(
    air: StarkAirParams,
    params: DeepAliRoundTwoParams,
    raw: u64,
    unique: Option<ErrorBits>,
    listed: Option<ErrorBits>,
)
    requires
        call_ensures(deep_ali_round_two_error_udr, (&air, &params), unique),
        call_ensures(deep_ali_round_two_error_ldr, (&air, &params, raw), listed),
    ensures
        unique is Some <==> {
            &&& 1 <= air.max_constraint_degree
            &&& 1 <= params.low_degree_bound <= params.expanded_low_degree_bound
            &&& 1 <= params.quotient_segment_count
            &&& 1 <= params.quotient_segment_degree_bound
            &&& params.evaluation_trace_domain_union_size + 1 <= params.field_cardinality@
        },
        listed is Some <==> unique is Some && 0x3ff0_0000_0000_0000 <= raw < 0x7ff0_0000_0000_0000,
{
    assert(double_is_finite_and_at_least_one(raw) <==> 0x3ff0_0000_0000_0000 <= raw
        < 0x7ff0_0000_0000_0000);
}

/// A list of one candidate costs nothing, and twice the list costs two bits, as long as there are
/// bits to lose.
pub proof fn law_list_bits_count_twice(
    air: StarkAirParams,
    params: DeepAliRoundTwoParams,
    raw: u64,
    unique: ErrorBits,
    single: ErrorBits,
    listed: ErrorBits,
    doubled: ErrorBits,
)
    requires
        0x3ff0_0000_0000_0000 <= raw < 0x7fe0_0000_0000_0000,
        call_ensures(deep_ali_round_two_error_udr, (&air, &params), Some(unique)),
        call_ensures(
            deep_ali_round_two_error_ldr,
            (&air, &params, 0x3ff0_0000_0000_0000u64),
            Some(single),
        ),
        call_ensures(deep_ali_round_two_error_ldr, (&air, &params, raw), Some(listed)),
        call_ensures(
            deep_ali_round_two_error_ldr,
            (&air, &params, (raw + 0x10_0000_0000_0000) as u64),
            Some(doubled),
        ),
    ensures
        single == unique,
        listed.bits >= 2 ==> doubled.bits + 2 == listed.bits,
        listed.bits < 2 ==> doubled.bits == 0,
        listed.bits <= unique.bits,
{
    let next = (raw + 0x10_0000_0000_0000) as u64;
    lemma_double_parts(0x3ff0_0000_0000_0000u64, 1023, 0);
    let (exponent, fraction) = (raw / 0x10_0000_0000_0000, raw % 0x10_0000_0000_0000);
    lemma_double_parts(raw, exponent as int, fraction as int);
    lemma_double_parts(next, exponent + 1, fraction as int);
}

/// The two whole logarithms of a number: the last power of two up to it and the first from it on.
pub proof fn law_logarithms_enclose_the_number(value: Natural, lower: u64, upper: u64)
    requires
        value@ > 0,
        call_ensures(log2_biguint_lower_bound, (&value,), lower),
        call_ensures(log2_biguint_upper_bound, (&value,), upper),
    ensures
        pow2(lower as nat) <= value@ < 2 * pow2(lower as nat),
        value@ <= pow2(upper as nat) < 2 * value@,
        lower <= upper <= lower + 1,
{
    lemma_floor_log2(value@, lower as nat);
    lemma_ceil_log2(value@, upper as nat);
    lemma_pow2_unfold((lower + 1) as nat);
    if upper > 0 {
        lemma_pow2_unfold(upper as nat);
    } else {
        lemma2_to64();
    }
}

/// The logarithm of a double `(1 + fraction / 2^52) 2^exponent` is its exponent, rounded up where there
/// is a fraction, and a pattern is taken for a finite double from one on exactly from that of one up
/// to below that of infinity.
pub proof fn law_doubles_are_read_by_their_parts(
    raw: u64,
    exponent: nat,
    fraction: nat,
    finite: bool,
    upper: u64,
)
    requires
        call_ensures(is_finite_and_at_least_one, (raw,), finite),
        call_ensures(ceil_log2_f64, (raw,), upper),
        raw == (1023 + exponent) * 0x10_0000_0000_0000 + fraction,
        fraction < 0x10_0000_0000_0000,
        raw < 0x7ff0_0000_0000_0000,
    ensures
        finite,
        fraction == 0 ==> upper == exponent,
        fraction > 0 ==> upper == exponent + 1,
{
    lemma_double_parts(raw, (1023 + exponent) as int, fraction as int);
}

/// Below the pattern of one, and from that of infinity on, no pattern is taken for a finite double
/// from one on.
pub proof fn law_other_doubles_are_refused(raw: u64, finite: bool)
    requires
        call_ensures(is_finite_and_at_least_one, (raw,), finite),
    ensures
        finite <==> 0x3ff0_0000_0000_0000 <= raw < 0x7ff0_0000_0000_0000,
{
}

} // verus!
