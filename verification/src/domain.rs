//! Two-adic evaluation domains and the transforms between values on them and coefficients.
use crate::baby_bear::{BabyBear, BABY_BEAR_PRIME};
use crate::field::{
    all_valid, evaluate, exp_u64, lemma_difference_is_unique, lemma_power_adds,
    lemma_power_of_inverse, lemma_power_of_one, lemma_power_of_power, lemma_power_of_product,
    lemma_power_of_square, lemma_power_valid, power, Field,
};
use crate::matrix::RowMajorMatrix;
use crate::powers::checked_power_of_two;
use crate::quotient::{column_of, vanishing_at};
use p3_dft::TwoAdicSubgroupDft;
use p3_field::{Field as _, PrimeField32};
use vstd::arithmetic::div_mod::*;
use vstd::arithmetic::mul::*;
use vstd::arithmetic::power::*;
use vstd::arithmetic::power2::*;
use vstd::prelude::*;

verus! {

/// A field whose units have subgroups of every power of two as order, up to a largest one.
pub trait TwoAdicField: Field {
    /// The order of the largest two-adic subgroup, or of the largest whose order fits the word.
    spec fn max_order() -> usize;

    /// The canonical generator of the subgroup of the given order.
    spec fn root_of_unity(order: usize) -> Self;

    /// The shift of the coset on which low-degree extensions are evaluated.
    spec fn generator_value() -> Self;

    /// The generators are elements, and the shift is a unit. Those of the subgroups have exactly
    /// their order: halfway there stands minus one, and two is a unit where there is a half. The
    /// square of each generates the subgroup of half the order.
    proof fn root_laws(order: usize)
        requires
            is_pow2(order as int),
            order <= Self::max_order(),
        ensures
            Self::root_of_unity(order).valid(),
            power(Self::root_of_unity(order), order as nat) == Self::one_value(),
            order >= 2 ==> power(Self::root_of_unity(order), order as nat / 2).sum(
                Self::one_value(),
            ) == Self::zero_value(),
            order >= 2 ==> Self::root_of_unity(order).product(Self::root_of_unity(order))
                == Self::root_of_unity((order / 2) as usize),
            order >= 2 ==> exists|half: Self| #[trigger]
                half.valid() && Self::one_value().sum(Self::one_value()).product(half)
                    == Self::one_value(),
            Self::generator_value().valid(),
            Self::generator_value() != Self::zero_value(),
            exists|inverse: Self| #[trigger]
                inverse.valid() && Self::generator_value().product(inverse) == Self::one_value(),
    ;

    /// The order of the largest two-adic subgroup, or of the largest whose order fits the word.
    fn order_limit() -> (r: usize)
        ensures
            r == Self::max_order(),
    ;

    /// The shift of the coset on which low-degree extensions are evaluated.
    fn generator() -> (r: Self)
        ensures
            r == Self::generator_value(),
    ;
}

/// The field has a two-adic subgroup of this order.
pub open spec fn is_domain_size<F: TwoAdicField>(size: nat) -> bool {
    is_pow2(size as int) && size <= F::max_order()
}

/// The point with the given index of the coset `shift H`, where `H` has order `size`.
pub open spec fn coset_point<F: TwoAdicField>(shift: F, size: nat, index: nat) -> F {
    shift.product(power(F::root_of_unity(size as usize), index))
}

/// A coset of a two-adic subgroup.
#[derive(Clone, Copy, Debug, PartialEq, Eq)]
pub struct Coset<F> {
    pub shift: F,
    pub shift_inverse: F,
    pub size: usize,
}

impl<F: TwoAdicField> Coset<F> {
    /// The shift is a unit and the size is the order of a subgroup.
    pub open spec fn well_formed(self) -> bool {
        &&& self.shift.valid()
        &&& self.shift != F::zero_value()
        &&& self.shift_inverse.valid()
        &&& self.shift.product(self.shift_inverse) == F::one_value()
        &&& is_domain_size::<F>(self.size as nat)
    }

    /// The point with the given index.
    pub open spec fn point(self, index: nat) -> F {
        coset_point(self.shift, self.size as nat, index)
    }

    /// The coset of the subgroup of order `2^log_size`, or nothing where the shift is zero or there
    /// is no such subgroup.
    pub fn new(shift: F, log_size: usize) -> (r: Option<Self>)
        requires
            shift.valid(),
        ensures
            r is Some <==> shift != F::zero_value() && pow2(log_size as nat) <= F::max_order(),
            r matches Some(coset) ==> coset.well_formed() && coset.shift == shift && coset.size
                == pow2(log_size as nat),
    {
        let size: usize = checked_power_of_two(log_size)?;
        if size > F::order_limit() {
            return None;
        }
        match shift.try_inverse() {
            None => None,
            Some(shift_inverse) => {
                proof {
                    lemma_pow2_is_pow2(log_size as nat);
                }
                Some(Coset { shift, shift_inverse, size })
            },
        }
    }

    /// The leading coefficient `g^-size` of the polynomial `g^-size X^size - 1` that vanishes on
    /// the coset `g H`.
    pub open spec fn leading(self) -> F {
        power(self.shift_inverse, self.size as nat)
    }

    /// The value at `x` of the polynomial that vanishes on the coset.
    pub open spec fn vanishing(self, x: F) -> F {
        vanishing_at(self.leading(), self.size as nat, x)
    }

    /// The leading coefficient of the polynomial that vanishes on the coset.
    pub fn vanishing_leading_coefficient(&self) -> (r: F)
        requires
            self.well_formed(),
        ensures
            r == self.leading(),
            r.valid(),
            r.product(power(self.shift, self.size as nat)) == F::one_value(),
    {
        proof {
            F::ring_laws(self.shift, self.shift_inverse, self.shift);
            lemma_power_of_inverse(self.shift_inverse, self.shift, self.size as nat);
        }
        exp_u64(self.shift_inverse, self.size as u64)
    }

    /// The value at `x` of the polynomial that vanishes on the coset.
    pub fn vanishing_polynomial_at(&self, x: F) -> (r: F)
        requires
            self.well_formed(),
            x.valid(),
        ensures
            r == self.vanishing(x),
            r.valid(),
    {
        let leading: F = self.vanishing_leading_coefficient();
        proof {
            F::constants_are_valid();
            lemma_power_valid(x, self.size as nat);
            F::ring_laws(leading, power(x, self.size as nat), x);
            F::ring_laws(leading.product(power(x, self.size as nat)), F::one_value(), x);
        }
        leading.times(exp_u64(x, self.size as u64)).minus(F::one())
    }
}

/// The vanishing polynomial of a coset vanishes at its points.
pub proof fn law_vanishing_polynomial_vanishes<F: TwoAdicField>(coset: Coset<F>, index: nat)
    requires
        coset.well_formed(),
    ensures
        coset.vanishing(coset.point(index)) == F::zero_value(),
{
    let (zero, one) = (F::zero_value(), F::one_value());
    law_coset_points_share_a_power(coset.shift, coset.size as nat, index);
    F::constants_are_valid();
    F::ring_laws(coset.shift, coset.shift_inverse, zero);
    lemma_power_of_inverse(coset.shift_inverse, coset.shift, coset.size as nat);
    F::ring_laws(zero, one, zero);
    F::ring_laws(one, zero, zero);
    lemma_difference_is_unique(one, one, zero);
}

/// `2^k` is a power of two.
pub proof fn lemma_pow2_is_pow2(k: nat)
    ensures
        is_pow2(pow2(k) as int),
{
    lemma_pow2(k);
    is_pow2_equiv(pow2(k) as int);
}

/// The points of a coset are elements of the coset: to the power of its size they are what its
/// shift is.
pub proof fn law_coset_points_share_a_power<F: TwoAdicField>(shift: F, size: nat, index: nat)
    requires
        shift.valid(),
        is_domain_size::<F>(size),
    ensures
        coset_point(shift, size, index).valid(),
        power(coset_point(shift, size, index), size) == power(shift, size),
{
    F::root_laws(size as usize);
    F::constants_are_valid();
    let root = F::root_of_unity(size as usize);
    lemma_power_valid(root, index);
    lemma_power_valid(shift, size);
    let p = power(root, index);
    F::ring_laws(shift, p, shift);
    lemma_power_of_product(shift, p, size);
    lemma_power_of_power(root, index, size);
    lemma_power_of_power(root, size, index);
    lemma_mul_is_commutative(index as int, size as int);
    lemma_power_of_one::<F>(index);
    F::ring_laws(power(shift, size), F::one_value(), shift);
}

/// The discrete Fourier transforms over cosets of the two-adic subgroups of `F`, one for each
/// column of a matrix.
pub trait CosetDft<F: TwoAdicField> {
    /// The coefficients, lowest first, of the polynomials with the given values on `shift H`.
    fn coset_idft_batch(&self, evaluations: &RowMajorMatrix<F>, shift: F) -> (r: RowMajorMatrix<F>)
        requires
            evaluations.well_formed(),
            evaluations.width > 0,
            all_valid(evaluations.values@),
            is_domain_size::<F>(evaluations.height as nat),
            shift.valid(),
            shift != F::zero_value(),
        ensures
            r.well_formed(),
            r.width == evaluations.width,
            r.height == evaluations.height,
            all_valid(r.values@),
            takes_values(r, *evaluations, shift),
    ;

    /// The values on `shift H` of the polynomials with the given coefficients, lowest first.
    fn coset_dft_batch(&self, coefficients: &RowMajorMatrix<F>, shift: F) -> (r: RowMajorMatrix<F>)
        requires
            coefficients.well_formed(),
            coefficients.width > 0,
            all_valid(coefficients.values@),
            is_domain_size::<F>(coefficients.height as nat),
            shift.valid(),
            shift != F::zero_value(),
        ensures
            r.well_formed(),
            r.width == coefficients.width,
            r.height == coefficients.height,
            all_valid(r.values@),
            takes_values(*coefficients, r, shift),
    ;
}

/// The coefficients of one column, lowest first.
pub open spec fn polynomial<F: Field>(coefficients: RowMajorMatrix<F>, column: int) -> Seq<F> {
    column_of(
        coefficients.values@,
        0,
        coefficients.width as nat,
        column,
        coefficients.height as nat,
    )
}

/// Column by column, the polynomials with the given coefficients take the given values on the
/// coset `shift H`, where `H` has as many elements as there are values.
pub open spec fn takes_values<F: TwoAdicField>(
    coefficients: RowMajorMatrix<F>,
    values: RowMajorMatrix<F>,
    shift: F,
) -> bool {
    forall|row: int, column: int|
        0 <= row < values.height && 0 <= column < values.width ==> #[trigger] values.at(row, column)
            == evaluate(
            polynomial(coefficients, column),
            coset_point(shift, values.height as nat, row as nat),
        )
}

/// The order of the largest two-adic subgroup of the Baby Bear field's units, `2^27`.
pub const BABY_BEAR_MAX_ORDER: u32 = 0x0800_0000;

/// The canonical generator of that subgroup.
pub const BABY_BEAR_ROOT: u32 = 0x1a42_7a41;

/// The canonical generator of the units of the Baby Bear field.
pub const BABY_BEAR_GENERATOR: u32 = 31;

impl TwoAdicField for BabyBear {
    open spec fn max_order() -> usize {
        BABY_BEAR_MAX_ORDER as usize
    }

    open spec fn root_of_unity(order: usize) -> Self {
        power(BabyBear { value: BABY_BEAR_ROOT }, BABY_BEAR_MAX_ORDER as nat / order as nat)
    }

    open spec fn generator_value() -> Self {
        BabyBear { value: BABY_BEAR_GENERATOR }
    }

    proof fn root_laws(order: usize) {
        let root = BabyBear { value: BABY_BEAR_ROOT };
        let full = BABY_BEAR_MAX_ORDER as nat;
        let exponent = full / order as nat;
        lemma_power_valid(root, exponent);
        lemma_order_divides(order as nat);
        lemma_power_of_power(root, exponent, order as nat);
        lemma_root_has_full_order();
        assert(BabyBear { value: 0x03de_f7be }.valid());
        if order >= 2 {
            let less = order as nat / 2;
            reveal(is_pow2);
            lemma_order_divides(less);
            assert(exponent * less == full / 2 && full / less == 2 * exponent) by (nonlinear_arith)
                requires
                    exponent * order == full,
                    (full / less) * less == full,
                    order == 2 * less,
                    less > 0,
            ;
            lemma_power_of_power(root, exponent, less);
            lemma_power_adds(root, exponent, exponent);
            assert(BabyBear { value: 0x3c00_0001 }.valid());
        }
    }

    fn order_limit() -> (r: usize) {
        0x0800_0000
    }

    fn generator() -> (r: Self) {
        BabyBear { value: generator_representative() }
    }
}

/// A power of two up to `2^27` divides it.
proof fn lemma_order_divides(order: nat)
    requires
        is_pow2(order as int),
        order <= BABY_BEAR_MAX_ORDER,
    ensures
        (BABY_BEAR_MAX_ORDER as nat / order) * order == BABY_BEAR_MAX_ORDER,
{
    is_pow2_equiv(order as int);
    let b = choose|i: nat| pow(2, i) == order;
    lemma_pow2(b);
    lemma2_to64();
    assert(BABY_BEAR_MAX_ORDER == pow2(27));
    if b > 27 {
        lemma_pow2_strictly_increases(27, b);
    }
    let rest = (27 - b) as nat;
    lemma_pow2_adds(b, rest);
    lemma_div_multiples_vanish(pow2(rest) as int, order as int);
    lemma_mul_is_commutative(pow2(rest) as int, order as int);
}

/// One squaring: `x^m = y^n` for `y = x^2` and `m = 2 n`.
proof fn lemma_square(x: u32, m: nat, y: u32, n: nat)
    requires
        x < BABY_BEAR_PRIME,
        (x * x) % BABY_BEAR_PRIME as int == y,
        m == 2 * n,
    ensures
        power(BabyBear { value: x }, m) == power(BabyBear { value: y }, n),
{
    lemma_power_of_square(BabyBear { value: x }, n);
}

/// The root's `2^26`-th power is minus one: squaring it 26 times ends there. Its `2^27`-th power is
/// one.
proof fn lemma_root_has_full_order()
    ensures
        power(BabyBear { value: BABY_BEAR_ROOT }, BABY_BEAR_MAX_ORDER as nat / 2).sum(
            BabyBear::one_value(),
        ) == BabyBear::zero_value(),
        power(BabyBear { value: BABY_BEAR_ROOT }, BABY_BEAR_MAX_ORDER as nat)
            == BabyBear::one_value(),
{
    let root = BabyBear { value: BABY_BEAR_ROOT };
    let minus_one = BabyBear { value: 2013265920 };
    lemma_square(440564289, 67108864, 975630072, 33554432);
    lemma_square(975630072, 33554432, 1149491290, 16777216);
    lemma_square(1149491290, 16777216, 1003846038, 8388608);
    lemma_square(1003846038, 8388608, 1267047229, 4194304);
    lemma_square(1267047229, 4194304, 570250684, 2097152);
    lemma_square(570250684, 2097152, 414040701, 1048576);
    lemma_square(414040701, 1048576, 195061667, 524288);
    lemma_square(195061667, 524288, 1049899240, 262144);
    lemma_square(1049899240, 262144, 1559589183, 131072);
    lemma_square(1559589183, 131072, 1286330022, 65536);
    lemma_square(1286330022, 65536, 1421947380, 32768);
    lemma_square(1421947380, 32768, 2009781145, 16384);
    lemma_square(2009781145, 16384, 1657000625, 8192);
    lemma_square(1657000625, 8192, 298008106, 4096);
    lemma_square(298008106, 4096, 1282623253, 2048);
    lemma_square(1282623253, 2048, 1340477990, 1024);
    lemma_square(1340477990, 1024, 341742893, 512);
    lemma_square(341742893, 512, 1753498361, 256);
    lemma_square(1753498361, 256, 1732600167, 128);
    lemma_square(1732600167, 128, 397765732, 64);
    lemma_square(397765732, 64, 1721589904, 32);
    lemma_square(1721589904, 32, 760005850, 16);
    lemma_square(760005850, 16, 196396260, 8);
    lemma_square(196396260, 8, 1592366214, 4);
    lemma_square(1592366214, 4, 1728404513, 2);
    lemma_square(1728404513, 2, 2013265920, 1);
    BabyBear::ring_laws(minus_one, minus_one, minus_one);
    assert(power(minus_one, 1) == minus_one.product(power(minus_one, 0)));
    assert(power(root, 67108864) == minus_one);
    lemma_power_adds(root, 67108864, 67108864);
}

/// `p3_baby_bear::BabyBear::GENERATOR`, which is 31.
#[verifier::external_body]
fn generator_representative() -> (r: u32)
    ensures
        r == BABY_BEAR_GENERATOR,
{
    p3_baby_bear::BabyBear::GENERATOR.as_canonical_u32()
}

/// The transforms of `p3_dft::Radix2Dit` over the Baby Bear field.
#[derive(Clone, Copy, Debug, PartialEq, Eq)]
pub struct Radix2Dit {}

impl CosetDft<BabyBear> for Radix2Dit {
    fn coset_idft_batch(&self, evaluations: &RowMajorMatrix<BabyBear>, shift: BabyBear) -> (r:
        RowMajorMatrix<BabyBear>) {
        radix2_coset_idft(evaluations, shift)
    }

    fn coset_dft_batch(&self, coefficients: &RowMajorMatrix<BabyBear>, shift: BabyBear) -> (r:
        RowMajorMatrix<BabyBear>) {
        radix2_coset_dft(coefficients, shift)
    }
}

/// `p3_dft::Radix2Dit::coset_idft_batch`: the coefficients of the polynomials that take the given
/// values at the points `shift g^row`, where `g` is `two_adic_generator` of the matrix height.
#[verifier::external_body]
fn radix2_coset_idft(evaluations: &RowMajorMatrix<BabyBear>, shift: BabyBear) -> (r: RowMajorMatrix<
    BabyBear,
>)
    requires
        evaluations.well_formed(),
        evaluations.width > 0,
        all_valid(evaluations.values@),
        is_domain_size::<BabyBear>(evaluations.height as nat),
        shift.valid(),
        shift != BabyBear::zero_value(),
    ensures
        r.well_formed(),
        r.width == evaluations.width,
        r.height == evaluations.height,
        all_valid(r.values@),
        takes_values(r, *evaluations, shift),
{
    let values = evaluations.values.iter().map(|v| p3_baby_bear::BabyBear::new(v.value)).collect();
    let coefficients = p3_dft::Radix2Dit::default().coset_idft_batch(
        p3_matrix::dense::RowMajorMatrix::new(values, evaluations.width),
        p3_baby_bear::BabyBear::new(shift.value),
    );
    let values = coefficients.values.iter().map(|v| BabyBear { value: v.as_canonical_u32() }).collect();
    RowMajorMatrix { values, width: evaluations.width, height: evaluations.height }
}

/// `p3_dft::Radix2Dit::coset_dft_batch`: the values at the points `shift g^row` of the polynomials
/// with the given coefficients, where `g` is `two_adic_generator` of the matrix height.
#[verifier::external_body]
fn radix2_coset_dft(coefficients: &RowMajorMatrix<BabyBear>, shift: BabyBear) -> (r: RowMajorMatrix<
    BabyBear,
>)
    requires
        coefficients.well_formed(),
        coefficients.width > 0,
        all_valid(coefficients.values@),
        is_domain_size::<BabyBear>(coefficients.height as nat),
        shift.valid(),
        shift != BabyBear::zero_value(),
    ensures
        r.well_formed(),
        r.width == coefficients.width,
        r.height == coefficients.height,
        all_valid(r.values@),
        takes_values(*coefficients, r, shift),
{
    let values = coefficients.values.iter().map(|v| p3_baby_bear::BabyBear::new(v.value)).collect();
    let evaluations = p3_dft::Radix2Dit::default().coset_dft_batch(
        p3_matrix::dense::RowMajorMatrix::new(values, coefficients.width),
        p3_baby_bear::BabyBear::new(shift.value),
    );
    let values = evaluations.values.iter().map(|v| BabyBear { value: v.as_canonical_u32() }).collect();
    RowMajorMatrix { values, width: coefficients.width, height: coefficients.height }
}

} // verus!
