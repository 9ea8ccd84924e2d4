//! The field arithmetic that the quotient randomization is built on.
//!
//! [`Field`] states what an element type has to offer; `BabyBear` is
//! one. On top of it stand powers, sums and polynomials given by their coefficients.
use vstd::prelude::*;

verus! {

/// Elements of a field.
pub trait Field: Copy {
    /// The value is an element in its canonical form.
    spec fn valid(self) -> bool;

    /// The neutral element of addition.
    spec fn zero_value() -> Self;

    /// The neutral element of multiplication.
    spec fn one_value() -> Self;

    /// `self + other`.
    spec fn sum(self, other: Self) -> Self;

    /// `self - other`.
    spec fn difference(self, other: Self) -> Self;

    /// `self * other`.
    spec fn product(self, other: Self) -> Self;

    /// The elements are a commutative ring.
    proof fn ring_laws(a: Self, b: Self, c: Self)
        requires
            a.valid(),
            b.valid(),
            c.valid(),
        ensures
            Self::zero_value().valid(),
            Self::one_value().valid(),
            a.sum(b).valid(),
            a.difference(b).valid(),
            a.product(b).valid(),
            a.sum(b) == b.sum(a),
            a.sum(b).sum(c) == a.sum(b.sum(c)),
            a.sum(Self::zero_value()) == a,
            a.difference(b).sum(b) == a,
            a.product(b) == b.product(a),
            a.product(b).product(c) == a.product(b.product(c)),
            a.product(Self::one_value()) == a,
            a.product(b.sum(c)) == a.product(b).sum(a.product(c)),
    ;

    /// There are elements: zero and one are two of them.
    proof fn constants_are_valid()
        ensures
            Self::zero_value().valid(),
            Self::one_value().valid(),
    ;

    /// The neutral element of addition.
    fn zero() -> (r: Self)
        ensures
            r == Self::zero_value(),
    ;

    /// The neutral element of multiplication.
    fn one() -> (r: Self)
        ensures
            r == Self::one_value(),
    ;

    /// Whether the two elements are the same.
    fn equals(self, other: Self) -> (r: bool)
        requires
            self.valid(),
            other.valid(),
        ensures
            r == (self == other),
    ;

    /// `self + other`.
    fn plus(self, other: Self) -> (r: Self)
        requires
            self.valid(),
            other.valid(),
        ensures
            r == self.sum(other),
    ;

    /// `self - other`.
    fn minus(self, other: Self) -> (r: Self)
        requires
            self.valid(),
            other.valid(),
        ensures
            r == self.difference(other),
    ;

    /// `self * other`.
    fn times(self, other: Self) -> (r: Self)
        requires
            self.valid(),
            other.valid(),
        ensures
            r == self.product(other),
    ;

    /// The multiplicative inverse, which all elements but zero have.
    fn try_inverse(self) -> (r: Option<Self>)
        requires
            self.valid(),
        ensures
            r is None <==> self == Self::zero_value(),
            r matches Some(inverse) ==> inverse.valid() && self.product(inverse)
                == Self::one_value(),
    ;
}

/// Every element of the sequence is valid.
pub open spec fn all_valid<F: Field>(values: Seq<F>) -> bool {
    forall|i: int| 0 <= i < values.len() ==> (#[trigger] values[i]).valid()
}

/// `base` to the power `exponent`.
pub open spec fn power<F: Field>(base: F, exponent: nat) -> F
    decreases exponent,
{
    if exponent == 0 {
        F::one_value()
    } else {
        base.product(power(base, (exponent - 1) as nat))
    }
}

/// The sum of the products of the first `count` pairs of two sequences.
pub open spec fn dot<F: Field>(a: Seq<F>, b: Seq<F>, count: nat) -> F
    decreases count,
{
    if count == 0 {
        F::zero_value()
    } else {
        dot(a, b, (count - 1) as nat).sum(a[count - 1].product(b[count - 1]))
    }
}

/// The value at `x` of the polynomial with the given coefficients, constant term first.
pub open spec fn evaluate<F: Field>(coefficients: Seq<F>, x: F) -> F
    decreases coefficients.len(),
{
    if coefficients.len() == 0 {
        F::zero_value()
    } else {
        coefficients[0].sum(x.product(evaluate(coefficients.skip(1), x)))
    }
}

/// Equal sums with one equal term have equal other terms.
pub proof fn lemma_sum_cancels<F: Field>(a: F, b: F, c: F)
    requires
        a.valid(),
        b.valid(),
        c.valid(),
        a.sum(c) == b.sum(c),
    ensures
        a == b,
{
    let zero = F::zero_value();
    F::constants_are_valid();
    F::ring_laws(zero, c, a);
    let negated = zero.difference(c);
    F::ring_laws(negated, c, a);
    F::ring_laws(a, c, negated);
    F::ring_laws(b, c, negated);
    F::ring_laws(c, negated, a);
    assert(c.sum(negated) == zero);
}

/// Multiplying by zero gives zero.
pub proof fn lemma_product_zero<F: Field>(a: F)
    requires
        a.valid(),
    ensures
        a.product(F::zero_value()) == F::zero_value(),
        F::zero_value().product(a) == F::zero_value(),
{
    let zero = F::zero_value();
    F::constants_are_valid();
    F::ring_laws(a, zero, zero);
    F::ring_laws(zero, zero, zero);
    let p = a.product(zero);
    F::ring_laws(p, zero, zero);
    F::ring_laws(zero, p, zero);
    lemma_sum_cancels(p, zero, p);
}

/// What `b` has to be added to for `a` is their difference.
pub proof fn lemma_difference_is_unique<F: Field>(a: F, b: F, d: F)
    requires
        a.valid(),
        b.valid(),
        d.valid(),
        d.sum(b) == a,
    ensures
        d == a.difference(b),
{
    F::ring_laws(a, b, d);
    lemma_sum_cancels(d, a.difference(b), b);
}

/// Multiplication distributes over differences.
pub proof fn lemma_product_of_difference<F: Field>(a: F, b: F, c: F)
    requires
        a.valid(),
        b.valid(),
        c.valid(),
    ensures
        a.product(b.difference(c)) == a.product(b).difference(a.product(c)),
{
    F::ring_laws(b, c, a);
    F::ring_laws(a, b, c);
    F::ring_laws(a, c, b);
    F::ring_laws(a, b.difference(c), c);
    lemma_difference_is_unique(a.product(b), a.product(c), a.product(b.difference(c)));
}

/// Powers are valid.
pub proof fn lemma_power_valid<F: Field>(base: F, exponent: nat)
    requires
        base.valid(),
    ensures
        power(base, exponent).valid(),
    decreases exponent,
{
    F::constants_are_valid();
    if exponent > 0 {
        lemma_power_valid(base, (exponent - 1) as nat);
        F::ring_laws(base, power(base, (exponent - 1) as nat), base);
    }
}

/// Powers of one base multiply by adding the exponents.
pub proof fn lemma_power_adds<F: Field>(base: F, m: nat, n: nat)
    requires
        base.valid(),
    ensures
        power(base, m + n) == power(base, m).product(power(base, n)),
    decreases m,
{
    F::constants_are_valid();
    lemma_power_valid(base, n);
    if m == 0 {
        F::ring_laws(F::one_value(), power(base, n), base);
        F::ring_laws(power(base, n), F::one_value(), base);
    } else {
        let fewer = (m - 1) as nat;
        lemma_power_adds(base, fewer, n);
        lemma_power_valid(base, fewer);
        F::ring_laws(base, power(base, fewer), power(base, n));
        assert((m + n - 1) as nat == fewer + n);
    }
}

/// The powers of two elements that multiply to one multiply to one.
pub proof fn lemma_power_of_inverse<F: Field>(a: F, b: F, n: nat)
    requires
        a.valid(),
        b.valid(),
        a.product(b) == F::one_value(),
    ensures
        power(a, n).product(power(b, n)) == F::one_value(),
    decreases n,
{
    F::constants_are_valid();
    if n == 0 {
        F::ring_laws(F::one_value(), F::one_value(), F::one_value());
    } else {
        let fewer = (n - 1) as nat;
        let (p, q) = (power(a, fewer), power(b, fewer));
        lemma_power_of_inverse(a, b, fewer);
        lemma_power_valid(a, fewer);
        lemma_power_valid(b, fewer);
        F::ring_laws(b, q, a);
        F::ring_laws(a, p, b.product(q));
        F::ring_laws(p, b, q);
        F::ring_laws(b, p, q);
        F::ring_laws(p, q, b);
        F::ring_laws(b, p.product(q), a);
        // (a p)(b q) = a (p (b q)) = a (b (p q)) = a b = 1
        assert(p.product(b.product(q)) == b.product(p.product(q)));
        assert(b.product(p.product(q)) == b);
    }
}

/// `base` to the power `exponent`, by squaring.
pub fn exp_u64<F: Field>(base: F, exponent: u64) -> (r: F)
    requires
        base.valid(),
    ensures
        r == power(base, exponent as nat),
        r.valid(),
{
    proof {
        F::constants_are_valid();
        lemma_power_valid(base, exponent as nat);
        F::ring_laws(power(base, exponent as nat), F::one_value(), F::one_value());
        F::ring_laws(F::one_value(), power(base, exponent as nat), F::one_value());
    }
    let mut product: F = F::one();
    let mut current: F = base;
    let mut left: u64 = exponent;
    while left > 0
        invariant
            base.valid(),
            product.valid(),
            current.valid(),
            product.product(power(current, left as nat)) == power(base, exponent as nat),
        decreases left,
    {
        proof {
            let half = (left / 2) as nat;
            lemma_power_of_square(current, half);
            lemma_power_valid(current, (left - 1) as nat);
            F::ring_laws(current, current, current);
            lemma_power_valid(current.product(current), half);
            F::ring_laws(product, current, power(current, (left - 1) as nat));
        }
        if left % 2 == 1 {
            product = product.times(current);
        }
        current = current.times(current);
        left = left / 2;
    }
    proof {
        F::ring_laws(product, product, product);
    }
    product
}

/// A power of a power has the product of the exponents.
pub proof fn lemma_power_of_power<F: Field>(base: F, m: nat, n: nat)
    requires
        base.valid(),
    ensures
        power(power(base, m), n) == power(base, m * n),
    decreases n,
{
    if n == 0 {
        assert(m * n == 0);
    } else {
        let fewer = (n - 1) as nat;
        lemma_power_of_power(base, m, fewer);
        lemma_power_adds(base, m, m * fewer);
        assert(m + m * fewer == m * n) by (nonlinear_arith)
            requires
                fewer == n - 1,
        ;
    }
}

/// A power of a product is the product of the powers.
pub proof fn lemma_power_of_product<F: Field>(a: F, b: F, n: nat)
    requires
        a.valid(),
        b.valid(),
    ensures
        power(a.product(b), n) == power(a, n).product(power(b, n)),
    decreases n,
{
    F::constants_are_valid();
    if n == 0 {
        F::ring_laws(F::one_value(), F::one_value(), F::one_value());
    } else {
        let fewer = (n - 1) as nat;
        let (p, q) = (power(a, fewer), power(b, fewer));
        lemma_power_of_product(a, b, fewer);
        lemma_power_valid(a, fewer);
        lemma_power_valid(b, fewer);
        // (a b)(p q) = a (b (p q)) = a (p (b q)) = (a p)(b q)
        F::ring_laws(p, q, a);
        F::ring_laws(b, q, a);
        F::ring_laws(a, b, p.product(q));
        F::ring_laws(b, p, q);
        F::ring_laws(p, b, q);
        F::ring_laws(a, p, b.product(q));
    }
}

/// Powers of one are one.
pub proof fn lemma_power_of_one<F: Field>(n: nat)
    ensures
        power(F::one_value(), n) == F::one_value(),
    decreases n,
{
    if n > 0 {
        lemma_power_of_one::<F>((n - 1) as nat);
        F::constants_are_valid();
        F::ring_laws(F::one_value(), F::one_value(), F::one_value());
    }
}

/// A power of a square is an even power.
pub proof fn lemma_power_of_square<F: Field>(x: F, n: nat)
    requires
        x.valid(),
    ensures
        power(x.product(x), n) == power(x, 2 * n),
    decreases n,
{
    if n > 0 {
        let fewer = (n - 1) as nat;
        lemma_power_of_square(x, fewer);
        lemma_power_valid(x, 2 * fewer);
        F::ring_laws(x, x, power(x, 2 * fewer));
        assert(power(x, 2 * n) == x.product(power(x, (2 * n - 1) as nat)));
        assert((2 * n - 1 - 1) as nat == 2 * fewer);
    }
}

} // verus!
