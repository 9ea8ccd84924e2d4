//! Exact positive rational numbers.
use crate::natural::Natural;
use vstd::arithmetic::div_mod::*;
use vstd::arithmetic::mul::*;
use vstd::arithmetic::power::*;
use vstd::prelude::*;

verus! {

/// `x / y` rounded up.
pub open spec fn ceil_div(x: nat, y: nat) -> nat {
    ((x + y - 1) / y as int) as nat
}

/// A positive rational number. The fraction is kept as the operations build it, unreduced.
#[derive(Debug, PartialEq, Eq)]
pub struct PositiveRational {
    pub numerator: Natural,
    pub denominator: Natural,
}

impl PositiveRational {
    /// Both parts of the fraction are positive.
    pub open spec fn well_formed(self) -> bool {
        self.numerator@ > 0 && self.denominator@ > 0
    }

    /// `numerator / denominator`, or nothing where either is zero.
    pub fn new(numerator: Natural, denominator: Natural) -> (r: Option<Self>)
        ensures
            r is Some <==> numerator@ > 0 && denominator@ > 0,
            r is Some ==> r->0.numerator@ == numerator@ && r->0.denominator@ == denominator@
                && r->0.well_formed(),
    {
        if numerator.is_zero() || denominator.is_zero() {
            None
        } else {
            Some(PositiveRational { numerator, denominator })
        }
    }

    /// `numerator / denominator`, or nothing where either is zero.
    pub fn from_usize(numerator: usize, denominator: usize) -> (r: Option<Self>)
        ensures
            r is Some <==> numerator > 0 && denominator > 0,
            r is Some ==> r->0.numerator@ == numerator && r->0.denominator@ == denominator
                && r->0.well_formed(),
    {
        Self::new(Natural::from_usize(numerator), Natural::from_usize(denominator))
    }

    /// `self + other`.
    pub fn add(&self, other: &Self) -> (r: Self)
        ensures
            self.well_formed() && other.well_formed() ==> r.well_formed(),
            r.numerator@ == self.numerator@ * other.denominator@ + other.numerator@ * self.denominator@,
            r.denominator@ == self.denominator@ * other.denominator@,
    {
        proof {
            if self.well_formed() && other.well_formed() {
                lemma_mul_strictly_positive(self.numerator@ as int, other.denominator@ as int);
                lemma_mul_nonnegative(other.numerator@ as int, self.denominator@ as int);
                lemma_mul_strictly_positive(self.denominator@ as int, other.denominator@ as int);
            }
        }
        PositiveRational {
            numerator: self.numerator.times(&other.denominator).plus(
                &other.numerator.times(&self.denominator),
            ),
            denominator: self.denominator.times(&other.denominator),
        }
    }

    /// `self * other`.
    pub fn mul(&self, other: &Self) -> (r: Self)
        ensures
            self.well_formed() && other.well_formed() ==> r.well_formed(),
            r.numerator@ == self.numerator@ * other.numerator@,
            r.denominator@ == self.denominator@ * other.denominator@,
    {
        proof {
            if self.well_formed() && other.well_formed() {
                lemma_mul_strictly_positive(self.numerator@ as int, other.numerator@ as int);
                lemma_mul_strictly_positive(self.denominator@ as int, other.denominator@ as int);
            }
        }
        PositiveRational {
            numerator: self.numerator.times(&other.numerator),
            denominator: self.denominator.times(&other.denominator),
        }
    }

    /// `self / other`.
    pub fn div(&self, other: &Self) -> (r: Self)
        ensures
            self.well_formed() && other.well_formed() ==> r.well_formed(),
            r.numerator@ == self.numerator@ * other.denominator@,
            r.denominator@ == self.denominator@ * other.numerator@,
    {
        proof {
            if self.well_formed() && other.well_formed() {
                lemma_mul_strictly_positive(self.numerator@ as int, other.denominator@ as int);
                lemma_mul_strictly_positive(self.denominator@ as int, other.numerator@ as int);
            }
        }
        PositiveRational {
            numerator: self.numerator.times(&other.denominator),
            denominator: self.denominator.times(&other.numerator),
        }
    }

    /// `self * value`.
    pub fn scale(&self, value: usize) -> (r: Self)
        ensures
            self.well_formed() && value > 0 ==> r.well_formed(),
            r.numerator@ == self.numerator@ * value,
            r.denominator@ == self.denominator@,
    {
        proof {
            if self.well_formed() && value > 0 {
                lemma_mul_strictly_positive(self.numerator@ as int, value as int);
            }
        }
        PositiveRational {
            numerator: self.numerator.times(&Natural::from_usize(value)),
            denominator: self.denominator.clone(),
        }
    }

    /// `self` to the power `exponent`.
    pub fn pow(&self, exponent: u32) -> (r: Self)
        ensures
            self.well_formed() ==> r.well_formed(),
            r.numerator@ == pow(self.numerator@ as int, exponent as nat),
            r.denominator@ == pow(self.denominator@ as int, exponent as nat),
    {
        proof {
            if self.well_formed() {
                lemma_pow_positive(self.numerator@ as int, exponent as nat);
                lemma_pow_positive(self.denominator@ as int, exponent as nat);
            }
        }
        PositiveRational {
            numerator: self.numerator.pow(exponent),
            denominator: self.denominator.pow(exponent),
        }
    }

    /// `self * self`.
    pub fn square(&self) -> (r: Self)
        ensures
            self.well_formed() ==> r.well_formed(),
            r.numerator@ == self.numerator@ * self.numerator@,
            r.denominator@ == self.denominator@ * self.denominator@,
    {
        proof {
            lemma_square_is_pow2(self.numerator@ as int);
            lemma_square_is_pow2(self.denominator@ as int);
        }
        self.pow(2)
    }

    /// Whether `self > other`.
    pub fn exceeds(&self, other: &Self) -> (r: bool)
        ensures
            r == (self.numerator@ * other.denominator@ > other.numerator@ * self.denominator@),
    {
        other.numerator.times(&self.denominator).less_than(
            &self.numerator.times(&other.denominator),
        )
    }

    /// The least integer that is not below `self`.
    pub fn ceil(&self) -> (r: Natural)
        requires
            self.denominator@ > 0,
        ensures
            r@ == ceil_div(self.numerator@, self.denominator@),
    {
        let one: Natural = Natural::from_usize(1);
        proof {
            lemma_div_pos_is_pos(
                self.numerator@ + self.denominator@ - 1,
                self.denominator@ as int,
            );
        }
        self.numerator.plus(&self.denominator.minus(&one)).quotient(&self.denominator)
    }
}

/// `q` is `x / y` rounded up exactly when `q - 1` multiples of `y` stay below `x` and `q` do not.
pub proof fn lemma_ceil_div(x: nat, y: nat, q: nat)
    requires
        y > 0,
    ensures
        (q == ceil_div(x, y)) <==> (q - 1) * y < x <= q * y,
{
    let c = ceil_div(x, y) as int;
    let t = x + y - 1;
    lemma_div_pos_is_pos(t, y as int);
    lemma_fundamental_div_mod(t, y as int);
    lemma_mod_bound(t, y as int);
    assert((c - 1) * y < x <= c * y) by (nonlinear_arith)
        requires
            t == y * c + t % (y as int),
            0 <= t % (y as int) < y,
            t == x + y - 1,
    ;
    if (q - 1) * y < x <= q * y && q != c {
        assert(false) by (nonlinear_arith)
            requires
                (q - 1) * y < x <= q * y,
                (c - 1) * y < x <= c * y,
                q != c,
                y > 0,
        ;
    }
}

/// Cancelling a common factor keeps the quotient rounded up.
pub proof fn lemma_ceil_div_cancel(c: nat, x: nat, y: nat)
    requires
        c > 0,
        y > 0,
    ensures
        ceil_div(c * x, c * y) == ceil_div(x, y),
{
    let q = ceil_div(x, y);
    lemma_ceil_div(x, y, q);
    assert(c * y > 0 && (q - 1) * (c * y) < c * x <= q * (c * y)) by (nonlinear_arith)
        requires
            c > 0,
            y > 0,
            (q - 1) * y < x <= q * y,
    ;
    lemma_ceil_div(c * x, c * y, q);
}

} // verus!
