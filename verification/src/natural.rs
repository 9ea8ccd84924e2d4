//! Natural numbers of any size.
//!
//! [`Natural`] holds its value as base-2^32 digits, least significant first and without a
//! leading zero. The arithmetic is `num_bigint`'s: each private function at the end of this file
//! hands digits to one of its operations and takes digits back. What these promise holds as far as
//! the memory for the digits goes.
use crate::powers::is_power_of_two;
use crate::slices::copy_slice;
use num_bigint::BigUint;
use vstd::arithmetic::div_mod::*;
use vstd::arithmetic::mul::*;
use vstd::arithmetic::power::*;
use vstd::arithmetic::power2::*;
use vstd::prelude::*;

verus! {

/// The number that base-2^32 digits stand for, least significant digit first.
pub open spec fn digits_value(digits: Seq<u32>) -> nat
    decreases digits.len(),
{
    if digits.len() == 0 {
        0
    } else {
        digits[0] as nat + 0x1_0000_0000 * digits_value(digits.skip(1))
    }
}

/// Digits without a leading (most significant) zero.
pub open spec fn canonical(digits: Seq<u32>) -> bool {
    digits.len() > 0 ==> digits.last() != 0
}

/// A natural number of any size. Its view is its value.
#[derive(Debug, PartialEq, Eq)]
pub struct Natural {
    digits: Vec<u32>,
}

impl View for Natural {
    type V = nat;

    closed spec fn view(&self) -> nat {
        digits_value(self.digits@)
    }
}

impl Natural {
    #[verifier::type_invariant]
    closed spec fn well_formed(self) -> bool {
        canonical(self.digits@)
    }

    /// The number `value`.
    pub fn from_u64(value: u64) -> (r: Self)
        ensures
            r@ == value,
    {
        Natural { digits: u64_to_digits(value) }
    }

    /// The number `value`.
    pub fn from_usize(value: usize) -> (r: Self)
        ensures
            r@ == value,
    {
        Self::from_u64(value as u64)
    }

    /// The number that the given base-2^32 digits stand for, least significant first.
    pub fn from_digits(digits: Vec<u32>) -> (r: Self)
        ensures
            r@ == digits_value(digits@),
    {
        let mut digits: Vec<u32> = digits;
        let ghost value = digits_value(digits@);
        while digits.len() > 0 && digits[digits.len() - 1] == 0
            invariant
                digits_value(digits@) == value,
            ensures
                digits_value(digits@) == value,
                canonical(digits@),
            decreases digits.len(),
        {
            proof {
                lemma_leading_zero(digits@);
            }
            let _ = digits.pop();
        }
        Natural { digits }
    }

    /// The base-2^32 digits of this number, least significant first and without a leading zero.
    pub fn to_digits(&self) -> (r: Vec<u32>)
        ensures
            digits_value(r@) == self@,
            canonical(r@),
    {
        proof {
            use_type_invariant(self);
        }
        copy_slice(&self.digits)
    }

    /// `self + other`.
    pub fn plus(&self, other: &Self) -> (r: Self)
        ensures
            r@ == self@ + other@,
    {
        Natural { digits: add_digits(&self.digits, &other.digits) }
    }

    /// `self - other`, for an `other` that is not larger.
    pub fn minus(&self, other: &Self) -> (r: Self)
        requires
            other@ <= self@,
        ensures
            r@ == self@ - other@,
    {
        Natural { digits: subtract_digits(&self.digits, &other.digits) }
    }

    /// `self * other`.
    pub fn times(&self, other: &Self) -> (r: Self)
        ensures
            r@ == self@ * other@,
    {
        Natural { digits: multiply_digits(&self.digits, &other.digits) }
    }

    /// `self / other` rounded down, for a positive `other`.
    pub fn quotient(&self, other: &Self) -> (r: Self)
        requires
            other@ > 0,
        ensures
            r@ == self@ / other@,
    {
        Natural { digits: divide_digits(&self.digits, &other.digits) }
    }

    /// `self` to the power `exponent`.
    pub fn pow(&self, exponent: u32) -> (r: Self)
        ensures
            r@ == pow(self@ as int, exponent as nat),
    {
        Natural { digits: power_digits(&self.digits, exponent) }
    }

    /// Whether `self < other`.
    pub fn less_than(&self, other: &Self) -> (r: bool)
        ensures
            r == (self@ < other@),
    {
        digits_less(&self.digits, &other.digits)
    }

    /// Whether this is zero.
    pub fn is_zero(&self) -> (r: bool)
        ensures
            r == (self@ == 0),
    {
        proof {
            use_type_invariant(self);
            if self.digits@.len() > 0 {
                lemma_canonical_is_positive(self.digits@);
            }
        }
        self.digits.len() == 0
    }

    /// The fewest bits that express this number, which is none for zero.
    pub fn bits(&self) -> (r: u64)
        ensures
            self@ == 0 ==> r == 0,
            self@ > 0 ==> r > 0 && pow2((r - 1) as nat) <= self@ < pow2(r as nat),
    {
        bits_of_digits(&self.digits)
    }

    /// Whether this is `2^k` for some `k`.
    pub fn is_power_of_two(&self) -> (r: bool)
        ensures
            r == is_pow2(self@ as int),
    {
        proof {
            use_type_invariant(self);
        }
        let count: usize = self.digits.len();
        if count == 0 {
            reveal(is_pow2);
            return false;
        }
        let mut i: usize = 0;
        proof {
            assert(self.digits@.skip(0) =~= self.digits@);
            lemma_canonical_is_positive(self.digits@);
        }
        while self.digits[i] == 0
            invariant
                i < count,
                count == self.digits@.len(),
                canonical(self.digits@),
                is_pow2(digits_value(self.digits@.skip(i as int)) as int) == is_pow2(self@ as int),
                digits_value(self.digits@.skip(i as int)) > 0,
            decreases count - i,
        {
            proof {
                let rest = self.digits@.skip(i as int);
                assert(rest.skip(1) =~= self.digits@.skip(i + 1));
                assert(rest.last() == self.digits@.last());
                lemma2_to64();
                lemma_pow2_scaled(32, digits_value(rest.skip(1)));
            }
            i = i + 1;
        }
        let digit: u32 = self.digits[i];
        proof {
            let rest = self.digits@.skip(i as int);
            assert(rest.skip(1) =~= self.digits@.skip(i + 1));
            if i + 1 < count {
                assert(rest.skip(1).last() == self.digits@.last());
                lemma_canonical_is_positive(rest.skip(1));
                lemma2_to64();
                if is_pow2(digits_value(rest) as int) {
                    lemma_pow2_divides(32, digits_value(rest));
                    assert((digit as nat + 0x1_0000_0000 * digits_value(rest.skip(1)))
                        % 0x1_0000_0000 == digit as nat);
                }
            } else {
                assert(digits_value(rest.skip(1)) == 0);
            }
        }
        i + 1 == count && is_power_of_two(digit as usize)
    }
}

impl Clone for Natural {
    fn clone(&self) -> (r: Self)
        ensures
            r@ == self@,
    {
        proof {
            use_type_invariant(self);
        }
        Natural { digits: copy_slice(&self.digits) }
    }
}

/// Dropping a leading zero digit keeps the number.
proof fn lemma_leading_zero(digits: Seq<u32>)
    requires
        digits.len() > 0,
        digits.last() == 0,
    ensures
        digits_value(digits.drop_last()) == digits_value(digits),
    decreases digits.len(),
{
    if digits.len() == 1 {
        assert(digits.skip(1) =~= Seq::<u32>::empty());
        assert(digits.drop_last() =~= Seq::<u32>::empty());
    } else {
        lemma_leading_zero(digits.skip(1));
        assert(digits.skip(1).drop_last() =~= digits.drop_last().skip(1));
    }
}

/// Canonical digits, if there are any, stand for a positive number.
proof fn lemma_canonical_is_positive(digits: Seq<u32>)
    requires
        digits.len() > 0,
        canonical(digits),
    ensures
        digits_value(digits) > 0,
    decreases digits.len(),
{
    if digits.len() > 1 {
        assert(digits.skip(1).last() == digits.last());
        lemma_canonical_is_positive(digits.skip(1));
    }
}

/// Multiplying a positive number by a power of two keeps whether it is a power of two.
proof fn lemma_pow2_scaled(k: nat, n: nat)
    requires
        pow2(k) * n > 0,
    ensures
        n > 0,
        is_pow2((pow2(k) * n) as int) == is_pow2(n as int),
    decreases k,
{
    assert(n > 0) by (nonlinear_arith)
        requires
            pow2(k) * n > 0,
    ;
    if k == 0 {
        lemma_pow0(2);
        assert(pow2(k) * n == n) by (nonlinear_arith)
            requires
                pow2(k) == 1,
        ;
    } else {
        lemma_pow2_unfold(k);
        let half = pow2((k - 1) as nat);
        lemma_pow2_pos((k - 1) as nat);
        assert(half * n > 0 && pow2(k) * n == 2 * (half * n)) by (nonlinear_arith)
            requires
                n > 0,
                half > 0,
                pow2(k) == 2 * half,
        ;
        lemma_pow2_scaled((k - 1) as nat, n);
        reveal(is_pow2);
    }
}

/// A power of two that is not below `2^k` is a multiple of it.
proof fn lemma_pow2_divides(k: nat, n: nat)
    requires
        is_pow2(n as int),
        pow2(k) <= n,
    ensures
        n % pow2(k) == 0,
{
    is_pow2_equiv(n as int);
    let e = choose|e: nat| pow(2, e) == n;
    if e < k {
        lemma_pow2_strictly_increases(e, k);
    }
    lemma_pow2_pos(k);
    lemma_pow2_adds(k, (e - k) as nat);
    lemma_mod_multiples_basic(pow2((e - k) as nat) as int, pow2(k) as int);
    lemma_mul_is_commutative(pow2((e - k) as nat) as int, pow2(k) as int);
}

/// Two canonical digit sequences that stand for the same number are the same sequence.
pub proof fn law_canonical_digits_are_unique(a: Seq<u32>, b: Seq<u32>)
    requires
        canonical(a),
        canonical(b),
        digits_value(a) == digits_value(b),
    ensures
        a == b,
    decreases a.len(),
{
    if a.len() == 0 {
        if b.len() > 0 {
            lemma_canonical_is_positive(b);
        }
    } else if b.len() == 0 {
        lemma_canonical_is_positive(a);
    } else {
        assert(a.len() > 1 ==> a.skip(1).last() == a.last());
        assert(b.len() > 1 ==> b.skip(1).last() == b.last());
        law_canonical_digits_are_unique(a.skip(1), b.skip(1));
        assert(a =~= seq![a[0]] + a.skip(1));
        assert(b =~= seq![b[0]] + b.skip(1));
    }
}

/// `BigUint::from(u64)`: the digits it holds stand for the given number.
#[verifier::external_body]
fn u64_to_digits(value: u64) -> (r: Vec<u32>)
    ensures
        digits_value(r@) == value,
        canonical(r@),
{
    BigUint::from(value).to_u32_digits()
}

/// `BigUint`'s `+`: the sum of the two numbers.
#[verifier::external_body]
fn add_digits(a: &[u32], b: &[u32]) -> (r: Vec<u32>)
    ensures
        digits_value(r@) == digits_value(a@) + digits_value(b@),
        canonical(r@),
{
    (BigUint::from_slice(a) + BigUint::from_slice(b)).to_u32_digits()
}

/// `BigUint`'s `-`: the difference of the two numbers. It panics where that is negative.
#[verifier::external_body]
fn subtract_digits(a: &[u32], b: &[u32]) -> (r: Vec<u32>)
    requires
        digits_value(b@) <= digits_value(a@),
    ensures
        digits_value(r@) == digits_value(a@) - digits_value(b@),
        canonical(r@),
{
    (BigUint::from_slice(a) - BigUint::from_slice(b)).to_u32_digits()
}

/// `BigUint`'s `*`: the product of the two numbers.
#[verifier::external_body]
fn multiply_digits(a: &[u32], b: &[u32]) -> (r: Vec<u32>)
    ensures
        digits_value(r@) == digits_value(a@) * digits_value(b@),
        canonical(r@),
{
    (BigUint::from_slice(a) * BigUint::from_slice(b)).to_u32_digits()
}

/// `BigUint`'s `/`: the quotient of the two numbers, rounded down. It panics on a zero divisor.
#[verifier::external_body]
fn divide_digits(a: &[u32], b: &[u32]) -> (r: Vec<u32>)
    requires
        digits_value(b@) > 0,
    ensures
        digits_value(r@) == digits_value(a@) / digits_value(b@),
        canonical(r@),
{
    (BigUint::from_slice(a) / BigUint::from_slice(b)).to_u32_digits()
}

/// `BigUint::pow`: the number to the given power; the power zero gives one.
#[verifier::external_body]
fn power_digits(a: &[u32], exponent: u32) -> (r: Vec<u32>)
    ensures
        digits_value(r@) == pow(digits_value(a@) as int, exponent as nat),
        canonical(r@),
{
    BigUint::from_slice(a).pow(exponent).to_u32_digits()
}

/// `BigUint`'s `<`: whether the first number is the smaller.
#[verifier::external_body]
fn digits_less(a: &[u32], b: &[u32]) -> (r: bool)
    ensures
        r == (digits_value(a@) < digits_value(b@)),
{
    BigUint::from_slice(a) < BigUint::from_slice(b)
}

/// `BigUint::bits`: the fewest bits that express the number, none for zero.
#[verifier::external_body]
fn bits_of_digits(a: &[u32]) -> (r: u64)
    ensures
        digits_value(a@) == 0 ==> r == 0,
        digits_value(a@) > 0 ==> r > 0 && pow2((r - 1) as nat) <= digits_value(a@) < pow2(
            r as nat,
        ),
{
    BigUint::from_slice(a).bits()
}

/// Digits are positional: one digit is its own value, and digits behind others count `2^32` for each
/// of those before them.
pub proof fn law_digits_are_positional(low: Seq<u32>, high: Seq<u32>, digit: u32)
    ensures
        digits_value(Seq::empty()) == 0,
        digits_value(seq![digit]) == digit,
        digits_value(low + high) == digits_value(low) + pow2(32 * low.len()) * digits_value(high),
    decreases low.len(),
{
    assert(digits_value(seq![digit].skip(1)) == 0);
    assert(digits_value(seq![digit]) == digit + 0x1_0000_0000 * digits_value(seq![digit].skip(1)));
    lemma2_to64();
    if low.len() == 0 {
        assert(low + high =~= high);
        assert(1 * digits_value(high) == digits_value(high));
    } else {
        let rest = low.skip(1);
        law_digits_are_positional(rest, high, digit);
        assert((low + high).skip(1) =~= rest + high);
        assert(32 * low.len() == 32 + 32 * rest.len());
        lemma_pow2_adds(32, 32 * rest.len());
        let (p, v, w) = (
            pow2(32 * rest.len()) as int,
            digits_value(rest) as int,
            digits_value(high) as int,
        );
        assert(0x1_0000_0000 * (v + p * w) == 0x1_0000_0000 * v + (0x1_0000_0000 * p) * w)
            by (nonlinear_arith);
        assert(pow2(32 * low.len()) == 0x1_0000_0000 * p);
        assert((low + high)[0] == low[0]);
    }
}

} // verus!
