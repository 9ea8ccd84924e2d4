//! The Baby Bear field.
//!
//! [`BabyBear`] holds an element as its canonical representative. The arithmetic is
//! `p3_baby_bear`'s: each private function at the end of this file hands representatives to one of
//! its operations and takes a representative back.
use crate::field::Field;
use p3_field::{Field as _, PrimeField32};
use vstd::arithmetic::div_mod::*;
use vstd::arithmetic::mul::*;
use vstd::prelude::*;

verus! {

/// The Baby Bear prime, `2^31 - 2^27 + 1`.
pub const BABY_BEAR_PRIME: u32 = 0x7800_0001;

/// An element of the Baby Bear field, held as its representative below the prime.
#[derive(Clone, Copy, Debug, PartialEq, Eq)]
pub struct BabyBear {
    pub value: u32,
}

impl BabyBear {
    /// The element that `value` represents.
    pub fn new(value: u32) -> (r: Self)
        ensures
            r.valid(),
            r.value == value % BABY_BEAR_PRIME,
    {
        BabyBear { value: value % BABY_BEAR_PRIME }
    }
}

impl Field for BabyBear {
    open spec fn valid(self) -> bool {
        self.value < BABY_BEAR_PRIME
    }

    open spec fn zero_value() -> Self {
        BabyBear { value: 0 }
    }

    open spec fn one_value() -> Self {
        BabyBear { value: 1 }
    }

    open spec fn sum(self, other: Self) -> Self {
        BabyBear { value: ((self.value + other.value) % BABY_BEAR_PRIME as int) as u32 }
    }

    open spec fn difference(self, other: Self) -> Self {
        BabyBear { value: ((self.value - other.value) % BABY_BEAR_PRIME as int) as u32 }
    }

    open spec fn product(self, other: Self) -> Self {
        BabyBear { value: ((self.value * other.value) % BABY_BEAR_PRIME as int) as u32 }
    }

    proof fn ring_laws(a: Self, b: Self, c: Self) {
        lemma_sums(a.value as int, b.value as int, c.value as int);
        lemma_products(a.value as int, b.value as int, c.value as int);
    }

    proof fn constants_are_valid() {
    }

    fn zero() -> (r: Self) {
        BabyBear { value: 0 }
    }

    fn one() -> (r: Self) {
        BabyBear { value: 1 }
    }

    fn equals(self, other: Self) -> (r: bool) {
        self.value == other.value
    }

    fn plus(self, other: Self) -> (r: Self) {
        BabyBear { value: add_representatives(self.value, other.value) }
    }

    fn minus(self, other: Self) -> (r: Self) {
        BabyBear { value: subtract_representatives(self.value, other.value) }
    }

    fn times(self, other: Self) -> (r: Self) {
        BabyBear { value: multiply_representatives(self.value, other.value) }
    }

    fn try_inverse(self) -> (r: Option<Self>) {
        match invert_representative(self.value) {
            Some(value) => Some(BabyBear { value }),
            None => None,
        }
    }
}

/// The laws of addition modulo the prime.
proof fn lemma_sums(x: int, y: int, z: int)
    requires
        0 <= x < BABY_BEAR_PRIME,
    ensures
        0 <= (x + y) % (BABY_BEAR_PRIME as int) < BABY_BEAR_PRIME,
        0 <= (x - y) % (BABY_BEAR_PRIME as int) < BABY_BEAR_PRIME,
        0 <= (y + z) % (BABY_BEAR_PRIME as int) < BABY_BEAR_PRIME,
        ((x + y) % (BABY_BEAR_PRIME as int) + z) % (BABY_BEAR_PRIME as int) == (x + (y + z) % (
        BABY_BEAR_PRIME as int)) % (BABY_BEAR_PRIME as int),
        (x + 0) % (BABY_BEAR_PRIME as int) == x,
        ((x - y) % (BABY_BEAR_PRIME as int) + y) % (BABY_BEAR_PRIME as int) == x,
{
    let p = BABY_BEAR_PRIME as int;
    lemma_add_mod_noop_right(z, x + y, p);
    lemma_add_mod_noop_right(x, y + z, p);
    lemma_add_mod_noop_right(y, x - y, p);
}

/// The laws of multiplication modulo the prime.
proof fn lemma_products(x: int, y: int, z: int)
    requires
        0 <= x < BABY_BEAR_PRIME,
    ensures
        0 <= (x * y) % (BABY_BEAR_PRIME as int) < BABY_BEAR_PRIME,
        0 <= (x * z) % (BABY_BEAR_PRIME as int) < BABY_BEAR_PRIME,
        0 <= (y * z) % (BABY_BEAR_PRIME as int) < BABY_BEAR_PRIME,
        x * y == y * x,
        ((x * y) % (BABY_BEAR_PRIME as int) * z) % (BABY_BEAR_PRIME as int) == (x * ((y * z) % (
        BABY_BEAR_PRIME as int))) % (BABY_BEAR_PRIME as int),
        (x * 1) % (BABY_BEAR_PRIME as int) == x,
        (x * ((y + z) % (BABY_BEAR_PRIME as int))) % (BABY_BEAR_PRIME as int) == ((x * y) % (
        BABY_BEAR_PRIME as int) + (x * z) % (BABY_BEAR_PRIME as int)) % (BABY_BEAR_PRIME as int),
{
    let p = BABY_BEAR_PRIME as int;
    lemma_mod_bound(x * y, p);
    lemma_mod_bound(x * z, p);
    lemma_mod_bound(y * z, p);
    lemma_mul_is_commutative(x, y);
    lemma_mul_is_associative(x, y, z);
    lemma_mul_mod_noop_left(x * y, z, p);
    lemma_mul_mod_noop_right(x, y * z, p);
    lemma_mul_mod_noop_right(x, y + z, p);
    lemma_mul_is_distributive_add(x, y, z);
    lemma_add_mod_noop(x * y, x * z, p);
    lemma_small_mod(x as nat, p as nat);
}

/// `p3_baby_bear::BabyBear`'s `+`: the sum modulo the prime.
#[verifier::external_body]
fn add_representatives(a: u32, b: u32) -> (r: u32)
    ensures
        r == (a + b) % BABY_BEAR_PRIME as int,
{
    (p3_baby_bear::BabyBear::new(a) + p3_baby_bear::BabyBear::new(b)).as_canonical_u32()
}

/// `p3_baby_bear::BabyBear`'s `-`: the difference modulo the prime.
#[verifier::external_body]
fn subtract_representatives(a: u32, b: u32) -> (r: u32)
    ensures
        r == (a - b) % BABY_BEAR_PRIME as int,
{
    (p3_baby_bear::BabyBear::new(a) - p3_baby_bear::BabyBear::new(b)).as_canonical_u32()
}

/// `p3_baby_bear::BabyBear`'s `*`: the product modulo the prime.
#[verifier::external_body]
fn multiply_representatives(a: u32, b: u32) -> (r: u32)
    ensures
        r == (a * b) % BABY_BEAR_PRIME as int,
{
    (p3_baby_bear::BabyBear::new(a) * p3_baby_bear::BabyBear::new(b)).as_canonical_u32()
}

/// `p3_baby_bear::BabyBear`'s `try_inverse`: the number below the prime that multiplies with `a` to
/// one modulo the prime, which all but the multiples of the prime have.
#[verifier::external_body]
fn invert_representative(a: u32) -> (r: Option<u32>)
    ensures
        r is None <==> a % BABY_BEAR_PRIME == 0,
        r matches Some(inverse) ==> inverse < BABY_BEAR_PRIME && (a * inverse)
            % BABY_BEAR_PRIME as int == 1,
{
    match p3_baby_bear::BabyBear::new(a).try_inverse() {
        Some(inverse) => Some(inverse.as_canonical_u32()),
        None => None,
    }
}

} // verus!
