//! Powers of two in machine words.
use vstd::arithmetic::power::*;
use vstd::arithmetic::power2::*;
use vstd::prelude::*;

verus! {

/// Whether `n` is `2^k` for some `k`.
pub fn is_power_of_two(n: usize) -> (r: bool)
    ensures
        r == is_pow2(n as int),
        r ==> n > 0,
{
    if n == 0 {
        reveal(is_pow2);
        return false;
    }
    let mut odd_part: usize = n;
    while odd_part % 2 == 0
        invariant
            odd_part > 0,
            is_pow2(odd_part as int) == is_pow2(n as int),
        decreases odd_part,
    {
        reveal(is_pow2);
        odd_part = odd_part / 2;
    }
    reveal(is_pow2);
    odd_part == 1
}

/// `2^exponent`, or nothing where that exceeds the word.
pub fn checked_power_of_two(exponent: usize) -> (r: Option<usize>)
    ensures
        r is Some <==> pow2(exponent as nat) <= usize::MAX,
        r is Some ==> r->0 == pow2(exponent as nat),
{
    let mut value: usize = 1;
    let mut i: usize = 0;
    proof {
        lemma_pow0(2);
    }
    while i < exponent
        invariant
            i <= exponent,
            value == pow2(i as nat),
        decreases exponent - i,
    {
        proof {
            lemma_pow2_unfold((i + 1) as nat);
            lemma_pow2_monotonic((i + 1) as nat, exponent as nat);
        }
        match value.checked_mul(2) {
            None => {
                return None;
            },
            Some(doubled) => {
                value = doubled;
            },
        }
        i = i + 1;
    }
    Some(value)
}

/// The `k` with `n = 2^k`.
pub fn exact_log2(n: usize) -> (r: usize)
    requires
        is_pow2(n as int),
    ensures
        pow2(r as nat) == n,
{
    let mut rest: usize = n;
    let mut k: usize = 0;
    proof {
        lemma2_to64();
        reveal(is_pow2);
    }
    while rest > 1
        invariant
            rest > 0,
            is_pow2(rest as int),
            rest * pow2(k as nat) == n,
            k + rest <= n,
        decreases rest,
    {
        reveal(is_pow2);
        proof {
            lemma_pow2_unfold((k + 1) as nat);
            let half = (rest / 2) as int;
            let p = pow2(k as nat) as int;
            assert(half * (2 * p) == (2 * half) * p) by (nonlinear_arith);
        }
        rest = rest / 2;
        k = k + 1;
    }
    assert(rest == 1);
    k
}

/// A larger exponent gives at least as large a power of two.
pub proof fn lemma_pow2_monotonic(a: nat, b: nat)
    requires
        a <= b,
    ensures
        pow2(a) <= pow2(b),
{
    if a < b {
        lemma_pow2_strictly_increases(a, b);
    }
}

} // verus!
