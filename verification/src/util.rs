//! Powers of two, as machine integers.

use vstd::arithmetic::power2::{
    is_pow2, lemma_pow2_adds, lemma_pow2_pos, lemma_pow2_strictly_increases, lemma_pow2_subtracts,
    lemma_pow2_unfold, pow2,
};
use vstd::bits::{lemma_usize_pow2_no_overflow, lemma_usize_shl_is_mul};
use vstd::prelude::*;

verus! {

/// The exponent `k` with `2^k == n`.
pub fn log2_strict(n: usize) -> (k: usize)
    requires
        is_pow2(n as int),
    ensures
        pow2(k as nat) == n,
        k < usize::BITS,
{
    let mut rest: usize = n;
    let mut k: usize = 0;
    proof {
        lemma_pow2_zero();
        reveal(is_pow2);
    }
    while rest != 1
        invariant
            is_pow2(rest as int),
            rest * pow2(k as nat) == n,
            k <= usize::BITS,
        decreases rest,
    {
        proof {
            reveal(is_pow2);
            lemma_pow2_unfold((k + 1) as nat);
            assert(rest * pow2(k as nat) == (rest / 2) * pow2((k + 1) as nat))
                by (nonlinear_arith)
                requires
                    rest % 2 == 0,
                    pow2((k + 1) as nat) == 2 * pow2(k as nat),
            ;
            lemma_exponent_bounded(rest as int, k as nat, n);
        }
        rest = rest / 2;
        k = k + 1;
    }
    proof {
        lemma_exponent_bounded(1, k as nat, n);
    }
    k
}

/// Whether `n` is a power of two.
pub fn is_power_of_two(n: usize) -> (b: bool)
    ensures
        b == is_pow2(n as int),
{
    let mut rest: usize = n;
    proof {
        reveal(is_pow2);
    }
    while rest > 1 && rest % 2 == 0
        invariant
            is_pow2(n as int) == is_pow2(rest as int),
        decreases rest,
    {
        proof {
            reveal(is_pow2);
        }
        rest = rest / 2;
    }
    proof {
        reveal(is_pow2);
    }
    rest == 1
}

/// The integers from `start` up to but not including `stop`, in ascending order; none where
/// `start >= stop`.
///
/// This is `num::range`, collected into a `Vec`. Claimed of it: it yields these integers, in
/// this order. The bound on `stop` keeps the vector to as many items as a machine integer has
/// bits.
#[verifier::external_body]
pub(crate) fn ascending(start: usize, stop: usize) -> (items: Vec<usize>)
    requires
        stop <= usize::BITS,
    ensures
        items@.len() == if start < stop { stop - start } else { 0 },
        forall|i: int| 0 <= i < items@.len() ==> #[trigger] items@[i] == start + i,
{
    num::range(start, stop).collect()
}

/// `1 << k`, which is `2^k`.
pub fn shl_one(k: usize) -> (n: usize)
    requires
        k < usize::BITS,
    ensures
        n == pow2(k as nat),
        n > 0,
{
    proof {
        lemma_usize_pow2_no_overflow(k as nat);
        lemma_usize_shl_is_mul(1, k);
    }
    1 << k
}

pub proof fn lemma_pow2_zero()
    ensures
        pow2(0) == 1,
{
    assert(pow2(0) == 1) by {
        reveal(vstd::arithmetic::power::pow);
    }
}

proof fn lemma_exponent_bounded(rest: int, k: nat, n: usize)
    requires
        rest >= 1,
        rest * pow2(k) == n,
    ensures
        k < usize::BITS,
{
    if k >= usize::BITS {
        lemma_usize_pow2_no_overflow((usize::BITS - 1) as nat);
        lemma_pow2_top();
        if k > usize::BITS {
            lemma_pow2_strictly_increases(usize::BITS as nat, k);
        }
        assert(rest * pow2(k) >= pow2(k)) by (nonlinear_arith)
            requires
                rest >= 1,
        ;
    }
}

proof fn lemma_pow2_top()
    ensures
        pow2(usize::BITS as nat) == usize::MAX + 1,
{
    vstd::arithmetic::power2::lemma2_to64();
}

/// The exponent of a machine integer is smaller than its width in bits.
pub proof fn lemma_exponent_fits(k: nat, n: usize)
    requires
        pow2(k) == n,
    ensures
        k < usize::BITS,
{
    lemma_exponent_bounded(1, k, n);
}

/// Twice a power of two, less two, still fits.
pub proof fn lemma_doubles(n: usize)
    requires
        is_pow2(n as int),
    ensures
        2 * n - 2 <= usize::MAX,
{
    let k = lemma_exponent(n as int);
    lemma_exponent_bounded(1, k, n);
    lemma_pow2_top();
    lemma_pow2_ordered(k + 1, usize::BITS as nat);
    lemma_pow2_unfold(k + 1);
}

/// `2^k` is a power of two.
pub proof fn lemma_pow2_is_pow2(k: nat)
    ensures
        is_pow2(pow2(k) as int),
    decreases k,
{
    reveal(is_pow2);
    if k == 0 {
        lemma_pow2_zero();
    } else {
        lemma_pow2_is_pow2((k - 1) as nat);
        lemma_pow2_unfold(k);
        lemma_pow2_pos(k);
    }
}

/// A power of two has an exponent.
pub proof fn lemma_exponent(n: int) -> (k: nat)
    requires
        is_pow2(n),
    ensures
        pow2(k) == n,
    decreases n,
{
    reveal(is_pow2);
    if n == 1 {
        lemma_pow2_zero();
        0
    } else {
        let k = lemma_exponent(n / 2);
        lemma_pow2_unfold(k + 1);
        k + 1
    }
}

/// Different exponents give different powers, and the larger exponent the larger power.
pub proof fn lemma_pow2_ordered(a: nat, b: nat)
    ensures
        pow2(a) <= pow2(b) <==> a <= b,
{
    if a < b {
        lemma_pow2_strictly_increases(a, b);
    } else if b < a {
        lemma_pow2_strictly_increases(b, a);
    }
}

/// `2^k` is `2^h` times `2^(k - h)`.
pub proof fn lemma_pow2_split(k: nat, h: nat)
    requires
        h <= k,
    ensures
        pow2(k) == pow2(h) * pow2((k - h) as nat),
        pow2(k) / pow2(h) == pow2((k - h) as nat),
        pow2(h) > 0,
        pow2((k - h) as nat) > 0,
{
    lemma_pow2_adds(h, (k - h) as nat);
    lemma_pow2_subtracts(h, k);
    lemma_pow2_pos(h);
    lemma_pow2_pos((k - h) as nat);
}

} // verus!
