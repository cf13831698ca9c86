//! Integer facts about powers of two used by the transforms' shape contracts.
use vstd::prelude::*;

verus! {

/// 2 raised to `k`.
pub open spec fn two_pow(k: nat) -> nat
    decreases k,
{
    if k == 0 {
        1
    } else {
        2 * two_pow((k - 1) as nat)
    }
}

/// `n` is 2^k for some natural `k`.
pub open spec fn is_power_of_two(n: nat) -> bool
    decreases n,
{
    if n == 0 {
        false
    } else if n == 1 {
        true
    } else {
        n % 2 == 0 && is_power_of_two(n / 2)
    }
}

/// The floor of the base-2 logarithm of `n` (0 for `n <= 1`).
pub open spec fn log2(n: nat) -> nat
    decreases n,
{
    if n <= 1 {
        0
    } else {
        1 + log2(n / 2)
    }
}

pub proof fn lemma_two_pow_positive(k: nat)
    ensures
        two_pow(k) >= 1,
    decreases k,
{
    if k > 0 {
        lemma_two_pow_positive((k - 1) as nat);
    }
}

pub proof fn lemma_two_pow_monotonic(a: nat, b: nat)
    requires
        a <= b,
    ensures
        two_pow(a) <= two_pow(b),
    decreases b,
{
    if a < b {
        lemma_two_pow_monotonic(a, (b - 1) as nat);
        lemma_two_pow_positive((b - 1) as nat);
    }
}

pub proof fn lemma_two_pow_add(a: nat, b: nat)
    ensures
        two_pow(a + b) == two_pow(a) * two_pow(b),
    decreases b,
{
    if b > 0 {
        let c = (b - 1) as nat;
        lemma_two_pow_add(a, c);
        assert(two_pow(a + b) == 2 * two_pow(a + c));
        assert(two_pow(b) == 2 * two_pow(c));
        let x = two_pow(a);
        let y = two_pow(c);
        assert(x * (2 * y) == 2 * (x * y)) by (nonlinear_arith);
        assert(two_pow(a + b) == x * two_pow(b));
    } else {
        assert(two_pow(b) == 1);
        assert(two_pow(a) * 1 == two_pow(a));
    }
}

/// A power of two is recovered from its logarithm, and the logarithm of 2^k is k.
pub proof fn lemma_two_pow_log2(k: nat)
    ensures
        is_power_of_two(two_pow(k)),
        log2(two_pow(k)) == k,
    decreases k,
{
    lemma_two_pow_positive(k);
    if k > 0 {
        lemma_two_pow_log2((k - 1) as nat);
        lemma_two_pow_positive((k - 1) as nat);
        assert(two_pow(k) / 2 == two_pow((k - 1) as nat));
    }
}

pub proof fn lemma_power_of_two_log2(n: nat)
    requires
        is_power_of_two(n),
    ensures
        two_pow(log2(n)) == n,
        n >= 1,
    decreases n,
{
    if n > 1 {
        lemma_power_of_two_log2(n / 2);
    }
}

/// Dividing 2^k by 2^j (j <= k) leaves 2^(k - j).
pub proof fn lemma_two_pow_div(k: nat, j: nat)
    requires
        j <= k,
    ensures
        two_pow(k) / two_pow(j) == two_pow((k - j) as nat),
        two_pow(k) % two_pow(j) == 0,
{
    lemma_two_pow_add((k - j) as nat, j);
    lemma_two_pow_positive(j);
    let a = two_pow((k - j) as nat);
    let b = two_pow(j);
    assert(two_pow(k) == a * b);
    vstd::arithmetic::div_mod::lemma_div_by_multiple(a as int, b as int);
    vstd::arithmetic::div_mod::lemma_mod_multiples_basic(a as int, b as int);
}

/// Adding `s` after reducing modulo `m` gives the same remainder as adding first.
pub proof fn lemma_mod_step(a: int, s: int, m: int)
    requires
        m > 0,
    ensures
        ((a % m) + s) % m == (a + s) % m,
{
    vstd::arithmetic::div_mod::lemma_add_mod_noop_right(s, a, m);
    assert(s + a == a + s);
    assert(s + (a % m) == (a % m) + s);
}

/// One more step of a strided walk: `start + (t + 1) * stride`.
pub proof fn lemma_stride_step(start: int, t: int, stride: int, m: int)
    requires
        m > 0,
    ensures
        (((start + t * stride) % m) + stride) % m == (start + (t + 1) * stride) % m,
{
    lemma_mod_step(start + t * stride, stride, m);
    assert((t + 1) * stride == t * stride + stride) by (nonlinear_arith);
}

/// One more step of a walk backwards: `start - (t + 1) * stride`.
pub proof fn lemma_stride_step_back(start: int, t: int, stride: int, m: int)
    requires
        m > 0,
    ensures
        (((start - t * stride) % m) - stride) % m == (start - (t + 1) * stride) % m,
{
    lemma_mod_step(start - t * stride, -stride, m);
    assert((t + 1) * stride == t * stride + stride) by (nonlinear_arith);
}

/// `two_pow` agrees with vstd's `pow2`.
pub proof fn lemma_two_pow_is_pow2(k: nat)
    ensures
        two_pow(k) == vstd::arithmetic::power2::pow2(k),
    decreases k,
{
    if k == 0 {
        vstd::arithmetic::power2::lemma2_to64();
    } else {
        lemma_two_pow_is_pow2((k - 1) as nat);
        vstd::arithmetic::power2::lemma_pow2_unfold(k);
    }
}

/// `1 << k`, the k-th power of two, for `k` below the width of `usize`.
pub fn shift_pow2(k: usize) -> (r: usize)
    requires
        k < usize::BITS,
    ensures
        r == two_pow(k as nat),
{
    proof {
        lemma_two_pow_is_pow2(k as nat);
        vstd::bits::lemma_usize_pow2_no_overflow(k as nat);
        vstd::bits::lemma_usize_shl_is_mul(1, k);
    }
    1usize << k
}

/// A power of two that fits in a `usize` has an exponent below the width of `usize`.
pub proof fn lemma_log2_below_bits(n: nat)
    requires
        is_power_of_two(n),
        n <= usize::MAX,
    ensures
        log2(n) < usize::BITS,
{
    lemma_power_of_two_log2(n);
    if log2(n) >= usize::BITS {
        lemma_two_pow_monotonic(usize::BITS as nat, log2(n));
        lemma_two_pow_is_pow2(usize::BITS as nat);
        vstd::arithmetic::power2::lemma2_to64();
        assert(usize::BITS == 32 || usize::BITS == 64);
    }
}

} // verus!
