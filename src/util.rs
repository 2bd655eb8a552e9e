use vstd::arithmetic::power2::pow2;
use vstd::prelude::*;

use crate::bitmap::low_mask;

verus! {

/// Rounds `v` up to the nearest multiple of `mul`.
pub fn next_multiple_of(v: u64, mul: u64) -> (r: u64)
    requires
        mul > 0,
        v + mul - 1 <= u64::MAX,
    ensures
        r as int == ((v + mul - 1) / mul as int) * mul,
        r >= v,
        r < v + mul,
        r % mul == 0,
{
    let q = (v + (mul - 1)) / mul;
    proof {
        assert(q * mul <= v + mul - 1) by (nonlinear_arith)
            requires
                q == (v + mul - 1) / mul as int,
                mul > 0,
        ;
        assert(q * mul >= v) by (nonlinear_arith)
            requires
                q == (v + mul - 1) / mul as int,
                mul > 0,
        ;
        assert((q * mul) % (mul as int) == 0) by (nonlinear_arith)
            requires
                mul > 0,
        ;
    }
    q * mul
}

/// Number of leading zero bits of `x`.
pub open spec fn clz(x: u64) -> int {
    vstd::std_specs::bits::u64_leading_zeros(x)
}

/// The top `b` bits of `k`, as an integer below `2^b`.
pub open spec fn top(k: u64, b: u64) -> u64 {
    if b == 0 {
        0
    } else {
        k >> ((64 - b) as u64)
    }
}

/// Keys whose xor has at least `p` leading zeros agree on their top `p` bits.
pub proof fn lemma_top_eq_of_clz(a: u64, b: u64, p: u64)
    requires
        p <= 64,
        clz(a ^ b) >= p,
    ensures
        top(a, p) == top(b, p),
{
    let c = a ^ b;
    vstd::std_specs::bits::axiom_u64_leading_zeros(c);
    let l = clz(c) as u64;
    if p > 0 {
        assert(a >> ((64 - p) as u64) == b >> ((64 - p) as u64)) by (bit_vector)
            requires
                c == a ^ b,
                c >> ((64 - l) as u64) == 0,
                1 <= p <= l <= 64,
        ;
    }
}

/// Keys that agree on their top `p` bits have an xor with at least `p`
/// leading zeros.
pub proof fn lemma_clz_of_top_eq(a: u64, b: u64, p: u64)
    requires
        1 <= p <= 64,
        top(a, p) == top(b, p),
    ensures
        clz(a ^ b) >= p,
{
    let c = a ^ b;
    vstd::std_specs::bits::axiom_u64_leading_zeros(c);
    if clz(c) < p {
        let l = clz(c) as u64;
        assert(false) by (bit_vector)
            requires
                c == a ^ b,
                (c >> ((63 - l) as u64)) & 1 != 0,
                l < p <= 64,
                a >> ((64 - p) as u64) == b >> ((64 - p) as u64),
        ;
    }
}

/// Taking the top bits keeps the order of keys.
pub proof fn lemma_top_mono(a: u64, b: u64, p: u64)
    requires
        a <= b,
        p <= 64,
    ensures
        top(a, p) <= top(b, p),
{
    if p > 0 {
        assert(a >> ((64 - p) as u64) <= b >> ((64 - p) as u64)) by (bit_vector)
            requires
                a <= b,
                1 <= p <= 64,
        ;
    }
}

pub proof fn lemma_shr_split(a: u64, p: u64, q: u64)
    requires
        1 <= p <= q <= 64,
    ensures
        a >> ((64 - p) as u64) == (a >> ((64 - q) as u64)) >> ((q - p) as u64),
{
    let x = (64 - q) as u64;
    let y = (q - p) as u64;
    let z = (64 - p) as u64;
    vstd::bits::lemma_u64_shr_is_div(a, z);
    vstd::bits::lemma_u64_shr_is_div(a, x);
    vstd::bits::lemma_u64_shr_is_div(a >> x, y);
    vstd::arithmetic::power2::lemma_pow2_adds(x as nat, y as nat);
    vstd::arithmetic::power2::lemma_pow2_pos(x as nat);
    vstd::arithmetic::power2::lemma_pow2_pos(y as nat);
    vstd::arithmetic::div_mod::lemma_div_denominator(
        a as int,
        vstd::arithmetic::power2::pow2(x as nat) as int,
        vstd::arithmetic::power2::pow2(y as nat) as int,
    );
}

/// Keys that agree on their top `q` bits agree on fewer.
pub proof fn lemma_top_narrow(a: u64, b: u64, p: u64, q: u64)
    requires
        p <= q <= 64,
        top(a, q) == top(b, q),
    ensures
        top(a, p) == top(b, p),
{
    if p > 0 {
        lemma_shr_split(a, p, q);
        lemma_shr_split(b, p, q);
    }
}

/// A key between two keys that agree on their top `p` bits agrees with them.
pub proof fn lemma_top_between(a: u64, k: u64, b: u64, p: u64)
    requires
        a <= k <= b,
        p <= 64,
        top(a, p) == top(b, p),
    ensures
        top(k, p) == top(a, p),
{
    lemma_top_mono(a, k, p);
    lemma_top_mono(k, b, p);
}

/// `p` is the least exponent with `n <= 2^p`.
pub open spec fn is_log2_ceil(n: int, p: int) -> bool {
    &&& 0 <= p
    &&& n <= pow2(p as nat)
    &&& (p == 0 || pow2((p - 1) as nat) < n)
}

/// `ceil(log2(n))`, and 0 for `n <= 1`.
pub open spec fn log2_ceil(n: int) -> int {
    choose|p: int| is_log2_ceil(n, p)
}

/// At most one exponent is the least one.
pub proof fn lemma_log2_ceil_unique(n: int, p: int, q: int)
    requires
        is_log2_ceil(n, p),
        is_log2_ceil(n, q),
    ensures
        p == q,
{
    if p < q {
        if p < q - 1 {
            vstd::arithmetic::power2::lemma_pow2_strictly_increases(p as nat, (q - 1) as nat);
        }
    } else if q < p {
        if q < p - 1 {
            vstd::arithmetic::power2::lemma_pow2_strictly_increases(q as nat, (p - 1) as nat);
        }
    }
}

/// `ceil(log2(n))`: the exponent of the least power of two not below `n`.
pub fn ceil_log2(n: u64) -> (r: u64)
    ensures
        r <= 64,
        is_log2_ceil(n as int, r as int),
        r == log2_ceil(n as int),
{
    let mut p: u64 = 0;
    proof {
        vstd::arithmetic::power2::lemma2_to64();
    }
    while p < 64 && (1u64 << p) < n
        invariant
            p <= 64,
            p == 0 || pow2((p - 1) as nat) < n,
        decreases 64 - p,
    {
        proof {
            vstd::bits::lemma_u64_pow2_no_overflow(p as nat);
            vstd::bits::lemma_u64_shl_is_mul(1, p);
        }
        p = p + 1;
    }
    proof {
        if p < 64 {
            vstd::bits::lemma_u64_pow2_no_overflow(p as nat);
            vstd::bits::lemma_u64_shl_is_mul(1, p);
        }
        assert(is_log2_ceil(n as int, p as int));
        lemma_log2_ceil_unique(n as int, p as int, log2_ceil(n as int));
    }
    p
}

/// The top `b` bits of `k`.
pub fn top_bits(k: u64, b: u64) -> (r: u64)
    requires
        b <= 64,
    ensures
        r == top(k, b),
{
    if b == 0 {
        0
    } else {
        k >> (64 - b)
    }
}

/// A value masked to `b` bits fits in `b` bits.
pub proof fn lemma_masked_fits(x: u64, b: u64)
    requires
        b <= 64,
    ensures
        x & low_mask(b) <= low_mask(b),
{
    assert(x & low_mask(b) <= low_mask(b)) by (bit_vector)
        requires
            b <= 64,
    ;
}

/// The top `b` bits of a key fit in `b` bits.
pub proof fn lemma_top_fits(k: u64, b: u64)
    requires
        b <= 64,
    ensures
        top(k, b) <= low_mask(b),
{
    assert(top(k, b) <= low_mask(b)) by (bit_vector)
        requires
            b <= 64,
    ;
}

} // verus!
