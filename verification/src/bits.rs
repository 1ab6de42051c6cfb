//! Bit lengths, powers of two and the shifts that compute with them.
#[allow(unused_imports)]
use vstd::arithmetic::power2::*;
#[allow(unused_imports)]
use vstd::bits::*;
use vstd::prelude::*;
#[allow(unused_imports)]
use vstd::std_specs::bits::*;

verus! {

/// The number of binary digits of `v`; zero has none.
pub open spec fn bit_len(v: nat) -> nat
    decreases v,
{
    if v == 0 {
        0
    } else {
        1 + bit_len(v / 2)
    }
}

/// `v` has at most `k` binary digits exactly when it is below the `k`-th power of two.
pub proof fn lemma_bit_len(v: nat, k: nat)
    ensures
        bit_len(v) <= k <==> v < pow2(k),
    decreases v,
{
    lemma_pow2_pos(k);
    lemma2_to64();
    if v > 0 && k > 0 {
        lemma_pow2_unfold(k);
        lemma_bit_len(v / 2, (k - 1) as nat);
    }
}

/// A number with `k > 0` binary digits reaches the power of two before the `k`-th.
pub proof fn lemma_bit_len_exact(v: nat, k: nat)
    requires
        k > 0,
    ensures
        bit_len(v) == k <==> pow2((k - 1) as nat) <= v < pow2(k),
{
    lemma_bit_len(v, k);
    lemma_bit_len(v, (k - 1) as nat);
}

/// Bit lengths grow with the number.
pub proof fn lemma_bit_len_monotone(v: nat, w: nat)
    requires
        v <= w,
    ensures
        bit_len(v) <= bit_len(w),
{
    lemma_bit_len(w, bit_len(w));
    lemma_bit_len(v, bit_len(w));
}

/// A `u64` has at most 64 binary digits.
pub proof fn lemma_bit_len_u64(v: u64)
    ensures
        bit_len(v as nat) <= 64,
{
    lemma2_to64();
    lemma_pow2_unfold(64);
    lemma_bit_len(v as nat, 64);
}

/// What `leading_zeros` counts are the digits short of 64.
pub proof fn lemma_leading_zeros(v: u64)
    ensures
        u64_leading_zeros(v) == 64 - bit_len(v as nat),
    decreases v,
{
    reveal(u64_leading_zeros);
    if v > 0 {
        lemma_leading_zeros(v / 2);
    }
}

/// Setting bits in a number makes it as long as the longer of the two.
pub proof fn lemma_bit_len_or(v: u64, w: u64)
    ensures
        bit_len((v | w) as nat) == if bit_len(v as nat) <= bit_len(w as nat) {
            bit_len(w as nat)
        } else {
            bit_len(v as nat)
        },
{
    let k: nat = if bit_len(v as nat) <= bit_len(w as nat) {
        bit_len(w as nat)
    } else {
        bit_len(v as nat)
    };
    assert((v | w) >= v && (v | w) >= w) by (bit_vector);
    lemma_bit_len_monotone(v as nat, (v | w) as nat);
    lemma_bit_len_monotone(w as nat, (v | w) as nat);
    lemma_bit_len_u64(v);
    lemma_bit_len_u64(w);
    lemma_bit_len_u64(v | w);
    if k < 64 {
        let s: u64 = k as u64;
        lemma_bit_len(v as nat, k);
        lemma_bit_len(w as nat, k);
        lemma_u64_pow2_no_overflow(k);
        lemma_u64_shl_is_mul(1, s);
        assert((v | w) < (1u64 << s)) by (bit_vector)
            requires
                v < (1u64 << s),
                w < (1u64 << s),
                s < 64,
        ;
        lemma_bit_len((v | w) as nat, k);
    }
}

/// Powers of two grow with the exponent.
pub proof fn lemma_pow2_monotone(j: nat, k: nat)
    requires
        j <= k,
    ensures
        0 < pow2(j) <= pow2(k),
{
    lemma_pow2_pos(j);
    if j < k {
        lemma_pow2_strictly_increases(j, k);
    }
}

/// Dividing by a power of two takes that many digits off a number's bound.
pub proof fn lemma_div_pow2_bounds(v: nat, j: nat, k: nat)
    ensures
        v < pow2(j + k) <==> v / pow2(k) < pow2(j),
{
    lemma_pow2_pos(k);
    lemma_pow2_adds(j, k);
    let p: int = pow2(k) as int;
    let q: int = pow2(j) as int;
    assert((v as int) < q * p <==> (v as int) / p < q) by (nonlinear_arith)
        requires
            p > 0,
    ;
}

} // verus!
