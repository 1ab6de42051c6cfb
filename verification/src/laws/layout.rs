//! What holds of the layout of values in buckets.
//!
//! The laws speak of three exponents. `u` is that of the greatest power of two that is not
//! above `low`, and `m` that of the least one that is not below twice ten to the `sigfig`.
//! Below two to the `u + m`, `k` is `u`; above that, it is as far above `u` as the value has
//! more binary digits than `u + m`.
#[allow(unused_imports)]
use crate::bits;
#[allow(unused_imports)]
use crate::errors::CreationError;
#[allow(unused_imports)]
use crate::geometry::Bounds;
#[allow(unused_imports)]
use crate::model::HistogramState;
#[allow(unused_imports)]
use vstd::arithmetic::power::*;
#[allow(unused_imports)]
use vstd::arithmetic::power2::*;
use vstd::prelude::*;

verus! {

/// Two to the `u` is the greatest power of two that is not above `low`.
pub open spec fn unit_exponent(low: u64, u: nat) -> bool {
    pow2(u) <= low < 2 * pow2(u)
}

/// Two to the `m` is the least power of two that is not below twice ten to the `sigfig`.
pub open spec fn precision_exponent(sigfig: u8, m: nat) -> bool {
    &&& m >= 1
    &&& pow2((m - 1) as nat) < 2 * pow(10, sigfig as nat) <= pow2(m)
}

/// Two to the `k` is the least power of two, two to the `u` or more, of which `value` is less
/// than two to the `m` multiples.
pub open spec fn scale_exponent(u: nat, m: nat, value: u64, k: nat) -> bool {
    &&& k >= u
    &&& value < pow2(m + k)
    &&& k > u ==> value >= pow2((m + k - 1) as nat)
}

proof fn lemma_unit_exponent(b: Bounds, u: nat)
    requires
        unit_exponent(b.low, u),
    ensures
        b.unit_magnitude() == u,
{
    lemma_pow2_unfold(u + 1);
    bits::lemma_bit_len_exact(b.low as nat, u + 1);
}

proof fn lemma_precision_exponent(b: Bounds, m: nat)
    requires
        b.sigfig <= 5,
        precision_exponent(b.sigfig, m),
    ensures
        b.sub_bucket_magnitude() == m,
{
    let t = b.sub_bucket_magnitude();
    reveal_with_fuel(pow, 6);
    lemma2_to64();
    assert(pow2((t - 1) as nat) < 2 * pow(10, b.sigfig as nat) <= pow2(t));
    if m < t {
        bits::lemma_pow2_monotone(m, (t - 1) as nat);
    } else if t < m {
        bits::lemma_pow2_monotone(t, (m - 1) as nat);
    }
}

proof fn lemma_scale_exponent(b: Bounds, u: nat, m: nat, value: u64, k: nat)
    requires
        b.unit_magnitude() == u,
        b.sub_bucket_magnitude() == m,
        scale_exponent(u, m, value, k),
    ensures
        b.bucket_of(value) == k - u,
{
    bits::lemma_bit_len(value as nat, m + k);
    if k > u {
        bits::lemma_bit_len(value as nat, (m + k - 1) as nat);
    }
}

/// Bounds make a histogram exactly when the lowest value is at least one and can be doubled,
/// the highest is no less than its double, there are at most five digits, and the values that
/// the first bucket reaches are below two to the 63rd.
pub proof fn law_valid_bounds(b: Bounds, u: nat, m: nat)
    requires
        b.sigfig <= 5 ==> precision_exponent(b.sigfig, m),
        b.low > 0 ==> unit_exponent(b.low, u),
    ensures
        b.valid() <==> {
            &&& b.low >= 1
            &&& 2 * b.low <= u64::MAX
            &&& b.high >= 2 * b.low
            &&& b.sigfig <= 5
            &&& u + m <= 63
        },
{
    if b.low > 0 {
        lemma_unit_exponent(b, u);
    }
    if b.sigfig <= 5 {
        lemma_precision_exponent(b, m);
    }
}

/// There is a histogram for every lowest value from one on, whatever the highest value is from
/// its double on, with up to five digits, as long as the lowest value with that many digits
/// behind it is well within a `u64`.
pub proof fn law_ordinary_bounds_are_valid(b: Bounds)
    requires
        1 <= b.low <= u64::MAX / 2,
        b.high >= 2 * b.low,
        b.sigfig <= 5,
        b.low * (2 * pow(10, b.sigfig as nat)) < pow2(62),
    ensures
        b.valid(),
{
    let u = b.unit_magnitude();
    let m = b.sub_bucket_magnitude();
    let p = 2 * pow(10, b.sigfig as nat);
    reveal_with_fuel(pow, 6);
    lemma2_to64();
    lemma2_to64_rest();
    bits::lemma_bit_len(b.low as nat, 0);
    bits::lemma_bit_len_exact(b.low as nat, bits::bit_len(b.low as nat));
    assert(pow2(u) <= b.low);
    assert(pow2((m - 1) as nat) <= p);
    lemma_pow2_adds(u, (m - 1) as nat);
    let x: int = pow2(u) as int;
    let y: int = pow2((m - 1) as nat) as int;
    let l: int = b.low as int;
    lemma_pow2_pos(u);
    assert(x * y <= l * p) by (nonlinear_arith)
        requires
            0 < x <= l,
            0 <= y <= p,
    ;
    assert(pow2(u + (m - 1) as nat) < pow2(62));
    if u + (m - 1) as nat >= 62 {
        bits::lemma_pow2_monotone(62, u + (m - 1) as nat);
    }
}

/// Each error comes for its own reason, and only where those before it do not hold.
pub proof fn law_creation_errors(b: Bounds, u: nat, m: nat)
    requires
        b.sigfig <= 5 ==> precision_exponent(b.sigfig, m),
        b.low > 0 ==> unit_exponent(b.low, u),
    ensures
        b.error() == Some(CreationError::LowIsZero) <==> b.low == 0,
        b.error() == Some(CreationError::LowExceedsMax) <==> 2 * b.low > u64::MAX,
        b.error() == Some(CreationError::HighLessThanTwiceLow) <==> {
            &&& b.low > 0
            &&& 2 * b.low <= u64::MAX
            &&& b.high < 2 * b.low
        },
        b.error() == Some(CreationError::SigFigExceedsMax) <==> {
            &&& b.low > 0
            &&& 2 * b.low <= u64::MAX
            &&& b.high >= 2 * b.low
            &&& b.sigfig > 5
        },
        b.error() == Some(CreationError::CannotRepresentSigFigBeyondLow) <==> {
            &&& b.low > 0
            &&& 2 * b.low <= u64::MAX
            &&& b.high >= 2 * b.low
            &&& b.sigfig <= 5
            &&& u + m > 63
        },
{
    if b.low > 0 {
        lemma_unit_exponent(b, u);
    }
    if b.sigfig <= 5 {
        lemma_precision_exponent(b, m);
    }
}

/// The flat index of a value: values are cut to multiples of two to the `k`, and each doubling
/// beyond the first two to the `u + m` values takes half as many indices as these.
pub proof fn law_index(b: Bounds, u: nat, m: nat, value: u64, k: nat)
    requires
        b.valid(),
        unit_exponent(b.low, u),
        precision_exponent(b.sigfig, m),
        scale_exponent(u, m, value, k),
    ensures
        b.index_of(value) == (k - u) * pow2((m - 1) as nat) + value as nat / pow2(k),
{
    lemma_unit_exponent(b, u);
    lemma_precision_exponent(b, m);
    lemma_scale_exponent(b, u, m, value, k);
}

/// The values that share a count with `value` are those from its multiple of two to the `k` up
/// to the next. One below that is the highest of them; where there is no next one in a `u64`,
/// it is taken to be `u64::MAX` itself, unless that was asked for.
pub proof fn law_equivalents(b: Bounds, u: nat, m: nat, value: u64, k: nat)
    requires
        b.valid(),
        unit_exponent(b.low, u),
        precision_exponent(b.sigfig, m),
        scale_exponent(u, m, value, k),
    ensures
        b.equivalent_range(value) == pow2(k),
        b.lowest_equivalent(value) == value - value as nat % pow2(k),
        b.value_of(b.index_of(value)) == value - value as nat % pow2(k),
        value == u64::MAX ==> b.highest_equivalent(value) == u64::MAX,
        value != u64::MAX ==> b.highest_equivalent(value) + 1 == if value - value as nat % pow2(k)
            + pow2(k) <= u64::MAX {
            value - value as nat % pow2(k) + pow2(k)
        } else {
            u64::MAX as int
        },
{
    lemma_unit_exponent(b, u);
    lemma_precision_exponent(b, m);
    lemma_scale_exponent(b, u, m, value, k);
    lemma_pow2_pos(k);
    let p: int = pow2(k) as int;
    vstd::arithmetic::div_mod::lemma_fundamental_div_mod(value as int, p);
    vstd::arithmetic::mul::lemma_mul_is_commutative(p, value as int / p);
    b.lemma_value_of_index_of(value);
}

/// Two values have one index exactly when they have one lowest equivalent. From one value to
/// the next the index stays or goes up by one, and it goes up exactly at the lowest of a range.
pub proof fn law_indices_in_order(b: Bounds, v: u64, w: u64)
    requires
        b.valid(),
    ensures
        b.index_of(0) == 0,
        v <= w ==> b.index_of(v) <= b.index_of(w),
        b.index_of(v) == b.index_of(w) <==> b.lowest_equivalent(v) == b.lowest_equivalent(w),
        w == v + 1 && b.lowest_equivalent(w) == w ==> b.index_of(w) == b.index_of(v) + 1,
        w == v + 1 && b.lowest_equivalent(w) != w ==> b.index_of(w) == b.index_of(v),
{
    b.lemma_index_zero();
    b.lemma_equivalents(v);
    b.lemma_equivalents(w);
    b.lemma_sizes();
    b.lemma_sub_bucket(v);
    b.lemma_sub_bucket(w);
    if v <= w {
        b.lemma_index_monotone(v, w);
    }
    b.lemma_value_of_index_of(v);
    b.lemma_value_of_index_of(w);
    if b.lowest_equivalent(v) == b.lowest_equivalent(w) {
        assert(b.index_of(b.lowest_equivalent(v) as u64) == b.index_of(v));
    }
    if w == v + 1 {
        if b.lowest_equivalent(w) != w {
            b.lemma_same_range(w, v);
        } else {
            lemma_next_index(b, v, w);
        }
    }
}

proof fn lemma_next_index(b: Bounds, v: u64, w: u64)
    requires
        b.valid(),
        w == v + 1,
        b.lowest_equivalent(w) == w,
    ensures
        b.index_of(w) == b.index_of(v) + 1,
{
    let half: int = b.half_count() as int;
    let u = b.unit_magnitude();
    let m = b.sub_bucket_magnitude();
    let c = b.bucket_of(v);
    let d = b.bucket_of(w);
    let r: int = b.equivalent_range(v) as int;
    let s: int = b.sub_bucket_of(v) as int;
    b.lemma_sizes();
    b.lemma_sub_bucket(v);
    b.lemma_sub_bucket(w);
    b.lemma_equivalents(v);
    b.lemma_equivalents(w);
    bits::lemma_bit_len_monotone(v as nat, w as nat);
    assert((s + 1) * r == s * r + r) by (nonlinear_arith);
    if c == d {
        let t: int = b.sub_bucket_of(w) as int;
        assert(t * r == w);
        assert(t == s + 1) by (nonlinear_arith)
            requires
                t * r == w,
                s * r < w <= (s + 1) * r,
                r > 0,
        ;
    } else {
        // the next value starts a bucket
        bits::lemma_bit_len(v as nat, m + u + c);
        bits::lemma_bit_len(w as nat, m + u + c);
        assert(w == pow2(m + u + c));
        lemma_pow2_unfold(m + u + c + 1);
        lemma_pow2_pos(m + u + c);
        bits::lemma_bit_len(w as nat, m + u + c + 1);
        assert(d == c + 1);
        lemma_pow2_adds(m, c + u);
        assert(m + (c + u) == m + u + c);
        lemma_pow2_adds((m - 1) as nat, d + u);
        assert((m - 1) as nat + (d + u) == m + u + c);
        let q: int = b.equivalent_range(w) as int;
        assert(w == half * q);
        assert(w == 2 * half * r);
        assert(b.sub_bucket_of(w) == half) by {
            assert((half * q) / q == half) by (nonlinear_arith)
                requires
                    q > 0,
            ;
        }
        assert(s == 2 * half - 1) by (nonlinear_arith)
            requires
                s * r < 2 * half * r <= (s + 1) * r,
                r > 0,
        ;
        assert(d * half == c * half + half) by (nonlinear_arith)
            requires
                d == c + 1,
        ;
    }
}

/// Every flat index is that of one range of values, of which `value_of` is the lowest, and
/// there are as many indices as values are tracked in ranges.
pub proof fn law_values_of_indices(b: Bounds, i: nat, j: nat)
    requires
        b.valid(),
        i < b.counts_len(),
        j < b.counts_len(),
    ensures
        b.value_of(i) <= u64::MAX,
        b.index_of(b.value_of(i) as u64) == i,
        b.lowest_equivalent(b.value_of(i) as u64) == b.value_of(i),
        i < j ==> b.value_of(i) < b.value_of(j),
        i + 1 == j ==> b.highest_equivalent(b.value_of(i) as u64) + 1 == b.value_of(j),
{
    b.lemma_index_of_value_of(i);
    b.lemma_index_of_value_of(j);
    if i < j {
        b.lemma_value_monotone(i, j);
        b.lemma_equivalents(b.value_of(i) as u64);
        b.lemma_equivalents(b.value_of(j) as u64);
        if i + 1 == j {
            let w = b.value_of(j) as u64;
            let v = (w - 1) as u64;
            lemma_next_index(b, v, w);
            b.lemma_value_of_index_of(v);
            b.lemma_equivalents(v);
            b.lemma_sub_bucket(v);
            let low = b.value_of(i) as u64;
            b.lemma_same_range(v, low);
            let r: int = b.equivalent_range(v) as int;
            let s: int = b.sub_bucket_of(v) as int;
            if low + r > w {
                b.lemma_same_range(v, w);
            }
        }
    }
}

/// A histogram tracks the values below two to the `m + k`, `k` being that of the highest value,
/// and no others: whatever was recorded, every value up to the highest one is tracked, and
/// two histograms of the same bounds track the same values.
pub proof fn law_tracked_values(h: HistogramState, u: nat, m: nat, k: nat, value: u64)
    requires
        h.wf(),
        unit_exponent(h.bounds.low, u),
        precision_exponent(h.bounds.sigfig, m),
        scale_exponent(u, m, h.bounds.high, k),
    ensures
        h.tracks(value) <==> value < pow2(m + k),
        h.bounds.counts_len() == (k - u + 2) * pow2((m - 1) as nat),
{
    let b = h.bounds;
    lemma_unit_exponent(b, u);
    lemma_precision_exponent(b, m);
    lemma_scale_exponent(b, u, m, b.high, k);
    b.lemma_tracked(value);
    bits::lemma_bit_len(value as nat, m + k);
}

/// Every value up to the highest one can be recorded, whatever was recorded before.
pub proof fn law_range_is_tracked(h: HistogramState, value: u64)
    requires
        h.wf(),
    ensures
        value <= h.bounds.high ==> h.tracks(value),
{
    h.bounds.lemma_tracked(value);
}

/// Histograms of the same bounds track the same values, and with a value all lower ones.
pub proof fn law_tracking_depends_on_bounds(g: HistogramState, h: HistogramState, v: u64, w: u64)
    requires
        g.wf(),
        h.wf(),
        g.bounds == h.bounds,
        v <= w,
    ensures
        h.tracks(w) ==> g.tracks(v),
        h.tracks(w) <==> h.bounds.bucket_of(w) <= h.bounds.bucket_of(h.bounds.high),
{
    h.bounds.lemma_tracked(w);
    h.bounds.lemma_index_monotone(v, w);
}

} // verus!
