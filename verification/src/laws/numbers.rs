//! What holds of the numbers in a stream, digit by digit.
#[allow(unused_imports)]
use crate::slots;
#[allow(unused_imports)]
use crate::varint;
#[allow(unused_imports)]
use crate::wire;
#[allow(unused_imports)]
use vstd::arithmetic::power::*;
use vstd::prelude::*;

verus! {

/// The `k`-th group of bits of the number that stands at `i`: seven bits of a byte, all eight
/// of a ninth one, and zero behind the last byte.
pub open spec fn group(s: Seq<u8>, i: int, k: int) -> int {
    if !(0 <= i + k < s.len()) {
        0
    } else if k >= 8 {
        s[i + k] as int
    } else {
        s[i + k] as int % 128
    }
}

/// The sum of the first `n` groups of bits of the number that stands at `i`, each weighted by
/// a power of 128, the least significant one first.
pub open spec fn sum_of_groups(s: Seq<u8>, i: int, n: nat) -> int
    decreases n,
{
    if n == 0 {
        0
    } else {
        sum_of_groups(s, i, (n - 1) as nat) + group(s, i, n - 1) * pow(128, (n - 1) as nat)
    }
}

proof fn lemma_number_sum(s: Seq<u8>, i: int, k: nat)
    requires
        k <= 8,
        forall|j: int| 0 <= j < k ==> #[trigger] varint::byte_at(s, i + j) >= 128,
    ensures
        sum_of_groups(s, i, k) + pow(128, k) * varint::number_from(s, i + k, k) == sum_of_groups(
            s,
            i,
            k + varint::size_from(s, i + k, k),
        ),
        forall|j: int|
            0 <= j < k + varint::size_from(s, i + k, k) - 1 ==> #[trigger] varint::byte_at(s, i + j)
                >= 128,
        k + varint::size_from(s, i + k, k) <= 9,
        k + varint::size_from(s, i + k, k) < 9 ==> varint::byte_at(
            s,
            i + k + varint::size_from(s, i + k, k) - 1,
        ) < 128,
    decreases 8 - k,
{
    let b = varint::byte_at(s, i + k);
    let p = pow(128, k);
    if k >= 8 || b < 128 {
        assert(group(s, i, k as int) == b);
        assert(b * p == p * b) by (nonlinear_arith);
    } else {
        let more: int = varint::number_from(s, i + k + 1, k + 1) as int;
        lemma_number_sum(s, i, k + 1);
        reveal(pow);
        assert(pow(128, k + 1) == 128 * p);
        assert(group(s, i, k as int) == b - 128);
        assert(p * (b - 128 + 128 * more) == (b - 128) * p + (128 * p) * more) by (nonlinear_arith);
    }
}

/// A number is read as the sum of the groups of bits of its bytes, weighted by powers of 128,
/// the least significant one first. It ends with the first byte below 128, and with the ninth
/// at the latest; behind the last byte zeros are read.
pub proof fn law_varint_is_sum_of_groups(s: Seq<u8>, i: int)
    ensures
        varint::number_at(s, i) == sum_of_groups(s, i, varint::size_at(s, i)),
        1 <= varint::size_at(s, i) <= 9,
        varint::size_at(s, i) > 1 ==> 0 <= i && i + varint::size_at(s, i) - 1 <= s.len(),
        forall|j: int| i <= j < i + varint::size_at(s, i) - 1 ==> #[trigger] s[j] >= 128,
        varint::size_at(s, i) < 9 && 0 <= i + varint::size_at(s, i) - 1 < s.len() ==> s[i
            + varint::size_at(s, i) - 1] < 128,
{
    varint::lemma_read_bound(s, i);
    lemma_number_sum(s, i, 0);
    reveal(pow);
    assert(pow(128, 0) == 1);
    let n: int = varint::size_at(s, i) as int;
    if n > 1 {
        assert(varint::byte_at(s, i + 0) >= 128);
        assert(varint::byte_at(s, i + (n - 2)) >= 128);
    }
    assert forall|j: int| i <= j < i + n - 1 implies #[trigger] s[j] >= 128 by {
        assert(varint::byte_at(s, i + (j - i)) >= 128);
    }
}

proof fn lemma_written(v: nat, k: nat, j: int)
    requires
        k <= 8,
        0 <= j < varint::varint_from(v, k).len(),
        k + varint::varint_from(v, k).len() < 9 || v < 256 * pow(128, (8 - k) as nat),
    ensures
        ({
            let w = varint::varint_from(v, k);
            let n: int = w.len() as int;
            &&& pow(128, j as nat) > 0
            &&& j < n - 1 ==> w[j] == (v as int / pow(128, j as nat)) % 128 + 128
            &&& j == n - 1 ==> w[j] == v as int / pow(128, j as nat)
            &&& k + n < 9 ==> v < pow(128, n as nat)
            &&& n > 1 ==> v >= pow(128, (n - 1) as nat)
            &&& k + n <= 9
        }),
    decreases 8 - k,
{
    let w = varint::varint_from(v, k);
    let n: int = w.len() as int;
    reveal(pow);
    assert(pow(128, 0) == 1);
    lemma_pow_positive(128, j as nat);
    if k >= 8 || v < 128 {
        assert(pow(128, 1) == 128 * pow(128, 0));
    } else {
        let q: nat = v / 128;
        let rest = varint::varint_from(q, k + 1);
        assert(n == rest.len() + 1);
        let e: nat = (8 - k - 1) as nat;
        assert(pow(128, (8 - k) as nat) == 128 * pow(128, e));
        if k + n >= 9 {
            let p = pow(128, e);
            assert(q < 256 * p) by (nonlinear_arith)
                requires
                    q == v / 128,
                    v < 256 * (128 * p),
            ;
        }
        let j2: int = if j == 0 {
            0
        } else {
            j - 1
        };
        lemma_written(q, k + 1, j2);
        assert(pow(128, n as nat) == 128 * pow(128, (n - 1) as nat));
        assert(pow(128, (n - 1) as nat) == 128 * pow(128, (n - 2) as nat));
        if j > 0 {
            assert(w[j] == rest[j - 1]);
            let p = pow(128, j2 as nat);
            assert(pow(128, j as nat) == 128 * p);
            vstd::arithmetic::div_mod::lemma_div_denominator(v as int, 128, p);
        }
        if n == 2 {
            assert(pow(128, 0) == 1);
        } else {
            assert(q >= pow(128, (n - 2) as nat));
        }
    }
}

/// A number is written in as few bytes as hold it, nine at most: its groups of seven bits,
/// least significant first, with 128 added to all but the last. A ninth byte holds the eight
/// bits that are left.
pub proof fn law_varint_bytes(v: u64, k: int)
    requires
        0 <= k < varint::varint(v).len(),
    ensures
        ({
            let w = varint::varint(v);
            let n: int = w.len() as int;
            &&& 1 <= n <= 9
            &&& n < 9 ==> v < pow(128, n as nat)
            &&& n > 1 ==> v >= pow(128, (n - 1) as nat)
            &&& k < n - 1 ==> w[k] == (v as int / pow(128, k as nat)) % 128 + 128
            &&& k == n - 1 ==> w[k] == v as int / pow(128, k as nat)
        }),
{
    varint::lemma_write_bound(v);
    reveal_with_fuel(pow, 9);
    assert(pow(128, 8) == 0x100_0000_0000_0000);
    lemma_written(v as nat, 0, k);
}

/// A number that is not negative is folded to twice itself, a negative one to one less than
/// twice its distance from zero, so that the even numbers are those of the counts and the odd
/// ones those of the runs. Farther from zero is folded to more.
pub proof fn law_zig_zag(n: i64, m: i64)
    ensures
        n >= 0 ==> varint::zig_zag(n) == 2 * n,
        n < 0 ==> varint::zig_zag(n) == -2 * n - 1,
        varint::zig_zag(n) % 2 == 0 <==> n >= 0,
        0 <= n < m ==> varint::zig_zag(n) < varint::zig_zag(m),
        m < n < 0 ==> varint::zig_zag(n) < varint::zig_zag(m),
        varint::zig_zag(n) == varint::zig_zag(m) ==> n == m,
{
}

/// An even number unfolds to its half, an odd one to minus the half of its successor.
pub proof fn law_un_zig_zag(z: u64)
    ensures
        z % 2 == 0 ==> 2 * varint::un_zig_zag(z) == z,
        z % 2 == 1 ==> 2 * varint::un_zig_zag(z) == -(z + 1),
{
}

proof fn lemma_be_digit(v: nat, n: nat, k: int)
    requires
        0 <= k < n,
    ensures
        wire::be_bytes(v, n).len() == n,
        wire::be_bytes(v, n)[k] == (v as int / pow(256, (n - 1 - k) as nat)) % 256,
    decreases n,
{
    let m: nat = (n - 1) as nat;
    wire::lemma_be_len(v / 256, m);
    reveal(pow);
    assert(pow(256, 0) == 1);
    assert(wire::be_bytes(v, n) == wire::be_bytes(v / 256, m).push((v % 256) as u8));
    if k == m {
        assert(v as int / 1 == v);
    }
    if k < m {
        lemma_be_digit(v / 256, m, k);
        let p = pow(256, (m - 1 - k) as nat);
        lemma_pow_positive(256, (m - 1 - k) as nat);
        assert(pow(256, (n - 1 - k) as nat) == 256 * p);
        vstd::arithmetic::div_mod::lemma_div_denominator(v as int, 256, p);
    }
}

/// The bytes of a number are its digits to the base 256, the most significant one first.
pub proof fn law_be_bytes(v: nat, n: nat, k: int)
    requires
        0 <= k < n,
    ensures
        wire::be_bytes(v, n).len() == n,
        wire::be_bytes(v, n)[k] == (v as int / pow(256, (n - 1 - k) as nat)) % 256,
{
    lemma_be_digit(v, n, k);
}

/// Bytes write down the number whose digits to the base 256 they are, the most significant
/// one first.
pub proof fn law_be_value(s: Seq<u8>, k: int)
    requires
        0 <= k < s.len(),
    ensures
        wire::be_value(s) < pow(256, s.len()),
        (wire::be_value(s) as int / pow(256, (s.len() - 1 - k) as nat)) % 256 == s[k],
    decreases s.len(),
{
    let m: nat = (s.len() - 1) as nat;
    let t = s.drop_last();
    let v: int = wire::be_value(s) as int;
    let q: int = wire::be_value(t) as int;
    reveal(pow);
    assert(pow(256, 0) == 1);
    assert(pow(256, s.len()) == 256 * pow(256, m));
    assert(v == q * 256 + s.last());
    assert(v / 256 == q && v % 256 == s.last());
    if k == m {
        if m == 0 {
            assert(q == 0);
        } else {
            law_be_value(t, 0);
        }
        assert((s.len() - 1 - k) as nat == 0);
        assert(v / 1 == v);
    } else {
        law_be_value(t, k);
        let e: nat = (m - 1 - k) as nat;
        let p = pow(256, e);
        lemma_pow_positive(256, e);
        assert((s.len() - 1 - k) as nat == e + 1);
        assert(pow(256, e + 1) == 256 * p);
        vstd::arithmetic::div_mod::lemma_div_denominator(v, 256, p);
        assert((t.len() - 1 - k) as nat == e);
        assert(v / (256 * p) == q / p);
        assert(t[k] == s[k]);
    }
}

/// The largest count that a width holds is one below the power of 256, and the width of a
/// count is the least of one, two, four and eight bytes that hold it.
pub proof fn law_widths(v: u64)
    ensures
        slots::max_of_width(1) + 1 == pow(256, 1),
        slots::max_of_width(2) + 1 == pow(256, 2),
        slots::max_of_width(4) + 1 == pow(256, 4),
        slots::max_of_width(8) + 1 == pow(256, 8),
        ({
            let w = slots::width_of(v);
            &&& w == 1 || w == 2 || w == 4 || w == 8
            &&& v < pow(256, w)
            &&& w > 1 ==> v >= pow(256, w / 2)
        }),
{
    slots::lemma_max_of_width();
    reveal_with_fuel(pow, 9);
    assert(pow(256, 1) == 0x100);
    assert(pow(256, 2) == 0x1_0000);
    assert(pow(256, 4) == 0x1_0000_0000);
    assert(pow(256, 8) == 0x1_0000_0000_0000_0000);
}

} // verus!
