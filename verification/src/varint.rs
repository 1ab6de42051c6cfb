//! Integers in a varying number of bytes: seven bits a byte, least significant first, with
//! the high bit set on all bytes but the last. A ninth byte is always the last and has all
//! its eight bits, so nine bytes hold any `u64`. Signed integers are folded into unsigned
//! ones first, zero, minus one, one, minus two and so on.
use vstd::prelude::*;

verus! {

/// The bytes of `v` from the `k`-th byte on.
pub open spec fn varint_from(v: nat, k: nat) -> Seq<u8>
    decreases 8 - k,
{
    if k >= 8 || v < 128 {
        seq![v as u8]
    } else {
        seq![(v % 128 + 128) as u8] + varint_from(v / 128, k + 1)
    }
}

/// The bytes of `v`.
pub open spec fn varint(v: u64) -> Seq<u8> {
    varint_from(v as nat, 0)
}

/// The byte at `i`, as if zeros followed the last one.
pub open spec fn byte_at(s: Seq<u8>, i: int) -> nat {
    if 0 <= i < s.len() {
        s[i] as nat
    } else {
        0
    }
}

/// The number that stands at `i`, of whose bytes that is the `k`-th.
pub open spec fn number_from(s: Seq<u8>, i: int, k: nat) -> nat
    decreases 8 - k,
{
    let b = byte_at(s, i);
    if k >= 8 || b < 128 {
        b
    } else {
        (b - 128) as nat + 128 * number_from(s, i + 1, k + 1)
    }
}

/// How many bytes the number that stands at `i` has left, of whose bytes that is the
/// `k`-th.
pub open spec fn size_from(s: Seq<u8>, i: int, k: nat) -> nat
    decreases 8 - k,
{
    if k >= 8 || byte_at(s, i) < 128 {
        1
    } else {
        1 + size_from(s, i + 1, k + 1)
    }
}

/// The number that stands at `i`.
pub open spec fn number_at(s: Seq<u8>, i: int) -> u64 {
    number_from(s, i, 0) as u64
}

/// The number of bytes of the number that stands at `i`.
pub open spec fn size_at(s: Seq<u8>, i: int) -> nat {
    size_from(s, i, 0)
}

/// Below this lie the numbers that the `k`-th byte and those behind it can hold.
spec fn limit(k: nat) -> nat
    decreases 8 - k,
{
    if k >= 8 {
        256
    } else {
        128 * limit(k + 1)
    }
}

proof fn lemma_limit()
    ensures
        limit(0) == 0x1_0000_0000_0000_0000,
        limit(8) == 256,
{
    reveal_with_fuel(limit, 9);
}

proof fn lemma_number_bound(s: Seq<u8>, i: int, k: nat)
    requires
        k <= 8,
    ensures
        number_from(s, i, k) < limit(k),
        1 <= size_from(s, i, k) <= 9 - k,
    decreases 8 - k,
{
    if k < 8 {
        lemma_number_bound(s, i + 1, k + 1);
    }
}

/// Every number that is read is a `u64`, of one to nine bytes.
pub proof fn lemma_read_bound(s: Seq<u8>, i: int)
    ensures
        number_from(s, i, 0) <= u64::MAX,
        1 <= size_at(s, i) <= 9,
{
    lemma_number_bound(s, i, 0);
    lemma_limit();
}

proof fn lemma_varint_len(v: nat, k: nat)
    requires
        k <= 8,
    ensures
        1 <= varint_from(v, k).len() <= 9 - k,
    decreases 8 - k,
{
    if k < 8 && v >= 128 {
        lemma_varint_len(v / 128, k + 1);
    }
}

/// A number is written in one to nine bytes.
pub proof fn lemma_write_bound(v: u64)
    ensures
        1 <= varint(v).len() <= 9,
{
    lemma_varint_len(v as nat, 0);
}

proof fn lemma_round_trip_from(s: Seq<u8>, i: int, v: nat, k: nat)
    requires
        k <= 8,
        v < limit(k),
        0 <= i,
        i + varint_from(v, k).len() <= s.len(),
        s.subrange(i, i + varint_from(v, k).len()) == varint_from(v, k),
    ensures
        number_from(s, i, k) == v,
        size_from(s, i, k) == varint_from(v, k).len(),
    decreases 8 - k,
{
    lemma_limit();
    let w = varint_from(v, k);
    lemma_varint_len(v, k);
    assert(s[i] == s.subrange(i, i + w.len())[0]);
    assert(s[i] == w[0]);
    if k < 8 && v >= 128 {
        let rest = varint_from(v / 128, k + 1);
        assert(w.len() == rest.len() + 1);
        assert(s.subrange(i + 1, i + 1 + rest.len()) =~= rest) by {
            assert forall|j: int| 0 <= j < rest.len() implies s.subrange(
                i + 1,
                i + 1 + rest.len(),
            )[j] == rest[j] by {
                assert(s[i + 1 + j] == s.subrange(i, i + w.len())[j + 1]);
                assert(w[j + 1] == rest[j]);
            }
        }
        lemma_round_trip_from(s, i + 1, v / 128, k + 1);
    }
}

/// Reading where a number was written gives it back, and its size.
pub proof fn lemma_round_trip(s: Seq<u8>, i: int, v: u64)
    requires
        0 <= i,
        i + varint(v).len() <= s.len(),
        s.subrange(i, i + varint(v).len()) == varint(v),
    ensures
        number_at(s, i) == v,
        size_at(s, i) == varint(v).len(),
{
    lemma_limit();
    lemma_round_trip_from(s, i, v as nat, 0);
}

/// Write the bytes of `input` behind those of `out`; returns how many there are.
pub fn varint_write(input: u64, out: &mut Vec<u8>) -> (r: usize)
    ensures
        final(out)@ == old(out)@ + varint(input),
        r == varint(input).len(),
{
    let mut rest: u64 = input;
    let mut k: usize = 0;
    proof {
        lemma_limit();
    }
    while k < 8 && rest >= 128
        invariant
            k <= 8,
            rest < limit(k as nat),
            out@ + varint_from(rest as nat, k as nat) == old(out)@ + varint(input),
            varint(input).len() == k + varint_from(rest as nat, k as nat).len(),
        decreases 8 - k,
    {
        let ghost before = out@;
        let ghost tail = varint_from((rest / 128) as nat, (k + 1) as nat);
        out.push((rest % 128 + 128) as u8);
        proof {
            assert(out@ + tail =~= before + varint_from(rest as nat, k as nat));
        }
        rest = rest / 128;
        k = k + 1;
    }
    proof {
        lemma_limit();
        assert(varint_from(rest as nat, k as nat) =~= seq![rest as u8]);
    }
    let ghost before = out@;
    out.push(rest as u8);
    assert(out@ =~= before + seq![rest as u8]);
    k + 1
}

/// Read the number that stands at `at`, as if zeros followed the last byte; returns it and
/// the number of its bytes.
pub fn varint_read(data: &[u8], at: usize) -> (r: (u64, usize))
    requires
        at < data@.len(),
    ensures
        r.0 == number_at(data@, at as int),
        r.1 == size_at(data@, at as int),
{
    let mut value: u64 = 0;
    // the weight of the next byte
    let mut scale: u64 = 1;
    let mut k: usize = 0;
    let ghost number = number_from(data@, at as int, 0);
    let ghost size = size_from(data@, at as int, 0);
    proof {
        lemma_read_bound(data@, at as int);
    }
    loop
        invariant
            k <= 8,
            at < data@.len(),
            number <= u64::MAX,
            number == number_from(data@, at as int, 0),
            size == size_from(data@, at as int, 0),
            number == value + scale * number_from(data@, at + k, k as nat),
            size == k + size_from(data@, at + k, k as nat),
            scale * limit(k as nat) == limit(0),
        decreases 9 - k,
    {
        let b: u8 = if k < data.len() - at {
            data[at + k]
        } else {
            0
        };
        let ghost rest = number_from(data@, at + k, k as nat);
        assert(b == byte_at(data@, at + k));
        if k == 8 || b < 128 {
            assert(rest == b);
            return (value + scale * (b as u64), k + 1);
        }
        proof {
            lemma_limit();
            let more: int = number_from(data@, at + k + 1, (k + 1) as nat) as int;
            let s: int = scale as int;
            let d: int = b - 128;
            assert(s * (d + 128 * more) == s * d + (s * 128) * more) by (nonlinear_arith);
            assert(0 <= (s * 128) * more) by (nonlinear_arith)
                requires
                    s >= 0,
                    more >= 0,
            ;
            assert(0 <= s * d) by (nonlinear_arith)
                requires
                    s >= 0,
                    d >= 0,
            ;
            let l: int = limit((k + 1) as nat) as int;
            lemma_limit_low((k + 1) as nat);
            assert((s * 128) * l == s * (128 * l)) by (nonlinear_arith);
            assert(s * 128 <= 0x100_0000_0000_0000) by (nonlinear_arith)
                requires
                    (s * 128) * l == 0x1_0000_0000_0000_0000,
                    l >= 256,
                    s >= 0,
            ;
        }
        value = value + scale * ((b - 128) as u64);
        scale = scale * 128;
        k = k + 1;
    }
}

proof fn lemma_limit_low(k: nat)
    requires
        k <= 8,
    ensures
        limit(k) >= 256,
    decreases 8 - k,
{
    if k < 8 {
        lemma_limit_low(k + 1);
    }
}

/// `n` folded into the unsigned integers.
pub open spec fn zig_zag(n: i64) -> u64 {
    if n >= 0 {
        (2 * n) as u64
    } else {
        (-2 * n - 1) as u64
    }
}

/// The integer that is folded into `z`.
pub open spec fn un_zig_zag(z: u64) -> i64 {
    if z % 2 == 0 {
        (z / 2) as i64
    } else {
        (-((z / 2) as int) - 1) as i64
    }
}

/// Unfolding undoes folding, and folding unfolding.
pub proof fn lemma_zig_zag(n: i64, z: u64)
    ensures
        un_zig_zag(zig_zag(n)) == n,
        zig_zag(un_zig_zag(z)) == z,
{
}

/// Fold a signed integer into the unsigned ones.
pub fn zig_zag_encode(num: i64) -> (r: u64)
    ensures
        r == zig_zag(num),
{
    if num >= 0 {
        (num as u64) * 2
    } else {
        ((-(num + 1)) as u64) * 2 + 1
    }
}

/// Unfold an unsigned integer into a signed one.
pub fn zig_zag_decode(encoded: u64) -> (r: i64)
    ensures
        r == un_zig_zag(encoded),
{
    let half: i64 = (encoded / 2) as i64;
    if encoded % 2 == 0 {
        half
    } else {
        -half - 1
    }
}

} // verus!
