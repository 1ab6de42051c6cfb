//! Integers in big-endian bytes, as streams hold them.
use byteorder::{BigEndian, ByteOrder};
use vstd::prelude::*;

verus! {

/// The `n` bytes of `v`, most significant first.
pub open spec fn be_bytes(v: nat, n: nat) -> Seq<u8>
    decreases n,
{
    if n == 0 {
        Seq::empty()
    } else {
        be_bytes(v / 256, (n - 1) as nat).push((v % 256) as u8)
    }
}

/// The number that the bytes `s` write down, most significant first.
pub open spec fn be_value(s: Seq<u8>) -> nat
    decreases s.len(),
{
    if s.len() == 0 {
        0
    } else {
        be_value(s.drop_last()) * 256 + s.last() as nat
    }
}

/// There are as many bytes as asked for.
pub proof fn lemma_be_len(v: nat, n: nat)
    ensures
        be_bytes(v, n).len() == n,
    decreases n,
{
    if n > 0 {
        lemma_be_len(v / 256, (n - 1) as nat);
    }
}

/// Reading the bytes of a number that fits in them gives it back.
pub proof fn lemma_be_round_trip(v: nat, n: nat)
    requires
        v < crate::slots::pow256(n),
    ensures
        be_value(be_bytes(v, n)) == v,
    decreases n,
{
    if n > 0 {
        lemma_be_round_trip(v / 256, (n - 1) as nat);
        assert(be_bytes(v, n).drop_last() =~= be_bytes(v / 256, (n - 1) as nat));
    }
}

/// The four big-endian bytes of `n`, which `ByteOrder::write_u32` writes.
#[verifier::external_body]
pub(crate) fn u32_bytes(n: u32) -> (r: [u8; 4])
    ensures
        r@ == be_bytes(n as nat, 4),
{
    let mut buf = [0u8; 4];
    BigEndian::write_u32(&mut buf, n);
    buf
}

/// The eight big-endian bytes of `n`, which `ByteOrder::write_u64` writes.
#[verifier::external_body]
pub(crate) fn u64_bytes(n: u64) -> (r: [u8; 8])
    ensures
        r@ == be_bytes(n as nat, 8),
{
    let mut buf = [0u8; 8];
    BigEndian::write_u64(&mut buf, n);
    buf
}

/// The number whose big-endian bytes are the first four of `buf`, by
/// `ByteOrder::read_u32`.
#[verifier::external_body]
pub(crate) fn read_u32(buf: &[u8]) -> (r: u32)
    requires
        buf@.len() >= 4,
    ensures
        r == be_value(buf@.take(4)),
{
    BigEndian::read_u32(buf)
}

/// The number whose big-endian bytes are the first eight of `buf`, by
/// `ByteOrder::read_u64`.
#[verifier::external_body]
pub(crate) fn read_u64(buf: &[u8]) -> (r: u64)
    requires
        buf@.len() >= 8,
    ensures
        r == be_value(buf@.take(8)),
{
    BigEndian::read_u64(buf)
}

/// The i/o error that stands for the end of a stream, by `std::io::Error::from`. Of the
/// error itself nothing is claimed.
#[verifier::external_body]
pub(crate) fn unexpected_eof() -> (r: std::io::Error) {
    std::io::Error::from(std::io::ErrorKind::UnexpectedEof)
}

} // verus!
