//! The compression of streams.
use flate2::read::ZlibDecoder;
use flate2::write::ZlibEncoder;
use flate2::Compression;
use std::io::{Read, Write};
use vstd::prelude::*;

verus! {

/// What compressing `data` at the default level gives; `None` where the encoder fails.
pub uninterp spec fn deflated(data: Seq<u8>) -> Option<Seq<u8>>;

/// The first `n` bytes that `compressed` inflates to; `None` where the decoder fails or ends
/// before it has given as many.
pub uninterp spec fn inflated(compressed: Seq<u8>, n: usize) -> Option<Seq<u8>>;

/// `z` inflates to `data`, and to no more.
pub open spec fn inflates_to(z: Seq<u8>, data: Seq<u8>) -> bool {
    forall|n: usize|
        n <= isize::MAX ==> #[trigger] inflated(z, n) == if n <= data.len() {
            Some(data.take(n as int))
        } else {
            None
        }
}

/// `z` is a compressed form of `data`: it inflates to `data`, and is not much longer than
/// that where `data` is hard to compress.
pub open spec fn compresses(z: Seq<u8>, data: Seq<u8>) -> bool {
    &&& inflates_to(z, data)
    &&& z.len() <= 3 * data.len() + 0x2_0000
}

/// Compress `data` with `flate2::write::ZlibEncoder` at the default level: all of it is
/// written to the encoder, which is then finished. What comes out depends on `data` alone,
/// inflates to `data`, and is bounded in length. The bound is a loose one. The encoder works
/// in blocks: each of them is put together in a buffer of less than 84 KiB, and each but the
/// last stands for more than 31 KiB of `data`.
///
/// That the encoder does not fail is not claimed: it reports an error where a block
/// outgrows its buffer, and leaves open whether one ever does.
#[verifier::external_body]
pub(crate) fn deflate(data: &[u8]) -> (r: Result<Vec<u8>, std::io::Error>)
    ensures
        match r {
            Ok(z) => deflated(data@) == Some(z@) && compresses(z@, data@),
            Err(_) => deflated(data@) is None,
        },
{
    let mut enc = ZlibEncoder::new(Vec::new(), Compression::default());
    match enc.write_all(data) {
        Ok(()) => enc.finish(),
        Err(e) => Err(e),
    }
}

/// Read exactly `n` bytes from a `flate2::read::ZlibDecoder` over `compressed`. Whether it
/// gives as many, and which, depends on the arguments alone.
#[verifier::external_body]
pub(crate) fn inflate(compressed: &[u8], n: usize) -> (r: Result<Vec<u8>, std::io::Error>)
    requires
        n <= isize::MAX,
    ensures
        match r {
            Ok(bytes) => inflated(compressed@, n) == Some(bytes@) && bytes@.len() == n,
            Err(_) => inflated(compressed@, n) is None,
        },
{
    let mut buf = vec![0u8; n];
    match ZlibDecoder::new(compressed).read_exact(&mut buf) {
        Ok(()) => Ok(buf),
        Err(e) => Err(e),
    }
}

} // verus!
