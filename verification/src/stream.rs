//! The V2 stream format: what the bytes of a histogram are, and what histogram the bytes of
//! a stream are.
//!
//! A stream is a header of forty bytes and a payload. The payload holds the counts from
//! index 0 up to that of the largest recorded value, each as a zig-zag folded integer in a
//! varying number of bytes, but for two or more zeros in a row, which are written as one
//! negative number: minus how many there are.
//!
//! A compressed stream is a cookie of its own, the length of what follows, and a zlib stream
//! that inflates to an uncompressed one.
use crate::errors::{DecodeError, PackedDeserializeError};
use crate::geometry::{Bounds, Geometry};
use crate::model::HistogramState;
#[allow(unused_imports)]
use crate::varint;
use crate::wire;
use crate::zlib;
use vstd::prelude::*;
use vstd::slice::{slice_subrange, slice_to_vec};

verus! {

/// The first four bytes of an uncompressed stream.
pub const V2_COOKIE: u32 = 0x1c84_9313;

/// The first four bytes of a compressed stream.
pub const V2_COMPRESSED_COOKIE: u32 = 0x1c84_9314;

/// The length of the header of an uncompressed stream.
pub const V2_HEADER_SIZE: usize = 40;

/// The length of what precedes the zlib stream in a compressed stream.
pub const V2_COMPRESSED_HEADER_SIZE: usize = 8;

/// The bits of the conversion ratio 1.0, as an IEEE 754 double.
pub const RATIO_ONE: u64 = 0x3FF0_0000_0000_0000;

/// How many counts from index `i` up to `limit` are zero before the first that is not.
pub open spec fn zero_run(counts: Seq<u64>, i: int, limit: int) -> nat
    decreases limit - i + 1,
{
    if i > limit || counts[i] != 0 {
        0
    } else {
        1 + zero_run(counts, i + 1, limit)
    }
}

/// A run of zeros ends at `limit` at the latest, and before a count that is not zero.
pub proof fn lemma_zero_run(counts: Seq<u64>, i: int, limit: int)
    requires
        i <= limit,
    ensures
        i + zero_run(counts, i, limit) <= limit + 1,
        zero_run(counts, i, limit) > 0 <==> counts[i] == 0,
        forall|j: int| i <= j < i + zero_run(counts, i, limit) ==> #[trigger] counts[j] == 0,
        i + zero_run(counts, i, limit) <= limit ==> counts[i + zero_run(counts, i, limit)] != 0,
    decreases limit - i,
{
    if counts[i] == 0 && i < limit {
        lemma_zero_run(counts, i + 1, limit);
    }
    if counts[i] == 0 && i == limit {
        assert(zero_run(counts, i + 1, limit) == 0);
    }
}

/// The bytes of the signed integer `n` in a payload.
pub open spec fn entry(n: int) -> Seq<u8> {
    varint::varint(varint::zig_zag(n as i64))
}

/// The payload from index `i` up to `limit`.
pub open spec fn payload_from(counts: Seq<u64>, i: int, limit: int) -> Seq<u8>
    decreases limit - i + 1,
{
    if i > limit {
        Seq::empty()
    } else {
        proof {
            lemma_zero_run(counts, i, limit);
        }
        let run: int = zero_run(counts, i, limit) as int;
        if run > 1 {
            entry(-run) + payload_from(counts, i + run, limit)
        } else {
            entry(counts[i] as int) + payload_from(counts, i + 1, limit)
        }
    }
}

/// A payload takes at most nine bytes for every index.
pub proof fn lemma_payload_len(counts: Seq<u64>, i: int, limit: int)
    ensures
        payload_from(counts, i, limit).len() <= if i <= limit {
            9 * (limit - i + 1)
        } else {
            0
        },
    decreases limit - i + 1,
{
    if i <= limit {
        lemma_zero_run(counts, i, limit);
        let run: int = zero_run(counts, i, limit) as int;
        if run > 1 {
            varint::lemma_write_bound(varint::zig_zag((-run) as i64));
            lemma_payload_len(counts, i + run, limit);
        } else {
            varint::lemma_write_bound(varint::zig_zag(counts[i] as i64));
            lemma_payload_len(counts, i + 1, limit);
        }
    }
}

/// The header of an uncompressed stream.
pub open spec fn header(bounds: Bounds, payload_len: nat) -> Seq<u8> {
    wire::be_bytes(V2_COOKIE as nat, 4) + wire::be_bytes(payload_len, 4) + wire::be_bytes(0, 4)
        + wire::be_bytes(bounds.sigfig as nat, 4) + wire::be_bytes(bounds.low as nat, 8)
        + wire::be_bytes(bounds.high as nat, 8) + wire::be_bytes(RATIO_ONE as nat, 8)
}

/// How long a header is, and where its parts lie.
pub proof fn lemma_header(b: Bounds, n: nat)
    ensures
        header(b, n).len() == V2_HEADER_SIZE,
        header(b, n).subrange(0, 4) == wire::be_bytes(V2_COOKIE as nat, 4),
        header(b, n).subrange(4, 8) == wire::be_bytes(n, 4),
        header(b, n).subrange(8, 12) == wire::be_bytes(0, 4),
        header(b, n).subrange(12, 16) == wire::be_bytes(b.sigfig as nat, 4),
        header(b, n).subrange(16, 24) == wire::be_bytes(b.low as nat, 8),
        header(b, n).subrange(24, 32) == wire::be_bytes(b.high as nat, 8),
        header(b, n).subrange(32, 40) == wire::be_bytes(RATIO_ONE as nat, 8),
{
    wire::lemma_be_len(V2_COOKIE as nat, 4);
    wire::lemma_be_len(n, 4);
    wire::lemma_be_len(0, 4);
    wire::lemma_be_len(b.sigfig as nat, 4);
    wire::lemma_be_len(b.low as nat, 8);
    wire::lemma_be_len(b.high as nat, 8);
    wire::lemma_be_len(RATIO_ONE as nat, 8);
    let h = header(b, n);
    assert(h.subrange(0, 4) =~= wire::be_bytes(V2_COOKIE as nat, 4));
    assert(h.subrange(4, 8) =~= wire::be_bytes(n, 4));
    assert(h.subrange(8, 12) =~= wire::be_bytes(0, 4));
    assert(h.subrange(12, 16) =~= wire::be_bytes(b.sigfig as nat, 4));
    assert(h.subrange(16, 24) =~= wire::be_bytes(b.low as nat, 8));
    assert(h.subrange(24, 32) =~= wire::be_bytes(b.high as nat, 8));
    assert(h.subrange(32, 40) =~= wire::be_bytes(RATIO_ONE as nat, 8));
}

/// Headers differ in the payload length only where it is written.
pub proof fn lemma_header_patch(b: Bounds, n: nat)
    ensures
        forall|i: int|
            0 <= i < V2_HEADER_SIZE && !(4 <= i < 8) ==> #[trigger] header(b, n)[i]
                == header(b, 0)[i],
        forall|i: int|
            4 <= i < 8 ==> #[trigger] header(b, n)[i] == wire::be_bytes(n, 4)[i - 4],
{
    wire::lemma_be_len(V2_COOKIE as nat, 4);
    wire::lemma_be_len(n, 4);
    wire::lemma_be_len(0, 4);
    wire::lemma_be_len(b.sigfig as nat, 4);
    wire::lemma_be_len(b.low as nat, 8);
    wire::lemma_be_len(b.high as nat, 8);
    wire::lemma_be_len(RATIO_ONE as nat, 8);
}

impl HistogramState {
    /// Every count can be written as a signed integer.
    pub open spec fn serializable(self) -> bool {
        forall|i: int| 0 <= i < self.counts.len() ==> #[trigger] self.counts[i] <= i64::MAX
    }

    /// The payload: the counts up to that of the largest recorded value.
    pub open spec fn payload(self) -> Seq<u8> {
        payload_from(self.counts, 0, self.bounds.index_of(self.max_value) as int)
    }

    /// The uncompressed stream.
    pub open spec fn v2_bytes(self) -> Seq<u8> {
        header(self.bounds, self.payload().len()) + self.payload()
    }
}

/// The compressed stream around the zlib stream `z`. The length is cut to what four bytes
/// hold.
pub open spec fn compressed_stream(z: Seq<u8>) -> Seq<u8> {
    wire::be_bytes(V2_COMPRESSED_COOKIE as nat, 4) + wire::be_bytes(z.len() % 0x1_0000_0000, 4)
        + z
}

/// Where the bytes of an uncompressed stream come from.
pub enum Origin {
    /// They are these.
    Plain(Seq<u8>),
    /// They are what these inflate to.
    Zlib(Seq<u8>),
}

impl Origin {
    /// The first `n` bytes, if there are as many. No more than a buffer holds are inflated.
    pub open spec fn prefix(self, n: nat) -> Option<Seq<u8>> {
        match self {
            Origin::Plain(data) => if n <= data.len() {
                Some(data.take(n as int))
            } else {
                None
            },
            Origin::Zlib(data) => if n <= isize::MAX {
                zlib::inflated(data, n as usize)
            } else {
                None
            },
        }
    }
}

/// The counts after those that the payload gives from its byte `i` on, the next of them for
/// index `dst`, are put over `counts`. `None` where it gives one for an index beyond the
/// last, or skips beyond that.
pub open spec fn decode_counts(payload: Seq<u8>, i: int, dst: nat, counts: Seq<u64>) -> Option<
    Seq<u64>,
>
    decreases (if i < payload.len() { payload.len() - i } else { 0 }),
{
    if i >= payload.len() {
        Some(counts)
    } else {
        proof {
            varint::lemma_read_bound(payload, i);
        }
        let val = varint::un_zig_zag(varint::number_at(payload, i));
        let next: int = i + varint::size_at(payload, i);
        if val < 0 {
            if dst - val > counts.len() {
                None
            } else {
                decode_counts(payload, next, (dst - val) as nat, counts)
            }
        } else if dst >= counts.len() {
            None
        } else {
            decode_counts(payload, next, dst + 1, counts.update(dst as int, val as u64))
        }
    }
}

/// `i` is the last index that holds a count.
pub open spec fn is_last(counts: Seq<u64>, i: int) -> bool {
    &&& 0 <= i < counts.len()
    &&& counts[i] != 0
    &&& forall|j: int| i < j < counts.len() ==> #[trigger] counts[j] == 0
}

/// `i` is the first index that holds a count, apart from index 0.
pub open spec fn is_first_above_zero(counts: Seq<u64>, i: int) -> bool {
    &&& 0 < i < counts.len()
    &&& counts[i] != 0
    &&& forall|j: int| 0 < j < i ==> #[trigger] counts[j] == 0
}

/// The state that is told from counts alone: the largest recorded value is taken to be the
/// highest one of the last index that holds a count, and the least to be the lowest one of the
/// first such index apart from index 0.
pub open spec fn restored(bounds: Bounds, counts: Seq<u64>) -> HistogramState {
    HistogramState {
        bounds,
        counts,
        max_value: if exists|i: int| is_last(counts, i) {
            let last = choose|i: int| is_last(counts, i);
            bounds.highest_equivalent(bounds.value_of(last as nat) as u64) as u64
        } else {
            0
        },
        min_non_zero_value: if exists|i: int| is_first_above_zero(counts, i) {
            bounds.value_of((choose|i: int| is_first_above_zero(counts, i)) as nat) as u64
        } else {
            u64::MAX
        },
    }
}

/// The number in the bytes from `i` up to `j`.
pub open spec fn field(s: Seq<u8>, i: int, j: int) -> nat {
    wire::be_value(s.subrange(i, j))
}

/// What the bytes of an uncompressed stream, whose cookie is the right one, are.
pub open spec fn decode_v2(origin: Origin) -> Result<HistogramState, DecodeError> {
    match origin.prefix(12) {
        None => Err(DecodeError::Io),
        Some(lead) => if field(lead, 8, 12) != 0 {
            Err(DecodeError::UnsupportedFeature)
        } else {
            match origin.prefix(V2_HEADER_SIZE as nat) {
                None => Err(DecodeError::Io),
                Some(head) => decode_after_header(origin, field(lead, 4, 8), head),
            }
        },
    }
}

/// The bounds in a header whose conversion ratio is 1.0 and whose bounds make a histogram.
pub open spec fn header_bounds(head: Seq<u8>) -> Result<Bounds, DecodeError> {
    let sig = field(head, 12, 16);
    let bounds = Bounds {
        low: field(head, 16, 24) as u64,
        high: field(head, 24, 32) as u64,
        sigfig: sig as u8,
    };
    if field(head, 32, 40) != RATIO_ONE {
        Err(DecodeError::UnsupportedFeature)
    } else if sig > 5 || !bounds.valid() {
        Err(DecodeError::InvalidParameters)
    } else {
        Ok(bounds)
    }
}

/// What the bytes of an uncompressed stream are of which the header `head` and the length of
/// the payload have been read.
pub open spec fn decode_after_header(origin: Origin, payload_len: nat, head: Seq<u8>) -> Result<
    HistogramState,
    DecodeError,
> {
    match header_bounds(head) {
        Err(e) => Err(e),
        Ok(bounds) => match origin.prefix(V2_HEADER_SIZE as nat + payload_len) {
            None => Err(DecodeError::Io),
            Some(all) => {
                let payload = all.subrange(V2_HEADER_SIZE as int, all.len() as int);
                match decode_counts(payload, 0, 0, HistogramState::empty(bounds).counts) {
                    None => Err(DecodeError::InvalidParameters),
                    Some(counts) => Ok(restored(bounds, counts)),
                }
            },
        },
    }
}

/// The zlib stream in a compressed stream: as many bytes as its header says, or fewer where
/// the stream ends before.
pub open spec fn zlib_part(data: Seq<u8>) -> Seq<u8> {
    let len: int = field(data, 4, 8) as int;
    if len <= data.len() - V2_COMPRESSED_HEADER_SIZE {
        data.subrange(V2_COMPRESSED_HEADER_SIZE as int, V2_COMPRESSED_HEADER_SIZE + len)
    } else {
        data.subrange(V2_COMPRESSED_HEADER_SIZE as int, data.len() as int)
    }
}

/// What the bytes of a stream are. What follows the stream is not looked at.
pub open spec fn decode(data: Seq<u8>) -> Result<HistogramState, DecodeError> {
    if data.len() < 4 {
        Err(DecodeError::Io)
    } else if field(data, 0, 4) == V2_COOKIE {
        decode_v2(Origin::Plain(data))
    } else if field(data, 0, 4) != V2_COMPRESSED_COOKIE {
        Err(DecodeError::InvalidCookie)
    } else if data.len() < V2_COMPRESSED_HEADER_SIZE {
        Err(DecodeError::Io)
    } else {
        let origin = Origin::Zlib(zlib_part(data));
        match origin.prefix(4) {
            None => Err(DecodeError::Io),
            Some(cookie) => if wire::be_value(cookie) != V2_COOKIE {
                Err(DecodeError::InvalidCookie)
            } else {
                decode_v2(origin)
            },
        }
    }
}

/// Where an uncompressed stream is read from.
pub enum Source<'a> {
    /// These bytes.
    Plain(&'a [u8]),
    /// What these bytes inflate to.
    Zlib(&'a [u8]),
}

impl<'a> View for Source<'a> {
    type V = Origin;

    open spec fn view(&self) -> Origin {
        match self {
            Source::Plain(data) => Origin::Plain(data@),
            Source::Zlib(data) => Origin::Zlib(data@),
        }
    }
}

impl<'a> Source<'a> {
    /// The first `n` bytes.
    pub fn prefix(&self, n: u64) -> (r: Result<Vec<u8>, std::io::Error>)
        ensures
            match r {
                Ok(bytes) => self@.prefix(n as nat) == Some(bytes@) && bytes@.len() == n,
                Err(_) => self@.prefix(n as nat) is None,
            },
    {
        match self {
            Source::Plain(data) => {
                if n <= data.len() as u64 {
                    let bytes = slice_to_vec(slice_subrange(data, 0, n as usize));
                    assert(bytes@ =~= data@.take(n as int));
                    Ok(bytes)
                } else {
                    Err(wire::unexpected_eof())
                }
            },
            Source::Zlib(data) => {
                if n <= isize::MAX as u64 {
                    zlib::inflate(data, n as usize)
                } else {
                    Err(wire::unexpected_eof())
                }
            },
        }
    }
}

/// Frame the zlib stream `z` as a compressed stream.
pub fn compress_frame(z: &[u8]) -> (r: Vec<u8>)
    ensures
        r@ == compressed_stream(z@),
{
    let mut out: Vec<u8> = Vec::new();
    let len: u32 = (z.len() as u64 % 0x1_0000_0000) as u32;
    out.extend_from_slice(wire::u32_bytes(V2_COMPRESSED_COOKIE).as_slice());
    out.extend_from_slice(wire::u32_bytes(len).as_slice());
    out.extend_from_slice(z);
    proof {
        wire::lemma_be_len(V2_COMPRESSED_COOKIE as nat, 4);
        wire::lemma_be_len(len as nat, 4);
    }
    assert(out@ =~= compressed_stream(z@));
    out
}

/// How many bytes of a stream have to be there before more of it can be told than its first
/// ones, `prefix`, tell: `None` where these tell all of it, or what is wrong with it.
pub open spec fn wanted(prefix: Seq<u8>) -> Option<nat> {
    if prefix.len() < 4 {
        Some(4)
    } else if field(prefix, 0, 4) == V2_COOKIE {
        if prefix.len() < 12 {
            Some(12)
        } else if field(prefix, 8, 12) != 0 {
            None
        } else if prefix.len() < V2_HEADER_SIZE {
            Some(V2_HEADER_SIZE as nat)
        } else if header_bounds(prefix) is Err {
            None
        } else {
            beyond(prefix, V2_HEADER_SIZE as nat + field(prefix, 4, 8))
        }
    } else if field(prefix, 0, 4) == V2_COMPRESSED_COOKIE {
        if prefix.len() < V2_COMPRESSED_HEADER_SIZE {
            Some(V2_COMPRESSED_HEADER_SIZE as nat)
        } else {
            beyond(prefix, V2_COMPRESSED_HEADER_SIZE as nat + field(prefix, 4, 8))
        }
    } else {
        None
    }
}

/// `n` where that is beyond the bytes `prefix`.
pub open spec fn beyond(prefix: Seq<u8>, n: nat) -> Option<nat> {
    if prefix.len() < n {
        Some(n)
    } else {
        None
    }
}

/// The number in four of the bytes of `data`.
pub(crate) fn field_u32(data: &[u8], at: usize) -> (r: u32)
    requires
        at + 4 <= data.len(),
    ensures
        r == field(data@, at as int, at + 4),
{
    let part = slice_subrange(data, at, at + 4);
    assert(part@.take(4) =~= data@.subrange(at as int, at + 4));
    wire::read_u32(part)
}

/// The number in eight of the bytes of `data`.
pub(crate) fn field_u64(data: &[u8], at: usize) -> (r: u64)
    requires
        at + 8 <= data.len(),
    ensures
        r == field(data@, at as int, at + 8),
{
    let part = slice_subrange(data, at, at + 8);
    assert(part@.take(8) =~= data@.subrange(at as int, at + 8));
    wire::read_u64(part)
}

/// The bounds that the header `head` gives.
pub(crate) fn read_bounds(head: &[u8]) -> (r: Result<Bounds, PackedDeserializeError>)
    requires
        head@.len() >= V2_HEADER_SIZE,
    ensures
        match r {
            Ok(b) => header_bounds(head@) == Ok::<_, DecodeError>(b),
            Err(e) => header_bounds(head@) == Err::<Bounds, _>(e@),
        },
{
    let sig: u32 = field_u32(head, 12);
    let low: u64 = field_u64(head, 16);
    let high: u64 = field_u64(head, 24);
    if field_u64(head, 32) != RATIO_ONE {
        return Err(PackedDeserializeError::UnsupportedFeature);
    }
    if sig > 5 {
        return Err(PackedDeserializeError::InvalidParameters);
    }
    match Geometry::new_with_bounds(low, high, sig as u8) {
        Ok(_) => Ok(Bounds { low, high, sigfig: sig as u8 }),
        Err(_) => Err(PackedDeserializeError::InvalidParameters),
    }
}

/// How many bytes of a stream have to be read, those already read, `prefix`, among them,
/// before more of it can be told: `None` where these tell all of it, or what is wrong with
/// it.
pub fn bytes_wanted(prefix: &[u8]) -> (r: Option<u64>)
    ensures
        match r {
            Some(n) => wanted(prefix@) == Some(n as nat),
            None => wanted(prefix@) is None,
        },
{
    if prefix.len() < 4 {
        return Some(4);
    }
    let cookie: u32 = field_u32(prefix, 0);
    let all: u64 = if cookie == V2_COOKIE {
        if prefix.len() < 12 {
            return Some(12);
        }
        if field_u32(prefix, 8) != 0 {
            return None;
        }
        if prefix.len() < V2_HEADER_SIZE {
            return Some(V2_HEADER_SIZE as u64);
        }
        if read_bounds(prefix).is_err() {
            return None;
        }
        V2_HEADER_SIZE as u64 + field_u32(prefix, 4) as u64
    } else if cookie == V2_COMPRESSED_COOKIE {
        if prefix.len() < V2_COMPRESSED_HEADER_SIZE {
            return Some(V2_COMPRESSED_HEADER_SIZE as u64);
        }
        V2_COMPRESSED_HEADER_SIZE as u64 + field_u32(prefix, 4) as u64
    } else {
        return None;
    };
    if (prefix.len() as u64) < all {
        Some(all)
    } else {
        None
    }
}

} // verus!
