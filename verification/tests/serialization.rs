//! Streams.

use byteorder::{BigEndian, WriteBytesExt};
use packed_histogram::stream::{bytes_wanted, compress_frame, V2_COOKIE, V2_HEADER_SIZE};
use packed_histogram::varint::{varint_read, varint_write, zig_zag_decode, zig_zag_encode};
use packed_histogram::PackedDeserializeError::{InvalidParameters, Io, UnsupportedFeature};
use packed_histogram::{Geometry, PackedDeserializeError, PackedHistogram, PackedSerializeError};
use std::io::Write;

#[test]
fn count_above_i64_not_serializable() {
    let mut p = PackedHistogram::new_with_bounds(1, 3_600_000_000, 3).unwrap();
    p.record_n(6147, u64::MAX).unwrap(); // width widens to 8; count > i64::MAX
    let mut out = Vec::new();
    assert!(p.serialize_v2(&mut out).is_err());
    assert!(out.is_empty());
    assert!(matches!(
        p.serialize_v2_deflate(&mut out),
        Err(PackedSerializeError::CountNotSerializable)
    ));
    assert!(out.is_empty());
}

struct FailWriter;

impl Write for FailWriter {
    fn write(&mut self, _: &[u8]) -> std::io::Result<usize> {
        Err(std::io::Error::new(std::io::ErrorKind::Other, "fail"))
    }
    fn flush(&mut self) -> std::io::Result<()> {
        Err(std::io::Error::new(std::io::ErrorKind::Other, "fail"))
    }
}

#[test]
fn serialize_and_deserialize_io_errors() {
    let mut p = PackedHistogram::new_with_bounds(1, 1000, 3).unwrap();
    p.record(500).unwrap();
    let mut out = Vec::new();
    let _ = p.serialize_v2(&mut out).unwrap();
    let failed = FailWriter.write_all(&out).map_err(PackedSerializeError::from);
    assert!(failed.is_err());
    // the writer's own error is what is handed on
    assert!(matches!(
        failed,
        Err(PackedSerializeError::Io(e)) if e.kind() == std::io::ErrorKind::Other
    ));
    let mut out = Vec::new();
    let _ = p.serialize_v2_deflate(&mut out).unwrap();
    let failed = FailWriter.write_all(&out).map_err(PackedSerializeError::from);
    assert!(failed.is_err());
    assert!(matches!(
        failed,
        Err(PackedSerializeError::Io(e)) if e.to_string() == "fail"
    ));
    // nothing to read -> Io error path
    assert!(PackedHistogram::deserialize(&[]).is_err());
    assert!(matches!(
        PackedHistogram::deserialize(&[]),
        Err(PackedDeserializeError::Io(_))
    ));
}

#[test]
fn deserialize_bad_cookie() {
    let bytes = [0u8, 0, 0, 0, 1, 2, 3, 4];
    assert!(PackedHistogram::deserialize(&bytes).is_err());
    assert!(matches!(
        PackedHistogram::deserialize(&bytes),
        Err(PackedDeserializeError::InvalidCookie)
    ));
}

fn stream_of(offset: u32, sig: u32, low: u64, high: u64, ratio: f64, payload: &[u8]) -> Vec<u8> {
    let mut stream = Vec::new();
    stream.write_u32::<BigEndian>(V2_COOKIE).unwrap();
    stream.write_u32::<BigEndian>(payload.len() as u32).unwrap();
    stream.write_u32::<BigEndian>(offset).unwrap();
    stream.write_u32::<BigEndian>(sig).unwrap();
    stream.write_u64::<BigEndian>(low).unwrap();
    stream.write_u64::<BigEndian>(high).unwrap();
    stream.write_f64::<BigEndian>(ratio).unwrap();
    assert_eq!(stream.len(), V2_HEADER_SIZE);
    stream.extend_from_slice(payload);
    stream
}

#[test]
fn deserialize_corrupt_index_overflow() {
    // Valid header, but the payload skips past counts_len then writes a count,
    // hitting the dst-overflow guard.
    let counts_len = {
        let g = Geometry::new_with_bounds(1, 3_600_000_000, 3).unwrap();
        g.distinct_values()
    };
    let mut payload = Vec::new();
    // negative zero-run == counts_len (skip to counts_len), then a positive count
    varint_write(zig_zag_encode(-(counts_len as i64)), &mut payload);
    varint_write(zig_zag_encode(1), &mut payload);

    let mut stream = Vec::new();
    stream.write_u32::<BigEndian>(V2_COOKIE).unwrap();
    stream.write_u32::<BigEndian>(payload.len() as u32).unwrap();
    stream.write_u32::<BigEndian>(0).unwrap();
    stream.write_u32::<BigEndian>(3).unwrap();
    stream.write_u64::<BigEndian>(1).unwrap();
    stream.write_u64::<BigEndian>(3_600_000_000).unwrap();
    stream.write_f64::<BigEndian>(1.0).unwrap();
    assert_eq!(stream.len(), V2_HEADER_SIZE);
    stream.extend_from_slice(&payload);

    assert!(PackedHistogram::deserialize(&stream).is_err());
    assert!(matches!(
        PackedHistogram::deserialize(&stream),
        Err(PackedDeserializeError::InvalidParameters)
    ));
}

fn entries(numbers: &[i64]) -> Vec<u8> {
    let mut payload = Vec::new();
    for &n in numbers {
        varint_write(zig_zag_encode(n), &mut payload);
    }
    payload
}

#[test]
fn payload_limits() {
    let n = Geometry::new_with_bounds(1, 1000, 3).unwrap().distinct_values() as i64;
    let read = |numbers: &[i64]| {
        PackedHistogram::deserialize(&stream_of(0, 3, 1, 1000, 1.0, &entries(numbers)))
    };
    assert_eq!(n, 2048);
    assert!(read(&[-n]).unwrap().is_empty());
    assert!(read(&[-n - 1]).is_err());
    assert!(read(&[i64::MIN]).is_err());
    assert!(read(&[-(n - 1), 5, 0]).is_err());
    let h = read(&[-(n - 1), 5]).unwrap();
    assert_eq!((h.len(), h.min(), h.max()), (5, 2047, 2047));
    let h = read(&[4, 0, 3, -2, i64::MAX]).unwrap();
    assert_eq!((h.count_at(0), h.count_at(2), h.count_at(5)), (4, 3, i64::MAX as u64));
    assert_eq!((h.min(), h.max(), h.populated(), h.count_width()), (0, 5, 3, 8));
    // the total is held
    assert_eq!(read(&[i64::MAX, i64::MAX, i64::MAX]).unwrap().len(), u64::MAX);
}

#[test]
fn payload_cut_within_a_number() {
    // the missing bytes of the last number are zeros
    let mut payload = entries(&[-500]);
    payload.push(0x84);
    let h = PackedHistogram::deserialize(&stream_of(0, 3, 1, 1000, 1.0, &payload)).unwrap();
    assert_eq!((h.len(), h.count_at(500)), (2, 2));
}

#[test]
fn header_errors() {
    let ok = stream_of(0, 3, 1, 1000, 1.0, &[0]);
    assert!(PackedHistogram::deserialize(&ok).is_ok());
    let err = |s: Vec<u8>| PackedHistogram::deserialize(&s).unwrap_err();
    assert!(matches!(err(stream_of(1, 9, 0, 0, 2.0, &[])), UnsupportedFeature));
    assert!(matches!(err(stream_of(0, 9, 0, 0, 2.0, &[])), UnsupportedFeature));
    assert!(matches!(err(stream_of(0, 3, 1, 1000, f64::NAN, &[])), UnsupportedFeature));
    assert!(matches!(err(stream_of(0, 6, 1, 1000, 1.0, &[])), InvalidParameters));
    assert!(matches!(err(stream_of(0, 256 + 3, 1, 1000, 1.0, &[])), InvalidParameters));
    assert!(matches!(err(stream_of(0, 3, 0, 1000, 1.0, &[])), InvalidParameters));
    assert!(matches!(err(stream_of(0, 3, 1, 1, 1.0, &[])), InvalidParameters));
    // every cut of a valid stream is an i/o error
    for n in 0..ok.len() {
        assert!(matches!(err(ok[..n].to_vec()), Io(_)));
    }
    // a wrong offset is told before the rest of the header is there
    assert!(matches!(err(stream_of(7, 3, 1, 1000, 1.0, &[])[..12].to_vec()), UnsupportedFeature));
}

#[test]
fn exact_bytes() {
    let mut p = PackedHistogram::new_with_bounds(1, 1000, 3).unwrap();
    let mut out = vec![0xEE];
    assert_eq!(p.serialize_v2(&mut out).unwrap(), 41);
    let header = [
        0x1c, 0x84, 0x93, 0x13, 0, 0, 0, 1, 0, 0, 0, 0, 0, 0, 0, 3, 0, 0, 0, 0, 0, 0, 0, 1, 0, 0, 0,
        0, 0, 0, 3, 0xE8, 0x3F, 0xF0, 0, 0, 0, 0, 0, 0,
    ];
    assert_eq!(out[0], 0xEE);
    assert_eq!(out[1..41], header);
    assert_eq!(out[41..], [0]);

    p.record(500).unwrap();
    let mut out = Vec::new();
    assert_eq!(p.serialize_v2(&mut out).unwrap(), 43);
    assert_eq!(out[4..8], [0, 0, 0, 3]);
    assert_eq!(out[8..40], header[8..]);
    // minus 500 zeros, then a one
    assert_eq!(out[40..], [0xE7, 0x07, 0x02]);

    p.record_n(502, 64).unwrap();
    let mut out = Vec::new();
    let _ = p.serialize_v2(&mut out).unwrap();
    // a single zero stands for itself
    assert_eq!(out[40..], [0xE7, 0x07, 0x02, 0x00, 0x80, 0x01]);
}

#[test]
fn varint_bytes() {
    for &(v, ref bytes) in &[
        (0u64, vec![0u8]),
        (127, vec![0x7F]),
        (128, vec![0x80, 0x01]),
        (300, vec![0xAC, 0x02]),
        ((1 << 56) - 1, vec![0xFF, 0xFF, 0xFF, 0xFF, 0xFF, 0xFF, 0xFF, 0x7F]),
        (1 << 56, vec![0x80, 0x80, 0x80, 0x80, 0x80, 0x80, 0x80, 0x80, 0x01]),
        (u64::MAX, vec![0xFF; 9]),
    ] {
        let mut out = vec![7u8];
        assert_eq!(varint_write(v, &mut out), bytes.len());
        assert_eq!(&out[1..], &bytes[..]);
        assert_eq!(varint_read(&out, 1), (v, bytes.len()));
    }
    // as if zeros followed
    assert_eq!(varint_read(&[0x81], 0), (1, 2));
    assert_eq!(varint_read(&[5, 0xFF, 0xFF], 1), (0x3FFF, 3));
}

#[test]
fn zig_zag_folding() {
    for &(n, z) in &[
        (0i64, 0u64),
        (-1, 1),
        (1, 2),
        (-2, 3),
        (i64::MAX, u64::MAX - 1),
        (i64::MIN, u64::MAX),
    ] {
        assert_eq!(zig_zag_encode(n), z);
        assert_eq!(zig_zag_decode(z), n);
    }
}

fn sample() -> PackedHistogram {
    let mut p = PackedHistogram::new_with_bounds(1, 3_600_000_000, 3).unwrap();
    for k in 1..400u64 {
        p.record_n(k * k * 20_000 + k, k % 7 + 1).unwrap();
    }
    p
}

fn same(a: &PackedHistogram, b: &PackedHistogram) {
    assert_eq!(a.len(), b.len());
    assert_eq!(a.min(), b.min());
    assert_eq!(a.max(), b.max());
    assert_eq!(a.populated(), b.populated());
    assert_eq!(a.count_width(), b.count_width());
    for count in 0..=a.len() {
        assert_eq!(a.value_at_count(count, false), b.value_at_count(count, false));
    }
}

#[test]
fn round_trip_with_trailing_bytes() {
    let p = sample();
    let mut out = Vec::new();
    let n = p.serialize_v2(&mut out).unwrap();
    assert_eq!(bytes_wanted(&out[..40]), Some(n as u64));
    assert_eq!(bytes_wanted(&out[..n - 1]), Some(n as u64));
    assert_eq!(bytes_wanted(&out), None);
    out.extend_from_slice(b"what follows");
    assert_eq!(bytes_wanted(&out), None);
    same(&p, &PackedHistogram::deserialize(&out).unwrap());
}

#[test]
fn compressed_round_trip() {
    let p = sample();
    let mut plain = Vec::new();
    let m = p.serialize_v2(&mut plain).unwrap();
    let mut out = Vec::new();
    let n = p.serialize_v2_deflate(&mut out).unwrap();
    assert_eq!(n, out.len());
    assert!(n < m);
    assert_eq!(out[..4], [0x1c, 0x84, 0x93, 0x14]);
    assert_eq!(out[4..8], ((n - 8) as u32).to_be_bytes());
    assert_eq!(bytes_wanted(&out[..8]), Some(n as u64));
    assert_eq!(bytes_wanted(&out), None);
    same(&p, &PackedHistogram::deserialize(&out).unwrap());
    out.extend_from_slice(&[0xFF; 20]);
    same(&p, &PackedHistogram::deserialize(&out).unwrap());
}

#[test]
fn compressed_length() {
    // counts that are hard to compress
    let mut p = PackedHistogram::new_with_bounds(1, 3_600_000_000, 3).unwrap();
    let mut x = 0x9E37_79B9_7F4A_7C15u64;
    for v in 0..2048u64 {
        x ^= x << 13;
        x ^= x >> 7;
        x ^= x << 17;
        p.record_n(v, x >> 1).unwrap();
    }
    let mut plain = Vec::new();
    let m = p.serialize_v2(&mut plain).unwrap();
    let mut out = Vec::new();
    let n = p.serialize_v2_deflate(&mut out).unwrap();
    assert!(n - 8 <= 3 * m + 0x2_0000);
    let a = PackedHistogram::deserialize(&plain).unwrap();
    let b = PackedHistogram::deserialize(&out).unwrap();
    assert_eq!((a.len(), a.min(), a.max()), (p.len(), p.min(), p.max()));
    assert_eq!((b.len(), b.min(), b.max()), (p.len(), p.min(), p.max()));
    for v in 0..2048u64 {
        assert_eq!(a.count_at(v), p.count_at(v));
        assert_eq!(b.count_at(v), p.count_at(v));
    }
}

#[test]
fn compressed_errors() {
    let p = sample();
    let mut out = Vec::new();
    let _ = p.serialize_v2_deflate(&mut out).unwrap();
    for n in 0..out.len() / 2 {
        assert!(matches!(
            PackedHistogram::deserialize(&out[..n]),
            Err(PackedDeserializeError::Io(_))
        ));
    }
    // not a zlib stream
    let mut bad = out.clone();
    bad[8] = 0xFF;
    assert!(matches!(
        PackedHistogram::deserialize(&bad),
        Err(PackedDeserializeError::Io(_))
    ));
    // a compressed stream in a compressed stream
    let mut enc = flate2::write::ZlibEncoder::new(Vec::new(), flate2::Compression::default());
    enc.write_all(&out).unwrap();
    let z = enc.finish().unwrap();
    let mut nested = vec![0x1c, 0x84, 0x93, 0x14];
    nested.extend_from_slice(&(z.len() as u32).to_be_bytes());
    nested.extend_from_slice(&z);
    assert!(matches!(
        PackedHistogram::deserialize(&nested),
        Err(PackedDeserializeError::InvalidCookie)
    ));
}

#[test]
fn frame_of_a_compressed_stream() {
    assert_eq!(
        compress_frame(&[7, 8, 9]),
        [0x1c, 0x84, 0x93, 0x14, 0, 0, 0, 3, 7, 8, 9]
    );
    assert_eq!(compress_frame(&[]), [0x1c, 0x84, 0x93, 0x14, 0, 0, 0, 0]);
}

fn read_back(p: &PackedHistogram) -> PackedHistogram {
    let mut out = Vec::new();
    let _ = p.serialize_v2(&mut out).unwrap();
    PackedHistogram::deserialize(&out).unwrap()
}

#[test]
fn round_trip_of_the_extremes() {
    // Values below the unit share a count with zero.
    let mut p = PackedHistogram::new_with_bounds(8, 1000, 2).unwrap();
    p.record(5).unwrap();
    let q = read_back(&p);
    assert_eq!((p.min(), p.max()), (0, 7));
    assert_eq!((q.min(), q.max()), (0, 7));
    let mut p = PackedHistogram::new_with_bounds(1024, 1_048_576, 3).unwrap();
    p.record(5).unwrap();
    let q = read_back(&p);
    assert_eq!((p.min(), p.max(), p.len()), (0, 1023, 1));
    assert_eq!((q.min(), q.max(), q.len()), (0, 1023, 1));
    // Where they were not recorded, that is not known afterwards.
    let mut p = PackedHistogram::new_with_bounds(8, 1000, 2).unwrap();
    p.record(0).unwrap();
    assert_eq!((p.max(), read_back(&p).max()), (0, 7));
    // Where single units are told apart, it is.
    let mut p = PackedHistogram::new_with_bounds(1, 1000, 2).unwrap();
    p.record(0).unwrap();
    assert_eq!((p.max(), read_back(&p).max()), (0, 0));
    // The largest value of all is not told from its equivalents afterwards.
    let mut p = PackedHistogram::new_with_bounds(1, u64::MAX, 3).unwrap();
    p.record(u64::MAX).unwrap();
    let q = read_back(&p);
    assert_eq!(p.min(), q.min());
    assert_eq!((p.max(), q.max()), (u64::MAX, u64::MAX - 1));
    // Anything else is.
    let mut p = PackedHistogram::new_with_bounds(8, 1 << 40, 2).unwrap();
    p.record(777).unwrap();
    p.record(123_456_789).unwrap();
    let q = read_back(&p);
    assert_eq!((p.min(), p.max()), (q.min(), q.max()));
}

#[test]
fn payload_of_zeros_and_counts() {
    let mut p = PackedHistogram::new_with_bounds(1, 1000, 3).unwrap();
    p.record_n(2, 2).unwrap();
    p.record(0).unwrap();
    p.record_n(8, 3).unwrap();
    let mut out = vec![0xAA];
    assert_eq!(p.serialize_v2(&mut out).unwrap(), 45);
    assert_eq!(out[0], 0xAA);
    // one, a single zero, two, five zeros, three
    assert_eq!(out[41..], [0x02, 0x00, 0x04, 0x09, 0x06]);
}

#[test]
fn wanted_bytes() {
    assert_eq!(bytes_wanted(&[]), Some(4));
    assert_eq!(bytes_wanted(&[0x1c, 0x84, 0x93]), Some(4));
    // nothing more is read of what is no stream
    assert_eq!(bytes_wanted(&[0x1c, 0x84, 0x93, 0x15]), None);
    assert_eq!(bytes_wanted(&[0x1c, 0x84, 0x93, 0x13]), Some(12));
    assert_eq!(bytes_wanted(&[0x1c, 0x84, 0x93, 0x14]), Some(8));
    assert_eq!(bytes_wanted(&[0x1c, 0x84, 0x93, 0x14, 0, 0, 1, 2]), Some(8 + 258));
    let ok = stream_of(0, 3, 1, 1000, 1.0, &[0; 258]);
    assert_eq!(bytes_wanted(&ok[..11]), Some(12));
    assert_eq!(bytes_wanted(&ok[..12]), Some(40));
    assert_eq!(bytes_wanted(&ok[..40]), Some(40 + 258));
    assert_eq!(bytes_wanted(&ok), None);
    // nor of a stream with a header that is refused
    assert_eq!(bytes_wanted(&stream_of(7, 3, 1, 1000, 1.0, &[0; 258])[..12]), None);
    assert_eq!(bytes_wanted(&stream_of(0, 3, 1, 1000, 2.0, &[0; 258])[..40]), None);
    assert_eq!(bytes_wanted(&stream_of(0, 6, 1, 1000, 1.0, &[0; 258])[..40]), None);
    assert_eq!(bytes_wanted(&stream_of(0, 3, 0, 1000, 1.0, &[0; 258])[..40]), None);
}

#[test]
fn what_is_decoded_is_stable() {
    let payload = entries(&[0, 0, 5, -3, 0, 9, 0, 0]);
    let h = PackedHistogram::deserialize(&stream_of(0, 2, 8, 5000, 1.0, &payload)).unwrap();
    let mut once = Vec::new();
    let _ = h.serialize_v2(&mut once).unwrap();
    let again = PackedHistogram::deserialize(&once).unwrap();
    let mut twice = Vec::new();
    let _ = again.serialize_v2(&mut twice).unwrap();
    assert_eq!(once, twice);
    same(&h, &again);
    assert_eq!((h.min(), h.max()), (16, 63));
}
