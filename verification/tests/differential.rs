//! The sparse histogram against a dense one that keeps a count for every index.

use byteorder::{BigEndian, ReadBytesExt, WriteBytesExt};
use flate2::write::ZlibEncoder;
use flate2::Compression;
use packed_histogram::varint::{varint_read, varint_write, zig_zag_decode, zig_zag_encode};
use packed_histogram::PackedHistogram;
use rand::rngs::SmallRng;
use rand::{Rng, SeedableRng};
use std::io::{Cursor, Read, Write};

struct Xs(u64);

impl Xs {
    fn next(&mut self) -> u64 {
        let mut x = self.0;
        x ^= x << 13;
        x ^= x >> 7;
        x ^= x << 17;
        self.0 = x;
        x
    }
}

/// A dense histogram: a count for every flat index.
struct Dense {
    low: u64,
    high: u64,
    sigfig: u8,
    unit_magnitude: u32,
    half_count_magnitude: u32,
    sub_bucket_mask: u64,
    leading_zero_count_base: u32,
    counts: Vec<u64>,
    total: u64,
    max_value: u64,
    min_non_zero_value: u64,
}

impl Dense {
    fn new(low: u64, high: u64, sigfig: u8) -> Dense {
        let largest = 2 * 10u32.pow(u32::from(sigfig));
        let unit_magnitude = (low as f64).log2().floor() as u32;
        let magnitude = f64::from(largest).log2().ceil() as u32;
        let mut reach = (1u64 << magnitude) << unit_magnitude;
        let mut buckets = 1usize;
        while reach <= high {
            buckets += 1;
            if reach > u64::MAX / 2 {
                break;
            }
            reach <<= 1;
        }
        Dense {
            low,
            high,
            sigfig,
            unit_magnitude,
            half_count_magnitude: magnitude - 1,
            sub_bucket_mask: ((1u64 << magnitude) - 1) << unit_magnitude,
            leading_zero_count_base: 64 - unit_magnitude - magnitude,
            counts: vec![0; (buckets + 1) << (magnitude - 1)],
            total: 0,
            max_value: 0,
            min_non_zero_value: u64::MAX,
        }
    }

    fn bucket_for(&self, value: u64) -> u32 {
        self.leading_zero_count_base - (value | self.sub_bucket_mask).leading_zeros()
    }

    fn index_for(&self, value: u64) -> usize {
        let bucket = self.bucket_for(value);
        let sub_bucket = (value >> (bucket + self.unit_magnitude)) as i64;
        let base = (i64::from(bucket) + 1) << self.half_count_magnitude;
        (base + sub_bucket - (1i64 << self.half_count_magnitude)) as usize
    }

    fn value_for(&self, index: usize) -> u64 {
        let half = 1u64 << self.half_count_magnitude;
        let mut bucket = (index >> self.half_count_magnitude) as i64 - 1;
        let mut sub_bucket = (index as u64 & (half - 1)) + half;
        if bucket < 0 {
            sub_bucket -= half;
            bucket = 0;
        }
        sub_bucket << (bucket as u32 + self.unit_magnitude)
    }

    fn lowest_equivalent(&self, value: u64) -> u64 {
        let shift = self.bucket_for(value) + self.unit_magnitude;
        (value >> shift) << shift
    }

    fn highest_equivalent(&self, value: u64) -> u64 {
        if value == u64::MAX {
            return value;
        }
        let range = 1u64 << (self.bucket_for(value) + self.unit_magnitude);
        self.lowest_equivalent(value).saturating_add(range) - 1
    }

    fn record_n(&mut self, value: u64, count: u64) {
        let i = self.index_for(value);
        self.counts[i] = self.counts[i].saturating_add(count);
        self.total = self.total.saturating_add(count);
        self.max_value = self.max_value.max(value);
        if value != 0 {
            self.min_non_zero_value = self.min_non_zero_value.min(value);
        }
    }

    fn len(&self) -> u64 {
        self.total
    }

    fn min(&self) -> u64 {
        if self.total == 0 || self.counts[0] != 0 {
            0
        } else {
            self.lowest_equivalent(self.min_non_zero_value)
        }
    }

    fn max(&self) -> u64 {
        if self.max_value == 0 {
            0
        } else {
            self.highest_equivalent(self.max_value)
        }
    }

    fn count_at(&self, value: u64) -> u64 {
        self.counts[self.index_for(value)]
    }

    fn distinct_values(&self) -> usize {
        self.counts.len()
    }

    fn value_at_percentile(&self, percentile: f64) -> u64 {
        let quantile = (percentile / 100.0).min(1.0);
        let mut target = (quantile * self.total as f64).ceil() as u64;
        if target == 0 {
            target = 1;
        }
        let mut running = 0u64;
        for (i, &count) in self.counts.iter().enumerate() {
            running = running.saturating_add(count);
            if running >= target {
                let v = self.value_for(i);
                return if quantile == 0.0 {
                    self.lowest_equivalent(v)
                } else {
                    self.highest_equivalent(v)
                };
            }
        }
        0
    }

    fn serialize_v2(&self) -> Vec<u8> {
        let mut payload = Vec::new();
        let limit = self.index_for(self.max());
        let mut i = 0;
        while i <= limit {
            let count = self.counts[i];
            i += 1;
            let mut zeros = 0i64;
            if count == 0 {
                zeros = 1;
                while i <= limit && self.counts[i] == 0 {
                    zeros += 1;
                    i += 1;
                }
            }
            let n = if zeros > 1 { -zeros } else { count as i64 };
            varint_write(zig_zag_encode(n), &mut payload);
        }
        let mut out = Vec::new();
        out.write_u32::<BigEndian>(0x1c84_9313).unwrap();
        out.write_u32::<BigEndian>(payload.len() as u32).unwrap();
        out.write_u32::<BigEndian>(0).unwrap();
        out.write_u32::<BigEndian>(u32::from(self.sigfig)).unwrap();
        out.write_u64::<BigEndian>(self.low).unwrap();
        out.write_u64::<BigEndian>(self.high).unwrap();
        out.write_f64::<BigEndian>(1.0).unwrap();
        out.extend_from_slice(&payload);
        out
    }

    fn serialize_v2_deflate(&self) -> Vec<u8> {
        let mut enc = ZlibEncoder::new(Vec::new(), Compression::default());
        enc.write_all(&self.serialize_v2()).unwrap();
        let z = enc.finish().unwrap();
        let mut out = Vec::new();
        out.write_u32::<BigEndian>(0x1c84_9314).unwrap();
        out.write_u32::<BigEndian>(z.len() as u32).unwrap();
        out.extend_from_slice(&z);
        out
    }

    fn deserialize(data: &[u8]) -> Dense {
        let mut reader = Cursor::new(data);
        assert_eq!(reader.read_u32::<BigEndian>().unwrap(), 0x1c84_9313);
        let len = reader.read_u32::<BigEndian>().unwrap() as usize;
        assert_eq!(reader.read_u32::<BigEndian>().unwrap(), 0);
        let sigfig = reader.read_u32::<BigEndian>().unwrap() as u8;
        let low = reader.read_u64::<BigEndian>().unwrap();
        let high = reader.read_u64::<BigEndian>().unwrap();
        assert_eq!(reader.read_f64::<BigEndian>().unwrap(), 1.0);
        let mut payload = vec![0u8; len];
        reader.read_exact(&mut payload).unwrap();
        let mut h = Dense::new(low, high, sigfig);
        let mut i = 0;
        let mut dst = 0;
        while i < len {
            let (zz, size) = varint_read(&payload, i);
            i += size;
            let n = zig_zag_decode(zz);
            if n < 0 {
                dst += (-n) as usize;
            } else {
                if n > 0 {
                    let v = h.value_for(dst);
                    h.record_n(v, n as u64);
                }
                dst += 1;
            }
        }
        h
    }
}

fn value_at_percentile(p: &PackedHistogram, percentile: f64) -> u64 {
    let quantile = (percentile / 100.0).min(1.0);
    let count = (quantile * p.len() as f64).ceil() as u64;
    p.value_at_count(count, quantile == 0.0)
}

#[test]
fn parity_random() {
    let pcts = [0.0, 1.0, 25.0, 50.0, 75.0, 90.0, 99.0, 99.9, 100.0];
    for trial in 0..300u64 {
        let mut rng = Xs(0x9E37_79B9_7F4A_7C15u64.wrapping_mul(trial + 1) | 1);
        let mut d = Dense::new(1, 3_600_000_000, 3);
        let mut p = PackedHistogram::new_with_bounds(1, 3_600_000_000, 3).unwrap();
        let n = 1 + (rng.next() % 4000);
        for _ in 0..n {
            let v = rng.next() % 3_600_000_000 + 1;
            let c = 1 + (rng.next() % 9);
            d.record_n(v, c);
            p.record_n(v, c).unwrap();
        }
        assert_eq!(d.len(), p.len(), "trial {trial}: total");
        assert_eq!(d.min(), p.min(), "trial {trial}: min");
        assert_eq!(d.max(), p.max(), "trial {trial}: max");
        // count parity, index by index
        for i in 0..d.distinct_values() {
            let v = d.value_for(i);
            assert_eq!(
                d.count_at(v),
                p.count_at(v),
                "trial {trial}: count at flat {i}"
            );
        }
        for &pc in &pcts {
            assert_eq!(
                d.value_at_percentile(pc),
                value_at_percentile(&p, pc),
                "trial {trial}: p{pc}"
            );
        }
    }
}

#[test]
fn v2_byte_identical_and_roundtrip() {
    for trial in 0..80u64 {
        let mut rng = Xs(0x2545_F491_4F6C_DD1Du64.wrapping_mul(trial + 1) | 1);
        let mut d = Dense::new(1, 3_600_000_000, 3);
        let mut p = PackedHistogram::new_with_bounds(1, 3_600_000_000, 3).unwrap();
        let n = rng.next() % 3000; // zero among them
        for _ in 0..n {
            let v = rng.next() % 3_600_000_000 + 1;
            let c = 1 + (rng.next() % 9);
            d.record_n(v, c);
            p.record_n(v, c).unwrap();
        }

        // 1. uncompressed V2 byte-identical
        let dv2 = d.serialize_v2();
        let mut pv2 = Vec::new();
        let _ = p.serialize_v2(&mut pv2).unwrap();
        assert_eq!(dv2, pv2, "trial {trial}: V2 bytes differ");

        // 2. deflate V2 byte-identical
        let dz = d.serialize_v2_deflate();
        let mut pz = Vec::new();
        let _ = p.serialize_v2_deflate(&mut pz).unwrap();
        assert_eq!(dz, pz, "trial {trial}: deflate bytes differ");

        // 3. packed encode -> dense decode == original dense
        let dfp = Dense::deserialize(&pv2);
        assert_eq!(dfp.len(), d.len());
        for i in 0..d.distinct_values() {
            let v = d.value_for(i);
            assert_eq!(
                dfp.count_at(v),
                d.count_at(v),
                "trial {trial}: decoded count flat {i}"
            );
        }

        // 4. dense encode -> packed decode == dense (queries)
        let prt = PackedHistogram::deserialize(&dv2).unwrap();
        assert_eq!(prt.len(), d.len());
        assert_eq!(prt.min(), d.min());
        assert_eq!(prt.max(), d.max());
        for &pc in &[0.0, 50.0, 90.0, 99.0, 99.9, 100.0] {
            assert_eq!(
                value_at_percentile(&prt, pc),
                d.value_at_percentile(pc),
                "trial {trial}: rt p{pc}"
            );
        }

        // 5. deflate round-trip through packed
        let prt2 = PackedHistogram::deserialize(&pz).unwrap();
        assert_eq!(prt2.len(), d.len());
    }
}

// Many random workloads must keep packed bit-for-bit equal to dense on every query and on
// the V2 encoding.
#[test]
fn fuzz_differential() {
    let mut rng = SmallRng::seed_from_u64(0xC0FF_EE00_1234_5678);
    for _ in 0..4000 {
        let mut d = Dense::new(1, 3_600_000_000, 3);
        let mut p = PackedHistogram::new_with_bounds(1, 3_600_000_000, 3).unwrap();
        let n = rng.gen_range(0..500);
        for _ in 0..n {
            let v = rng.gen_range(1..3_600_000_000u64);
            let c = rng.gen_range(1..100_000u64);
            d.record_n(v, c);
            p.record_n(v, c).unwrap();
        }
        assert_eq!(d.len(), p.len());
        assert_eq!(d.min(), p.min());
        assert_eq!(d.max(), p.max());
        for _ in 0..8 {
            let q = rng.gen::<f64>() * 100.0;
            assert_eq!(d.value_at_percentile(q), value_at_percentile(&p, q), "q={q}");
        }
        let dv = d.serialize_v2();
        let mut pv = Vec::new();
        let _ = p.serialize_v2(&mut pv).unwrap();
        assert_eq!(dv, pv, "encode diverged");
    }
}

// `deserialize` must never panic on arbitrary bytes, and any successful decode must survive
// re-encode/re-decode.
#[test]
fn fuzz_hostile_decode() {
    let mut rng = SmallRng::seed_from_u64(0xDEAD_BEEF_CAFE_F00D);
    // seed with a valid stream so the corpus has near-valid inputs
    let mut seed = PackedHistogram::new_with_bounds(1, 3_600_000_000, 3).unwrap();
    seed.record_n(12345, 6).unwrap();
    seed.record_n(2_000_000, 500_000).unwrap();
    let mut valid = Vec::new();
    let _ = seed.serialize_v2(&mut valid).unwrap();

    for _ in 0..200_000 {
        let mut data: Vec<u8> = if rng.gen_bool(0.3) {
            valid.clone()
        } else {
            let len = rng.gen_range(0..48);
            (0..len).map(|_| rng.gen::<u8>()).collect()
        };
        // random single-byte corruption of the valid-ish inputs
        if !data.is_empty() && rng.gen_bool(0.5) {
            let i = rng.gen_range(0..data.len());
            data[i] = rng.gen::<u8>();
        }
        if let Ok(hp) = PackedHistogram::deserialize(&data) {
            // exercise queries (must not panic)
            let _ = (hp.len(), hp.min(), hp.max());
            let _ = value_at_percentile(&hp, 99.9);
            // re-encode + re-decode must round-trip total
            let mut re = Vec::new();
            let _ = hp.serialize_v2(&mut re).unwrap();
            let hp2 = PackedHistogram::deserialize(&re).unwrap();
            assert_eq!(hp.len(), hp2.len(), "total drift on re-decode");
        }
    }
}

// Other layouts than the usual one, with values up to the ends of their ranges.
#[test]
fn parity_on_other_layouts() {
    for &(low, high, sigfig) in &[
        (1u64, 2u64, 0u8),
        (1, 1000, 1),
        (8, 100_000, 2),
        (1000, 1 << 40, 3),
        (3, u64::MAX, 4),
        (1, u64::MAX, 5),
    ] {
        let mut rng = Xs(low.wrapping_mul(0x9E37_79B9_7F4A_7C15) | 1);
        let mut d = Dense::new(low, high, sigfig);
        let mut p = PackedHistogram::new_with_bounds(low, high, sigfig).unwrap();
        for k in 0..2000u32 {
            let v = (rng.next() >> (k % 64)).min(high);
            let c = 1 + rng.next() % 1000;
            d.record_n(v, c);
            p.record_n(v, c).unwrap();
            assert_eq!(d.count_at(v), p.count_at(v));
        }
        assert_eq!(d.len(), p.len());
        assert_eq!(d.min(), p.min());
        assert_eq!(d.max(), p.max());
        for pc in 0..=100 {
            let pc = f64::from(pc);
            assert_eq!(d.value_at_percentile(pc), value_at_percentile(&p, pc));
        }
        let mut pv = Vec::new();
        let n = p.serialize_v2(&mut pv).unwrap();
        assert_eq!(n, pv.len());
        assert_eq!(pv, d.serialize_v2());
        let back = PackedHistogram::deserialize(&pv).unwrap();
        assert_eq!(back.len(), p.len());
        assert_eq!(back.populated(), p.populated());
        assert_eq!(back.count_width(), p.count_width());
    }
}
