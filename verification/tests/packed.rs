//! Recording and querying.

use packed_histogram::memory::backing_size;
use packed_histogram::{CreationError, Geometry, PackedHistogram, RecordError};

#[test]
fn width_growth() {
    let mut p = PackedHistogram::new_with_bounds(1, 3_600_000_000, 3).unwrap();
    p.record_n(6147, 200).unwrap();
    assert_eq!(p.count_width(), 1);
    p.record_n(6147, 70_000).unwrap();
    assert_eq!(p.count_width(), 4);
    p.record_n(6147, 5_000_000_000).unwrap();
    assert_eq!(p.count_width(), 8);
    assert_eq!(p.count_at(6147), 200 + 70_000 + 5_000_000_000);
}

#[test]
fn memory_win() {
    let dense_per_histo = 23552usize * 8; // counts_len * size_of::<u64> for (1,3.6e9,3)
    for d in [10usize, 100] {
        let mut p = PackedHistogram::new_with_bounds(1, 3_600_000_000, 3).unwrap();
        for k in 0..d {
            p.record(1 + (3_600_000_000u64 / (d as u64 + 1)) * (k as u64 + 1))
                .unwrap();
        }
        let packed = p.memory_size();
        println!(
            "D={:<4} dense={} B  packed={} B  win={:.0}x",
            d,
            dense_per_histo,
            packed,
            dense_per_histo as f64 / packed as f64
        );
        assert!(packed >= p.populated() * 5);
        assert!(packed < dense_per_histo);
    }
}

#[test]
fn record_and_count_out_of_range() {
    let mut p = PackedHistogram::new_with_bounds(1, 1000, 3).unwrap();
    assert!(p.record(u64::MAX).is_err()); // beyond the representable range
    assert_eq!(p.count_at(u64::MAX), 0); // out of range -> 0
    assert_eq!(p.count_at(500), 0); // in range, never recorded
}

#[test]
fn empty_and_populated_accessors() {
    let mut p = PackedHistogram::new_with_bounds(1, 1000, 3).unwrap();
    assert!(p.is_empty());
    assert_eq!(p.populated(), 0);
    p.record(500).unwrap();
    assert!(!p.is_empty());
    assert_eq!(p.populated(), 1);
}

#[test]
fn creation_errors() {
    let err = |low, high, sigfig| PackedHistogram::new_with_bounds(low, high, sigfig).unwrap_err();
    assert_eq!(err(0, 10, 3), CreationError::LowIsZero);
    assert_eq!(err(1 << 63, u64::MAX, 3), CreationError::LowExceedsMax);
    assert_eq!(err(10, 19, 3), CreationError::HighLessThanTwiceLow);
    assert_eq!(err(1, 10, 6), CreationError::SigFigExceedsMax);
    assert_eq!(
        err(1 << 50, 1 << 60, 5),
        CreationError::CannotRepresentSigFigBeyondLow
    );
    assert!(PackedHistogram::new_with_bounds(10, 20, 3).is_ok());
    assert!(PackedHistogram::new_with_bounds(1 << 45, 1 << 60, 5).is_ok());
    assert!(PackedHistogram::new_with_bounds(1 << 46, 1 << 60, 5).is_err());
}

#[test]
fn geometry_of_the_usual_layout() {
    let g = Geometry::new_with_bounds(1, 3_600_000_000, 3).unwrap();
    assert_eq!(g.distinct_values(), 23552);
    assert_eq!((g.low(), g.high(), g.sigfig()), (1, 3_600_000_000, 3));
    assert_eq!(g.index_for(0), 0);
    assert_eq!(g.index_for(2047), 2047);
    assert_eq!(g.index_for(2048), 2048);
    assert_eq!(g.index_for(2049), 2048);
    assert_eq!(g.index_for(2050), 2049);
    assert_eq!(g.index_for(4096), 3072);
    assert_eq!(g.value_for(3073), 4100);
    assert_eq!(g.lowest_equivalent(4101), 4100);
    assert_eq!(g.highest_equivalent(4101), 4103);
    for i in 0..g.distinct_values() {
        assert_eq!(g.index_for(g.value_for(i)), i);
    }
}

#[test]
fn geometry_with_a_coarse_unit() {
    let g = Geometry::new_with_bounds(1000, 1_000_000, 1).unwrap();
    // the unit is 512, and bucket 0 has 32 parts
    assert_eq!(g.index_for(511), 0);
    assert_eq!(g.index_for(512), 1);
    assert_eq!(g.value_for(31), 31 * 512);
    assert_eq!(g.value_for(32), 32 * 512);
    assert_eq!(g.value_for(33), 34 * 512);
    assert_eq!(g.lowest_equivalent(1000), 512);
    assert_eq!(g.highest_equivalent(1000), 1023);
}

#[test]
fn top_of_the_range() {
    let g = Geometry::new_with_bounds(1, u64::MAX, 3).unwrap();
    assert_eq!(g.highest_equivalent(u64::MAX), u64::MAX);
    assert_eq!(g.highest_equivalent(u64::MAX - 1), u64::MAX - 1);
    assert_eq!(g.lowest_equivalent(u64::MAX), 2047 << 53);
    assert_eq!(g.index_for(u64::MAX), g.distinct_values() - 1);
    let mut p = PackedHistogram::new_with_bounds(1, u64::MAX, 3).unwrap();
    p.record(u64::MAX).unwrap();
    assert_eq!(p.max(), u64::MAX);
    assert_eq!(p.min(), 2047 << 53);
}

#[test]
fn out_of_range_leaves_the_histogram_alone() {
    let mut p = PackedHistogram::new_with_bounds(1, 1000, 3).unwrap();
    p.record_n(7, 3).unwrap();
    // bucket 0 reaches 2047
    assert_eq!(p.record_n(2047, 1), Ok(()));
    assert_eq!(
        p.record_n(2048, 1),
        Err(RecordError::ValueOutOfRangeResizeDisabled)
    );
    assert_eq!(
        p.record_n(2048, 0),
        Err(RecordError::ValueOutOfRangeResizeDisabled)
    );
    assert_eq!((p.len(), p.populated(), p.max()), (4, 2, 2047));
}

#[test]
fn recording_nothing_changes_nothing() {
    let mut p = PackedHistogram::new_with_bounds(1, 1000, 3).unwrap();
    p.record_n(7, 0).unwrap();
    assert!(p.is_empty());
    assert_eq!((p.populated(), p.min(), p.max()), (0, 0, 0));
}

#[test]
fn extremes() {
    let mut p = PackedHistogram::new_with_bounds(1, 3_600_000_000, 3).unwrap();
    assert_eq!((p.min(), p.max()), (0, 0));
    p.record(5000).unwrap();
    // 5000 shares its count with 5001 to 5003
    assert_eq!((p.min(), p.max()), (5000, 5003));
    p.record(9).unwrap();
    p.record(100_000).unwrap();
    assert_eq!((p.min(), p.max()), (9, 100_031));
    p.record(0).unwrap();
    assert_eq!((p.min(), p.max()), (0, 100_031));
}

#[test]
fn counts_saturate() {
    let mut p = PackedHistogram::new_with_bounds(1, 1000, 3).unwrap();
    p.record_n(1, u64::MAX).unwrap();
    p.record_n(1, 5).unwrap();
    p.record_n(2, 7).unwrap();
    assert_eq!(p.count_at(1), u64::MAX);
    assert_eq!(p.count_at(2), 7);
    assert_eq!(p.len(), u64::MAX);
    // the sum is held as well, so the total is reached by the first value already
    assert_eq!(p.value_at_count(u64::MAX, false), 1);
}

#[test]
fn widths_at_their_limits() {
    for &(count, width) in &[
        (0xFFu64, 1u8),
        (0x100, 2),
        (0xFFFF, 2),
        (0x1_0000, 4),
        (0xFFFF_FFFF, 4),
        (0x1_0000_0000, 8),
        (u64::MAX, 8),
    ] {
        let mut p = PackedHistogram::new_with_bounds(1, 1000, 3).unwrap();
        p.record_n(3, 0xAB).unwrap();
        p.record_n(900, count).unwrap();
        p.record_n(1, 1).unwrap();
        assert_eq!(p.count_width(), width);
        assert_eq!((p.count_at(1), p.count_at(3), p.count_at(900)), (1, 0xAB, count));
        assert_eq!(p.populated(), 3);
    }
}

#[test]
fn value_at_count_walks_the_counts() {
    let mut p = PackedHistogram::new_with_bounds(1, 3_600_000_000, 3).unwrap();
    assert_eq!(p.value_at_count(0, true), 0);
    assert_eq!(p.value_at_count(1, false), 0);
    // more values than one block holds
    for v in 1..=20u64 {
        p.record_n(v * 1000, v).unwrap();
    }
    let mut sum = 0;
    for v in 1..=20u64 {
        sum += v;
        let g = Geometry::new_with_bounds(1, 3_600_000_000, 3).unwrap();
        assert_eq!(p.value_at_count(sum, true), g.lowest_equivalent(v * 1000));
        assert_eq!(p.value_at_count(sum, false), g.highest_equivalent(v * 1000));
        assert_eq!(p.value_at_count(sum - v + 1, false), g.highest_equivalent(v * 1000));
    }
    assert_eq!(p.value_at_count(0, true), p.min());
    assert_eq!(p.value_at_count(p.len(), false), p.max());
    assert_eq!(p.value_at_count(p.len() + 1, false), 0);
}

#[test]
fn order_of_records_does_not_matter() {
    let mut a = PackedHistogram::new_with_bounds(1, 100_000, 2).unwrap();
    let mut b = PackedHistogram::new_with_bounds(1, 100_000, 2).unwrap();
    let records = [(50_000u64, 3u64), (0, 1), (12, 400), (50_001, 70_000), (99_999, 2)];
    for &(v, c) in &records {
        a.record_n(v, c).unwrap();
    }
    for &(v, c) in records.iter().rev() {
        b.record_n(v, c - 1).unwrap();
        b.record_n(v, 1).unwrap();
    }
    let (mut x, mut y) = (Vec::new(), Vec::new());
    a.serialize_v2(&mut x).unwrap();
    b.serialize_v2(&mut y).unwrap();
    assert_eq!(x, y);
    assert_eq!((a.min(), a.max(), a.len()), (b.min(), b.max(), b.len()));
    assert_eq!(a.len(), 3 + 1 + 400 + 70_000 + 2);
    assert_eq!(a.count_at(50_000), 70_003);
}

#[test]
fn precision_is_kept() {
    for sigfig in 0..=5u8 {
        let g = Geometry::new_with_bounds(1, u64::MAX, sigfig).unwrap();
        for shift in 0..64 {
            let v = u64::MAX >> shift;
            let width = g.highest_equivalent(v) - g.lowest_equivalent(v);
            assert!(u128::from(width) * 10u128.pow(u32::from(sigfig)) <= u128::from(v));
        }
    }
}

#[test]
fn memory_of_the_backing() {
    assert_eq!(backing_size(0, 0), 0);
    assert_eq!(backing_size(5, 3), 23);
    for &(low, high, sigfig) in &[(1, 1000, 3), (1, u64::MAX, 5)] {
        let mut p = PackedHistogram::new_with_bounds(low, high, sigfig).unwrap();
        assert_eq!(p.memory_size(), 0);
        for k in 0..40 {
            p.record_n(k, 1 << k).unwrap();
            let populated = p.populated();
            assert!(p.memory_size() >= populated * (4 + p.count_width() as usize));
        }
    }
}

#[test]
fn records_merge_up_to_the_limit() {
    let mut a = PackedHistogram::new_with_bounds(1, 1000, 3).unwrap();
    let mut b = PackedHistogram::new_with_bounds(1, 1000, 3).unwrap();
    a.record_n(7, 1 << 63).unwrap();
    a.record_n(7, (1 << 63) + 5).unwrap();
    b.record_n(7, u64::MAX).unwrap();
    assert_eq!((a.len(), a.count_at(7)), (u64::MAX, u64::MAX));
    assert_eq!((a.len(), a.count_at(7)), (b.len(), b.count_at(7)));
}

#[test]
fn new_histograms_are_empty() {
    let p = PackedHistogram::new_with_bounds(8, 1 << 40, 2).unwrap();
    assert_eq!((p.len(), p.populated(), p.min(), p.max()), (0, 0, 0, 0));
    assert_eq!((p.count_width(), p.count_at(0), p.memory_size()), (1, 0, 0));
    assert_eq!((p.value_at_count(0, true), p.value_at_count(5, false)), (0, 0));
}
