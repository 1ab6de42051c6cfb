//! What holds of histograms as a whole: here, of what is written and read back and of records
//! in a row; in the modules below, of single answers, of the layout, of the numbers in a stream
//! and of its bytes.
pub mod answers;
pub mod layout;
pub mod numbers;
pub mod streams;

#[allow(unused_imports)]
use crate::errors::DecodeError;
#[allow(unused_imports)]
use crate::geometry::Bounds;
#[allow(unused_imports)]
use crate::model;
#[allow(unused_imports)]
use crate::model::HistogramState;
#[allow(unused_imports)]
use crate::slots;
#[allow(unused_imports)]
use crate::stream;
#[allow(unused_imports)]
use crate::stream::{Origin, RATIO_ONE, V2_COMPRESSED_COOKIE, V2_COOKIE, V2_HEADER_SIZE};
#[allow(unused_imports)]
use crate::varint;
#[allow(unused_imports)]
use crate::wire;
#[allow(unused_imports)]
use crate::zlib;
use vstd::prelude::*;

verus! {

/// The counts of a payload are read back as they were written.
proof fn lemma_payload_round_trip(
    counts: Seq<u64>,
    i: int,
    limit: int,
    payload: Seq<u8>,
    at: int,
    acc: Seq<u64>,
)
    requires
        0 <= i <= limit + 1 <= counts.len() <= i64::MAX,
        forall|j: int| 0 <= j < counts.len() ==> #[trigger] counts[j] <= i64::MAX,
        forall|j: int| limit < j < counts.len() ==> #[trigger] counts[j] == 0,
        0 <= at <= payload.len(),
        payload.subrange(at, payload.len() as int) == stream::payload_from(counts, i, limit),
        acc.len() == counts.len(),
        forall|j: int| 0 <= j < i ==> #[trigger] acc[j] == counts[j],
        forall|j: int| i <= j < counts.len() ==> #[trigger] acc[j] == 0,
    ensures
        stream::decode_counts(payload, at, i as nat, acc) == Some(counts),
    decreases limit - i + 1,
{
    let tail = payload.subrange(at, payload.len() as int);
    if i > limit {
        assert(tail.len() == 0);
        assert forall|j: int| 0 <= j < counts.len() implies acc[j] == counts[j] by {
            if j > limit {
                assert(counts[j] == 0);
            }
        }
        assert(acc =~= counts);
    } else {
        stream::lemma_zero_run(counts, i, limit);
        let run: int = stream::zero_run(counts, i, limit) as int;
        let (n, next_i) = if run > 1 {
            (-run, i + run)
        } else {
            (counts[i] as int, i + 1)
        };
        let z = varint::zig_zag(n as i64);
        let e = stream::entry(n);
        let rest = stream::payload_from(counts, next_i, limit);
        varint::lemma_write_bound(z);
        assert(tail == e + rest);
        assert(tail.len() == e.len() + rest.len());
        assert(payload.subrange(at, at + e.len()) =~= e) by {
            assert forall|j: int| 0 <= j < e.len() implies payload.subrange(at, at + e.len())[j]
                == e[j] by {
                assert(tail[j] == payload[at + j]);
            }
        }
        varint::lemma_round_trip(payload, at, z);
        varint::lemma_zig_zag(n as i64, z);
        let next: int = at + e.len();
        assert(payload.subrange(next, payload.len() as int) =~= rest) by {
            assert forall|j: int| 0 <= j < rest.len() implies payload.subrange(
                next,
                payload.len() as int,
            )[j] == rest[j] by {
                assert(tail[e.len() + j] == payload[at + e.len() + j]);
            }
        }
        if run > 1 {
            assert forall|j: int| 0 <= j < next_i implies #[trigger] acc[j] == counts[j] by {
                if j >= i {
                    assert(counts[j] == 0);
                }
            }
            lemma_payload_round_trip(counts, next_i, limit, payload, next, acc);
        } else {
            let acc2 = acc.update(i, counts[i]);
            lemma_payload_round_trip(counts, next_i, limit, payload, next, acc2);
        }
    }
}

/// A source that gives the bytes of a histogram's stream gives what can be told from its
/// counts.
proof fn lemma_decode_v2(origin: Origin, h: HistogramState)
    requires
        h.wf(),
        h.serializable(),
        forall|n: nat|
            n <= h.v2_bytes().len() ==> #[trigger] origin.prefix(n) == Some(
                h.v2_bytes().take(n as int),
            ),
    ensures
        stream::decode_v2(origin) == Ok::<_, DecodeError>(stream::restored(h.bounds, h.counts)),
{
    let s = h.v2_bytes();
    let b = h.bounds;
    let payload = h.payload();
    let head = stream::header(b, payload.len());
    let limit: int = b.index_of(h.max_value) as int;
    b.lemma_sizes();
    stream::lemma_payload_len(h.counts, 0, limit);
    stream::lemma_header(b, payload.len());
    reveal_with_fuel(slots::pow256, 9);
    wire::lemma_be_round_trip(payload.len(), 4);
    wire::lemma_be_round_trip(0, 4);
    wire::lemma_be_round_trip(b.sigfig as nat, 4);
    wire::lemma_be_round_trip(b.low as nat, 8);
    wire::lemma_be_round_trip(b.high as nat, 8);
    wire::lemma_be_round_trip(RATIO_ONE as nat, 8);
    let lead = s.take(12);
    assert(origin.prefix(12) == Some(lead));
    assert(lead.subrange(8, 12) =~= head.subrange(8, 12));
    assert(lead.subrange(4, 8) =~= head.subrange(4, 8));
    assert(origin.prefix(V2_HEADER_SIZE as nat) == Some(s.take(40)));
    assert(s.take(40) =~= head);
    let all = s.take(s.len() as int);
    assert(origin.prefix(V2_HEADER_SIZE as nat + payload.len()) == Some(all));
    assert(all.subrange(40, all.len() as int) =~= payload);
    assert(payload.subrange(0, payload.len() as int) =~= payload);
    lemma_payload_round_trip(h.counts, 0, limit, payload, 0, HistogramState::empty(b).counts);
}

/// A stream of a histogram, whatever follows it, is read back as a histogram of the same
/// bounds with the same counts, and extremes that stand for the outermost ones.
pub proof fn law_round_trip(h: HistogramState, rest: Seq<u8>)
    requires
        h.wf(),
        h.serializable(),
    ensures
        stream::decode(h.v2_bytes() + rest) == Ok::<_, DecodeError>(
            stream::restored(h.bounds, h.counts),
        ),
{
    let s = h.v2_bytes();
    let data = s + rest;
    stream::lemma_header(h.bounds, h.payload().len());
    reveal_with_fuel(slots::pow256, 9);
    wire::lemma_be_round_trip(V2_COOKIE as nat, 4);
    assert(data.subrange(0, 4) =~= stream::header(h.bounds, h.payload().len()).subrange(0, 4));
    let origin = Origin::Plain(data);
    assert forall|n: nat| n <= s.len() implies #[trigger] origin.prefix(n) == Some(
        s.take(n as int),
    ) by {
        assert(data.take(n as int) =~= s.take(n as int));
    }
    lemma_decode_v2(origin, h);
}

/// A compressed stream, whatever follows it, is read back as the stream that it compresses.
/// Its length fits in the four bytes that hold it.
pub proof fn law_compressed_round_trip(h: HistogramState, z: Seq<u8>, rest: Seq<u8>)
    requires
        h.wf(),
        h.serializable(),
    ensures
        zlib::compresses(z, h.v2_bytes()) ==> {
            &&& z.len() <= u32::MAX
            &&& stream::decode(stream::compressed_stream(z) + rest) == stream::decode(h.v2_bytes())
        },
{
    if zlib::compresses(z, h.v2_bytes()) {
        let s = h.v2_bytes();
        let data = stream::compressed_stream(z) + rest;
        let limit: int = h.bounds.index_of(h.max_value) as int;
        h.bounds.lemma_sizes();
        stream::lemma_payload_len(h.counts, 0, limit);
        stream::lemma_header(h.bounds, h.payload().len());
        reveal_with_fuel(slots::pow256, 9);
        wire::lemma_be_len(V2_COMPRESSED_COOKIE as nat, 4);
        wire::lemma_be_len(z.len(), 4);
        wire::lemma_be_round_trip(V2_COMPRESSED_COOKIE as nat, 4);
        wire::lemma_be_round_trip(V2_COOKIE as nat, 4);
        wire::lemma_be_round_trip(z.len(), 4);
        assert(data.subrange(0, 4) =~= wire::be_bytes(V2_COMPRESSED_COOKIE as nat, 4));
        assert(data.subrange(4, 8) =~= wire::be_bytes(z.len(), 4));
        assert(stream::zlib_part(data) =~= z);
        let origin = Origin::Zlib(z);
        assert forall|n: nat| n <= s.len() implies #[trigger] origin.prefix(n) == Some(
            s.take(n as int),
        ) by {
            assert(zlib::inflated(z, n as usize) == Some(s.take(n as int)));
        }
        assert(origin.prefix(4) == Some(s.take(4)));
        assert(s.take(4) =~= stream::header(h.bounds, h.payload().len()).subrange(0, 4));
        lemma_decode_v2(origin, h);
        law_round_trip(h, Seq::empty());
        assert(s + Seq::<u8>::empty() =~= s);
    }
}

/// Once no more bytes of a stream are wanted, what follows does not matter: it is not looked
/// at. Where more are wanted, they are more than there are.
pub proof fn law_wanted_is_enough(prefix: Seq<u8>, rest: Seq<u8>)
    ensures
        match stream::wanted(prefix) {
            Some(n) => n > prefix.len(),
            None => stream::decode(prefix + rest) == stream::decode(prefix),
        },
{
    if stream::wanted(prefix) is None {
        let data = prefix + rest;
        assert(data.subrange(0, 4) =~= prefix.subrange(0, 4));
        if stream::field(prefix, 0, 4) == V2_COOKIE {
            let a = Origin::Plain(prefix);
            let b = Origin::Plain(data);
            assert forall|n: nat| n <= prefix.len() implies #[trigger] b.prefix(n) == a.prefix(n) by {
                assert(data.take(n as int) =~= prefix.take(n as int));
            }
            assert(b.prefix(12) == a.prefix(12));
            assert(prefix.take(12).subrange(8, 12) =~= prefix.subrange(8, 12));
            assert(prefix.take(12).subrange(4, 8) =~= prefix.subrange(4, 8));
            if stream::field(prefix, 8, 12) == 0 {
                let head = prefix.take(40);
                assert(b.prefix(V2_HEADER_SIZE as nat) == a.prefix(V2_HEADER_SIZE as nat));
                assert(head.subrange(12, 16) =~= prefix.subrange(12, 16));
                assert(head.subrange(16, 24) =~= prefix.subrange(16, 24));
                assert(head.subrange(24, 32) =~= prefix.subrange(24, 32));
                assert(head.subrange(32, 40) =~= prefix.subrange(32, 40));
                assert(stream::header_bounds(head) == stream::header_bounds(prefix));
                if stream::header_bounds(prefix) is Ok {
                    let all = V2_HEADER_SIZE as nat + stream::field(prefix, 4, 8);
                    assert(b.prefix(all) == a.prefix(all));
                }
            }
        } else if stream::field(prefix, 0, 4) == V2_COMPRESSED_COOKIE {
            assert(data.subrange(4, 8) =~= prefix.subrange(4, 8));
            assert(stream::zlib_part(data) =~= stream::zlib_part(prefix));
        }
    }
}

/// Of the stream of a histogram all bytes are wanted, and none of those that follow it: where
/// its first `k` bytes are there, more are wanted exactly if some are missing, and never more
/// than the stream has.
pub proof fn law_wanted_is_no_more(h: HistogramState, k: nat)
    requires
        h.wf(),
        h.serializable(),
        k <= h.v2_bytes().len(),
    ensures
        match stream::wanted(h.v2_bytes().take(k as int)) {
            Some(n) => k < n <= h.v2_bytes().len(),
            None => k == h.v2_bytes().len(),
        },
{
    let s = h.v2_bytes();
    let b = h.bounds;
    let payload = h.payload();
    let head = stream::header(b, payload.len());
    let limit: int = b.index_of(h.max_value) as int;
    let p = s.take(k as int);
    b.lemma_sizes();
    stream::lemma_payload_len(h.counts, 0, limit);
    stream::lemma_header(b, payload.len());
    reveal_with_fuel(slots::pow256, 9);
    wire::lemma_be_round_trip(V2_COOKIE as nat, 4);
    wire::lemma_be_round_trip(payload.len(), 4);
    wire::lemma_be_round_trip(0, 4);
    wire::lemma_be_round_trip(b.sigfig as nat, 4);
    wire::lemma_be_round_trip(b.low as nat, 8);
    wire::lemma_be_round_trip(b.high as nat, 8);
    wire::lemma_be_round_trip(RATIO_ONE as nat, 8);
    if k >= 4 {
        assert(p.subrange(0, 4) =~= head.subrange(0, 4));
    }
    if k >= 12 {
        assert(p.subrange(4, 8) =~= head.subrange(4, 8));
        assert(p.subrange(8, 12) =~= head.subrange(8, 12));
    }
    if k >= 40 {
        assert(p.subrange(12, 16) =~= head.subrange(12, 16));
        assert(p.subrange(16, 24) =~= head.subrange(16, 24));
        assert(p.subrange(24, 32) =~= head.subrange(24, 32));
        assert(p.subrange(32, 40) =~= head.subrange(32, 40));
        assert(stream::header_bounds(p) == Ok::<_, DecodeError>(b));
    }
}

/// Of a compressed stream, too, all bytes are wanted and none of those that follow it.
pub proof fn law_compressed_wanted_is_no_more(z: Seq<u8>, k: nat)
    requires
        z.len() <= u32::MAX,
        k <= stream::compressed_stream(z).len(),
    ensures
        match stream::wanted(stream::compressed_stream(z).take(k as int)) {
            Some(n) => k < n <= stream::compressed_stream(z).len(),
            None => k == stream::compressed_stream(z).len(),
        },
{
    let p = stream::compressed_stream(z).take(k as int);
    reveal_with_fuel(slots::pow256, 9);
    wire::lemma_be_len(V2_COMPRESSED_COOKIE as nat, 4);
    wire::lemma_be_len(z.len(), 4);
    wire::lemma_be_round_trip(V2_COMPRESSED_COOKIE as nat, 4);
    wire::lemma_be_round_trip(z.len(), 4);
    if k >= 4 {
        assert(p.subrange(0, 4) =~= wire::be_bytes(V2_COMPRESSED_COOKIE as nat, 4));
    }
    if k >= 8 {
        assert(p.subrange(4, 8) =~= wire::be_bytes(z.len(), 4));
    }
}

/// The last index that holds a count is that of the largest recorded value, and the first
/// one apart from index 0, where that holds none, is that of the least.
proof fn lemma_outermost(h: HistogramState)
    requires
        h.wf(),
    ensures
        ({
            let r = stream::restored(h.bounds, h.counts);
            &&& r.max_value == if model::any_nonzero(h.counts) {
                h.bounds.highest_equivalent(h.bounds.lowest_equivalent(h.max_value) as u64)
            } else {
                0
            }
            &&& model::any_nonzero(h.counts) && h.counts[0] == 0 ==> r.min_non_zero_value
                == h.bounds.lowest_equivalent(h.min_non_zero_value)
        }),
{
    let counts = h.counts;
    let b = h.bounds;
    let top: int = b.index_of(h.max_value) as int;
    if model::any_nonzero(counts) {
        assert(stream::is_last(counts, top));
        let c = choose|i: int| stream::is_last(counts, i);
        if c < top {
            assert(counts[top] == 0);
        } else if top < c {
            assert(counts[c] == 0);
        }
        b.lemma_value_of_index_of(h.max_value);
        b.lemma_equivalents(h.max_value);
        b.lemma_equivalents(b.lowest_equivalent(h.max_value) as u64);
        if counts[0] == 0 {
            let bottom: int = b.index_of(h.min_non_zero_value) as int;
            assert(stream::is_first_above_zero(counts, bottom));
            let d = choose|i: int| stream::is_first_above_zero(counts, i);
            if d < bottom {
                assert(counts[d] == 0);
            } else if bottom < d {
                assert(counts[bottom] == 0);
            }
            b.lemma_value_of_index_of(h.min_non_zero_value);
            b.lemma_equivalents(h.min_non_zero_value);
        }
    } else {
        assert(!(exists|i: int| stream::is_last(counts, i)));
    }
}

/// What is told from counts alone is a histogram.
proof fn lemma_restored_wf(b: Bounds, counts: Seq<u64>)
    requires
        b.valid(),
        counts.len() == b.counts_len(),
    ensures
        stream::restored(b, counts).wf(),
{
    let r = stream::restored(b, counts);
    b.lemma_sizes();
    b.lemma_index_zero();
    if model::any_nonzero(counts) {
        lemma_last_exists(counts, counts.len() as int);
        let c = choose|i: int| stream::is_last(counts, i);
        assert(stream::is_last(counts, c));
        b.lemma_index_of_value_of(c as nat);
        b.lemma_equivalents(b.value_of(c as nat) as u64);
        if counts[0] == 0 {
            lemma_first_exists(counts, 1);
            let d = choose|i: int| stream::is_first_above_zero(counts, i);
            assert(stream::is_first_above_zero(counts, d));
            b.lemma_index_of_value_of(d as nat);
        }
    } else {
        assert(!(exists|i: int| stream::is_last(counts, i)));
        assert(!(exists|i: int| stream::is_first_above_zero(counts, i)));
    }
}

proof fn lemma_last_exists(counts: Seq<u64>, n: int) -> (i: int)
    requires
        model::any_nonzero(counts),
        0 <= n <= counts.len(),
        forall|j: int| n <= j < counts.len() ==> #[trigger] counts[j] == 0,
    ensures
        stream::is_last(counts, i),
    decreases n,
{
    if n == 0 {
        0
    } else if counts[n - 1] != 0 {
        n - 1
    } else {
        lemma_last_exists(counts, n - 1)
    }
}

proof fn lemma_first_exists(counts: Seq<u64>, n: int) -> (i: int)
    requires
        model::any_nonzero(counts),
        counts[0] == 0,
        0 < n <= counts.len(),
        forall|j: int| 0 < j < n ==> #[trigger] counts[j] == 0,
    ensures
        stream::is_first_above_zero(counts, i),
    decreases counts.len() - n,
{
    if n == counts.len() {
        assert(forall|j: int| 0 <= j < counts.len() ==> #[trigger] counts[j] == 0);
        0
    } else if counts[n] != 0 {
        n
    } else {
        lemma_first_exists(counts, n + 1)
    }
}

/// A histogram that was written and read back answers as the one that was written: the total,
/// the lowest value, the number of populated buckets, the width, and every count and value
/// that is asked for.
pub proof fn law_round_trip_answers(h: HistogramState, value: u64, count: u64, lowest: bool)
    requires
        h.wf(),
        h.serializable(),
    ensures
        ({
            let r = stream::restored(h.bounds, h.counts);
            &&& stream::decode(h.v2_bytes()) == Ok::<_, DecodeError>(r)
            &&& r.wf()
            &&& r.bounds == h.bounds
            &&& r.counts == h.counts
            &&& r.total() == h.total()
            &&& r.min() == h.min()
            &&& r.populated() == h.populated()
            &&& model::least_width(r.counts) == model::least_width(h.counts)
            &&& r.count_at(value) == h.count_at(value)
            &&& r.value_at_count(count, lowest) == h.value_at_count(count, lowest)
        }),
{
    law_round_trip(h, Seq::empty());
    assert(h.v2_bytes() + Seq::<u8>::empty() =~= h.v2_bytes());
    lemma_outermost(h);
    lemma_restored_wf(h.bounds, h.counts);
    model::lemma_sum_zero(h.counts, h.counts.len() as int);
    if h.total() != 0 && h.counts[0] == 0 {
        assert(model::any_nonzero(h.counts));
        let v = h.min_non_zero_value;
        h.bounds.lemma_value_of_index_of(v);
        h.bounds.lemma_index_of_value_of(h.bounds.index_of(v));
    }
}

/// A histogram that was written and read back has the same highest value. Two cases are left
/// out. Where only zeros were recorded and other values share their count, it is not known any
/// more that there were no others. Where `u64::MAX` itself was recorded, it is not known any
/// more from its equivalents.
pub proof fn law_round_trip_max(h: HistogramState)
    requires
        h.wf(),
        h.serializable(),
        h.max_value == 0 && model::any_nonzero(h.counts) ==> h.bounds.unit_magnitude() == 0,
        h.max_value != u64::MAX,
    ensures
        stream::decode(h.v2_bytes()) matches Ok(r) && r.max() == h.max(),
{
    law_round_trip(h, Seq::empty());
    assert(h.v2_bytes() + Seq::<u8>::empty() =~= h.v2_bytes());
    lemma_outermost(h);
    let b = h.bounds;
    let v = h.max_value;
    b.lemma_index_zero();
    b.lemma_sub_bucket(v);
    b.lemma_equivalents(v);
    b.lemma_same_range(v, b.lowest_equivalent(v) as u64);
    b.lemma_sub_bucket(b.highest_equivalent(v) as u64);
    b.lemma_same_range(v, b.highest_equivalent(v) as u64);
    if v == 0 {
        vstd::arithmetic::power2::lemma2_to64();
        b.lemma_sizes();
        assert(crate::bits::bit_len(0) == 0);
    }
}

proof fn lemma_decoded_counts(payload: Seq<u8>, i: int, dst: nat, counts: Seq<u64>)
    requires
        forall|j: int| 0 <= j < counts.len() ==> #[trigger] counts[j] <= i64::MAX,
    ensures
        stream::decode_counts(payload, i, dst, counts) matches Some(after) ==> {
            &&& after.len() == counts.len()
            &&& forall|j: int| 0 <= j < after.len() ==> #[trigger] after[j] <= i64::MAX
        },
    decreases (if i < payload.len() { payload.len() - i } else { 0 }),
{
    if i < payload.len() {
        varint::lemma_read_bound(payload, i);
        let val = varint::un_zig_zag(varint::number_at(payload, i));
        let next: int = i + varint::size_at(payload, i);
        if val < 0 {
            lemma_decoded_counts(payload, next, (dst - val) as nat, counts);
        } else if dst < counts.len() {
            lemma_decoded_counts(payload, next, dst + 1, counts.update(dst as int, val as u64));
        }
    }
}

/// Whatever bytes were read as a histogram, it can be written, and what is written is read as
/// the very same histogram.
pub proof fn law_decoded_is_stable(data: Seq<u8>)
    ensures
        stream::decode(data) matches Ok(h) ==> {
            &&& h.wf()
            &&& h.serializable()
            &&& stream::decode(h.v2_bytes()) == Ok::<_, DecodeError>(h)
        },
{
    if let Ok(h) = stream::decode(data) {
        let origin = if stream::field(data, 0, 4) == V2_COOKIE {
            Origin::Plain(data)
        } else {
            Origin::Zlib(stream::zlib_part(data))
        };
        assert(stream::decode_v2(origin) == Ok::<_, DecodeError>(h));
        let len: nat = stream::field(origin.prefix(12).unwrap(), 4, 8);
        let all = origin.prefix(V2_HEADER_SIZE as nat + len).unwrap();
        let payload = all.subrange(V2_HEADER_SIZE as int, all.len() as int);
        lemma_decoded_counts(payload, 0, 0, HistogramState::empty(h.bounds).counts);
        lemma_restored_wf(h.bounds, h.counts);
        law_round_trip(h, Seq::empty());
        assert(h.v2_bytes() + Seq::<u8>::empty() =~= h.v2_bytes());
    }
}

/// A new histogram has the bounds that it was made for and is empty: every answer is zero, and
/// its counts are one byte wide.
pub proof fn law_empty(b: Bounds, value: u64, count: u64, lowest: bool)
    requires
        b.valid(),
    ensures
        ({
            let h = HistogramState::empty(b);
            &&& h.wf()
            &&& h.bounds == b
            &&& h.counts.len() == b.counts_len()
            &&& h.total() == 0
            &&& h.populated() == 0
            &&& h.min() == 0
            &&& h.max() == 0
            &&& model::least_width(h.counts) == 1
            &&& h.count_at(value) == 0
            &&& h.value_at_count(count, lowest) == 0
        }),
{
    let h = HistogramState::empty(b);
    b.lemma_sizes();
    b.lemma_index_zero();
    slots::lemma_max_of_width();
    model::lemma_sum_zero(h.counts, h.counts.len() as int);
    lemma_none_populated(h.counts, h.counts.len() as int);
}

proof fn lemma_none_populated(counts: Seq<u64>, n: int)
    requires
        0 <= n <= counts.len(),
        forall|i: int| 0 <= i < n ==> #[trigger] counts[i] == 0,
    ensures
        model::nonzero_to(counts, n) == 0,
    decreases n,
{
    if n > 0 {
        lemma_none_populated(counts, n - 1);
    }
}

/// Recording adds to the count of the recorded value, which its equivalents share, to no
/// other count, and as much to the total. What would pass `u64::MAX` is held there.
pub proof fn law_record_counts(h: HistogramState, value: u64, count: u64, other: u64)
    requires
        h.wf(),
        h.tracks(value),
    ensures
        ({
            let r = h.recorded(value, count);
            &&& r.wf()
            &&& r.bounds == h.bounds
            &&& r.count_at(value) == model::saturate(h.count_at(value) as nat + count as nat)
            &&& h.bounds.index_of(other) != h.bounds.index_of(value) ==> r.count_at(other)
                == h.count_at(other)
            &&& h.bounds.index_of(other) == h.bounds.index_of(value) ==> r.count_at(other)
                == r.count_at(value)
            &&& r.total() == model::saturate(h.total() as nat + count as nat)
        }),
{
    h.lemma_recorded_wf(value, count);
    model::lemma_total_update(h.counts, h.bounds.index_of(value) as int, count);
}

/// The order of two records does not matter.
pub proof fn law_record_commutes(h: HistogramState, v: u64, c: u64, w: u64, d: u64)
    requires
        h.wf(),
        h.tracks(v),
        h.tracks(w),
    ensures
        h.recorded(v, c).recorded(w, d) == h.recorded(w, d).recorded(v, c),
{
    assert(h.recorded(v, c).recorded(w, d).counts =~= h.recorded(w, d).recorded(v, c).counts);
}

/// Recording a value twice is recording it once, as often as both times together, or
/// `u64::MAX` times where that is more.
pub proof fn law_record_merges(h: HistogramState, value: u64, c: u64, d: u64)
    requires
        h.wf(),
        h.tracks(value),
    ensures
        h.recorded(value, c).recorded(value, d) == h.recorded(
            value,
            model::saturate(c as nat + d as nat),
        ),
{
    assert(h.recorded(value, c).recorded(value, d).counts =~= h.recorded(
        value,
        model::saturate(c as nat + d as nat),
    ).counts);
}

/// What is recorded lies between the lowest and the highest value, and these only move apart.
pub proof fn law_record_extremes(h: HistogramState, value: u64, count: u64)
    requires
        h.wf(),
        h.tracks(value),
        count > 0,
    ensures
        ({
            let r = h.recorded(value, count);
            &&& r.min() <= value <= r.max()
            &&& h.max() <= r.max()
            &&& model::any_nonzero(h.counts) ==> r.min() <= h.min()
        }),
{
    let b = h.bounds;
    let r = h.recorded(value, count);
    let i: int = b.index_of(value) as int;
    h.lemma_recorded_wf(value, count);
    b.lemma_index_zero();
    b.lemma_equivalents(r.max_value);
    b.lemma_equivalents(r.min_non_zero_value);
    b.lemma_equivalents(h.max_value);
    b.lemma_equivalents(h.min_non_zero_value);
    if value > h.max_value {
        lemma_highest_monotone(b, h.max_value, value);
    }
    assert(r.counts[i] != 0);
    model::lemma_sum_zero(r.counts, r.counts.len() as int);
    model::lemma_sum_zero(h.counts, h.counts.len() as int);
    if model::any_nonzero(h.counts) && r.counts[0] == 0 {
        assert(h.counts[0] == 0);
        if value < h.min_non_zero_value {
            lemma_lowest_monotone(b, value, h.min_non_zero_value);
        }
    }
}

proof fn lemma_highest_monotone(b: Bounds, v: u64, w: u64)
    requires
        b.valid(),
        v <= w,
    ensures
        b.highest_equivalent(v) <= b.highest_equivalent(w),
{
    b.lemma_sub_bucket(v);
    b.lemma_sub_bucket(w);
    b.lemma_equivalents(v);
    b.lemma_equivalents(w);
    if b.highest_equivalent(v) > b.highest_equivalent(w) {
        b.lemma_same_range(v, w);
    }
}

proof fn lemma_lowest_monotone(b: Bounds, v: u64, w: u64)
    requires
        b.valid(),
        v <= w,
    ensures
        b.lowest_equivalent(v) <= b.lowest_equivalent(w),
{
    b.lemma_sub_bucket(v);
    b.lemma_sub_bucket(w);
    b.lemma_equivalents(v);
    b.lemma_equivalents(w);
    if b.lowest_equivalent(w) < b.lowest_equivalent(v) {
        b.lemma_same_range(w, v);
    }
}

/// Recording never narrows the counts.
pub proof fn law_width_grows(h: HistogramState, value: u64, count: u64)
    requires
        h.wf(),
        h.tracks(value),
    ensures
        model::least_width(h.recorded(value, count).counts) >= model::least_width(h.counts),
{
    let i: int = h.bounds.index_of(value) as int;
    model::lemma_least_width_update(
        h.counts,
        i,
        model::saturate(h.counts[i] as nat + count as nat),
    );
}

/// The value at which the counts reach more lies no lower, as long as they reach it: beyond
/// their sum the answer is zero.
pub proof fn law_value_at_count_monotone(h: HistogramState, c: u64, d: u64, lowest: bool)
    requires
        h.wf(),
        c <= d,
        d <= model::sum_to(h.counts, h.counts.len() as int) || h.value_at_count(c, lowest) == 0,
    ensures
        h.value_at_count(c, lowest) <= h.value_at_count(d, lowest),
{
    let n = h.counts.len() as int;
    let b = h.bounds;
    let s: u64 = if c == 0 {
        1
    } else {
        c
    };
    let t: u64 = if d == 0 {
        1
    } else {
        d
    };
    if t <= model::sum_to(h.counts, n) {
        model::lemma_reaches(h.counts, s, n);
        model::lemma_reaches(h.counts, t, n);
        let i = choose|i: int| model::reaches_at(h.counts, s, i);
        let j = choose|j: int| model::reaches_at(h.counts, t, j);
        assert(model::reaches_at(h.counts, s, i) && model::reaches_at(h.counts, t, j));
        if j < i {
            model::lemma_sum_monotone(h.counts, j + 1, i);
        }
        b.lemma_index_of_value_of(i as nat);
        b.lemma_index_of_value_of(j as nat);
        if i < j {
            b.lemma_value_monotone(i as nat, j as nat);
            b.lemma_equivalents(b.value_of(j as nat) as u64);
        }
    }
}

/// The first value that the counts reach is the lowest one.
pub proof fn law_first_value_is_min(h: HistogramState)
    requires
        h.wf(),
        model::any_nonzero(h.counts),
    ensures
        h.value_at_count(0, true) == h.min(),
        h.value_at_count(1, true) == h.min(),
{
    let n = h.counts.len() as int;
    let b = h.bounds;
    model::lemma_sum_zero(h.counts, n);
    model::lemma_reaches(h.counts, 1, n);
    let i = choose|i: int| model::reaches_at(h.counts, 1, i);
    assert(model::reaches_at(h.counts, 1, i));
    model::lemma_sum_zero(h.counts, i);
    assert(h.counts[i] != 0);
    b.lemma_index_of_value_of(i as nat);
    if h.counts[0] != 0 {
        assert(i == 0);
        assert(b.value_of(0) == 0) by {
            b.lemma_sizes();
            assert(0 * vstd::arithmetic::power2::pow2(b.unit_magnitude()) == 0);
        }
    } else {
        let bottom: int = b.index_of(h.min_non_zero_value) as int;
        if i < bottom {
            assert(h.counts[i] == 0);
        }
        b.lemma_value_of_index_of(h.min_non_zero_value);
    }
}

/// The value at which the counts reach the total is the highest one. Three cases are left
/// out: the total is held at `u64::MAX` and reached before; only zeros were recorded, and
/// other values share their count; or `u64::MAX` itself was recorded, which is not told from
/// its equivalents.
pub proof fn law_last_value_is_max(h: HistogramState)
    requires
        h.wf(),
        model::any_nonzero(h.counts),
        model::sum_to(h.counts, h.bounds.index_of(h.max_value) as int) < u64::MAX,
        h.max_value == 0 ==> h.bounds.unit_magnitude() == 0,
        h.max_value != u64::MAX,
    ensures
        h.value_at_count(h.total(), false) == h.max(),
{
    let n = h.counts.len() as int;
    let b = h.bounds;
    let t = h.total();
    let top: int = b.index_of(h.max_value) as int;
    model::lemma_sum_zero(h.counts, n);
    model::lemma_reaches(h.counts, t, n);
    let i = choose|i: int| model::reaches_at(h.counts, t, i);
    assert(model::reaches_at(h.counts, t, i));
    assert(h.counts[i] != 0);
    if top < i {
        assert(h.counts[i] == 0);
    } else if i < top {
        model::lemma_sum_monotone(h.counts, i + 1, top);
        model::lemma_sum_monotone(h.counts, top + 1, n);
    }
    b.lemma_value_of_index_of(h.max_value);
    b.lemma_sub_bucket(h.max_value);
    b.lemma_equivalents(h.max_value);
    b.lemma_same_range(h.max_value, b.lowest_equivalent(h.max_value) as u64);
    if h.max_value == 0 {
        b.lemma_index_zero();
        vstd::arithmetic::power2::lemma2_to64();
        b.lemma_sizes();
        assert(crate::bits::bit_len(0) == 0);
    }
}

} // verus!
