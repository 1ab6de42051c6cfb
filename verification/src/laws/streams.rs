//! What holds of the bytes of streams.
#[allow(unused_imports)]
use crate::errors::{DecodeError, PackedDeserializeError};
#[allow(unused_imports)]
use crate::geometry::Bounds;
#[allow(unused_imports)]
use crate::model;
#[allow(unused_imports)]
use crate::model::HistogramState;
#[allow(unused_imports)]
use crate::slots;
#[allow(unused_imports)]
use crate::stream;
#[allow(unused_imports)]
use crate::stream::{Origin, RATIO_ONE, V2_COMPRESSED_COOKIE, V2_COOKIE, V2_HEADER_SIZE};
#[allow(unused_imports)]
use crate::varint;
#[allow(unused_imports)]
use crate::wire;
#[allow(unused_imports)]
use crate::zlib;
#[allow(unused_imports)]
use vstd::arithmetic::power2::*;
use vstd::prelude::*;

verus! {

/// The number in the bytes from `i` up to `j`, the most significant one first.
pub open spec fn number(s: Seq<u8>, i: int, j: int) -> nat {
    wire::be_value(s.subrange(i, j))
}

/// The stream starts with the bytes 1C 84 93 and then `last`: 13 where it is not compressed,
/// 14 where it is.
pub open spec fn starts_with(s: Seq<u8>, last: u8) -> bool {
    s.len() >= 4 && s[0] == 0x1c && s[1] == 0x84 && s[2] == 0x93 && s[3] == last
}

proof fn lemma_four_bytes(s: Seq<u8>)
    requires
        s.len() == 4,
    ensures
        wire::be_value(s) == ((s[0] * 256 + s[1]) * 256 + s[2]) * 256 + s[3],
{
    reveal_with_fuel(wire::be_value, 5);
    let a = s.drop_last();
    let b = a.drop_last();
    let c = b.drop_last();
    assert(c.drop_last().len() == 0);
}

proof fn lemma_cookie(s: Seq<u8>)
    requires
        s.len() >= 4,
    ensures
        stream::field(s, 0, 4) == V2_COOKIE <==> starts_with(s, 0x13),
        stream::field(s, 0, 4) == V2_COMPRESSED_COOKIE <==> starts_with(s, 0x14),
{
    lemma_four_bytes(s.subrange(0, 4));
}

/// Fewer than four bytes are no stream, and four others than the two cookies start none.
pub proof fn law_cookies(data: Seq<u8>)
    ensures
        data.len() < 4 ==> stream::decode(data) == Err::<HistogramState, _>(DecodeError::Io),
        data.len() >= 4 && !starts_with(data, 0x13) && !starts_with(data, 0x14) ==> stream::decode(
            data,
        ) == Err::<HistogramState, _>(DecodeError::InvalidCookie),
{
    if data.len() >= 4 {
        lemma_cookie(data);
    }
}

proof fn lemma_plain(data: Seq<u8>)
    requires
        starts_with(data, 0x13),
    ensures
        stream::decode(data) == stream::decode_v2(Origin::Plain(data)),
        data.len() >= 12 ==> {
            &&& stream::field(data.take(12), 8, 12) == number(data, 8, 12)
            &&& stream::field(data.take(12), 4, 8) == number(data, 4, 8)
        },
        data.len() >= 40 ==> stream::header_bounds(data.take(40)) == stream::header_bounds(data),
{
    lemma_cookie(data);
    if data.len() >= 12 {
        assert(data.take(12).subrange(8, 12) =~= data.subrange(8, 12));
        assert(data.take(12).subrange(4, 8) =~= data.subrange(4, 8));
    }
    if data.len() >= 40 {
        let head = data.take(40);
        assert(head.subrange(12, 16) =~= data.subrange(12, 16));
        assert(head.subrange(16, 24) =~= data.subrange(16, 24));
        assert(head.subrange(24, 32) =~= data.subrange(24, 32));
        assert(head.subrange(32, 40) =~= data.subrange(32, 40));
    }
}

/// What is wrong with a header is told in order: an offset in its third four bytes, a ratio
/// other than 1.0 in its last eight, more than five digits or bounds that make no histogram;
/// and where the bytes for the next of these or for the payload are missing, that is told.
pub proof fn law_header_errors(data: Seq<u8>, b: Bounds)
    requires
        starts_with(data, 0x13),
        data.len() >= 40 ==> {
            &&& b.low == number(data, 16, 24)
            &&& b.high == number(data, 24, 32)
            &&& number(data, 12, 16) <= 5 ==> b.sigfig == number(data, 12, 16)
        },
    ensures
        ({
            let r = stream::decode(data);
            let offset = number(data, 8, 12);
            let ratio = number(data, 32, 40);
            let digits = number(data, 12, 16);
            let ok = data.len() >= 40 && offset == 0 && ratio == 0x3FF0_0000_0000_0000;
            &&& data.len() < 12 ==> r == Err::<HistogramState, _>(DecodeError::Io)
            &&& data.len() >= 12 && offset != 0 ==> r == Err::<HistogramState, _>(
                DecodeError::UnsupportedFeature,
            )
            &&& 12 <= data.len() < 40 && offset == 0 ==> r == Err::<HistogramState, _>(
                DecodeError::Io,
            )
            &&& data.len() >= 40 && offset == 0 && ratio != 0x3FF0_0000_0000_0000 ==> r == Err::<
                HistogramState,
                _,
            >(DecodeError::UnsupportedFeature)
            &&& ok && (digits > 5 || !b.valid()) ==> r == Err::<HistogramState, _>(
                DecodeError::InvalidParameters,
            )
            &&& ok && digits <= 5 && b.valid() && data.len() < 40 + number(data, 4, 8) ==> r == Err::<
                HistogramState,
                _,
            >(DecodeError::Io)
        }),
{
    lemma_plain(data);
}

/// The number that stands at byte `at[k]` is `vals[k]`. A negative one steps over as many
/// indices from `dst[k]` on, any other one over that index.
pub open spec fn is_read(
    payload: Seq<u8>,
    vals: Seq<i64>,
    at: Seq<int>,
    dst: Seq<int>,
    k: int,
) -> bool {
    &&& at[k] < payload.len()
    &&& vals[k] == varint::un_zig_zag(varint::number_at(payload, at[k]))
    &&& at[k + 1] == at[k] + varint::size_at(payload, at[k])
    &&& vals[k] < 0 ==> dst[k + 1] == dst[k] - vals[k]
    &&& vals[k] >= 0 ==> dst[k + 1] == dst[k] + 1
}

/// The payload, from its byte `i` on, holds the numbers `vals`. The `k`-th of them stands at
/// byte `at[k]`, and the next count is then that of index `dst[k]`.
pub open spec fn reads_from(
    payload: Seq<u8>,
    i: int,
    d: int,
    vals: Seq<i64>,
    at: Seq<int>,
    dst: Seq<int>,
) -> bool {
    &&& at.len() == vals.len() + 1
    &&& dst.len() == vals.len() + 1
    &&& at[0] == i
    &&& dst[0] == d
    &&& at[vals.len() as int] >= payload.len()
    &&& forall|k: int| 0 <= k < vals.len() ==> #[trigger] is_read(payload, vals, at, dst, k)
}

/// Every payload holds some numbers.
pub proof fn law_payload_can_be_read(payload: Seq<u8>, i: int, d: int) -> (r: (
    Seq<i64>,
    Seq<int>,
    Seq<int>,
))
    ensures
        reads_from(payload, i, d, r.0, r.1, r.2),
    decreases (if i < payload.len() { payload.len() - i } else { 0 }),
{
    if i >= payload.len() {
        (Seq::empty(), seq![i], seq![d])
    } else {
        varint::lemma_read_bound(payload, i);
        let v = varint::un_zig_zag(varint::number_at(payload, i));
        let step: int = if v < 0 {
            -v
        } else {
            1
        };
        let (vals, at, dst) = law_payload_can_be_read(
            payload,
            i + varint::size_at(payload, i),
            d + step,
        );
        let r = (seq![v] + vals, seq![i] + at, seq![d] + dst);
        assert forall|k: int| 0 <= k < r.0.len() implies #[trigger] is_read(
            payload,
            r.0,
            r.1,
            r.2,
            k,
        ) by {
            if k > 0 {
                assert(is_read(payload, vals, at, dst, k - 1));
                assert(r.0[k] == vals[k - 1]);
                assert(r.1[k] == at[k - 1] && r.1[k + 1] == at[k]);
                assert(r.2[k] == dst[k - 1] && r.2[k + 1] == dst[k]);
            } else {
                assert(r.1[1] == at[0] && r.2[1] == dst[0]);
            }
        }
        assert(r.1[r.0.len() as int] == at[vals.len() as int]);
        r
    }
}

/// One of the numbers `vals`, from the `k`-th on, is the count of index `x`.
pub open spec fn gives(vals: Seq<i64>, dst: Seq<int>, k: int, x: int) -> bool {
    exists|j: int| k <= j < vals.len() && vals[j] >= 0 && #[trigger] dst[j] == x
}

proof fn lemma_decoded(
    payload: Seq<u8>,
    vals: Seq<i64>,
    at: Seq<int>,
    dst: Seq<int>,
    k: int,
    acc: Seq<u64>,
)
    requires
        reads_from(payload, 0, 0, vals, at, dst),
        0 <= k <= vals.len(),
        0 <= dst[k] <= acc.len(),
    ensures
        dst[k] <= dst[vals.len() as int],
        match stream::decode_counts(payload, at[k], dst[k] as nat, acc) {
            Some(c) => {
                &&& dst[vals.len() as int] <= acc.len()
                &&& c.len() == acc.len()
                &&& forall|j: int|
                    #![trigger vals[j]]
                    k <= j < vals.len() && vals[j] >= 0 ==> dst[k] <= dst[j] < c.len() && c[dst[j]]
                        == vals[j]
                &&& forall|x: int|
                    0 <= x < acc.len() && !gives(vals, dst, k, x) ==> #[trigger] c[x] == acc[x]
            },
            None => dst[vals.len() as int] > acc.len(),
        },
    decreases vals.len() - k,
{
    if k < vals.len() {
        let v = vals[k];
        assert(is_read(payload, vals, at, dst, k));
        let c = stream::decode_counts(payload, at[k], dst[k] as nat, acc);
        varint::lemma_read_bound(payload, at[k]);
        if v < 0 {
            if dst[k + 1] <= acc.len() {
                lemma_decoded(payload, vals, at, dst, k + 1, acc);
                if let Some(c) = c {
                    assert forall|x: int|
                        0 <= x < acc.len() && !gives(vals, dst, k, x) implies #[trigger] c[x]
                        == acc[x] by {
                        assert(!gives(vals, dst, k + 1, x));
                    }
                }
            } else {
                lemma_steps(payload, vals, at, dst, k + 1);
            }
        } else if dst[k] < acc.len() {
            let next = acc.update(dst[k], v as u64);
            lemma_decoded(payload, vals, at, dst, k + 1, next);
            if let Some(c) = c {
                assert forall|x: int|
                    0 <= x < acc.len() && !gives(vals, dst, k, x) implies #[trigger] c[x]
                    == acc[x] by {
                    assert(!gives(vals, dst, k + 1, x));
                    assert(x != dst[k]);
                }
                assert(!gives(vals, dst, k + 1, dst[k])) by {
                    if gives(vals, dst, k + 1, dst[k]) {
                        let j = choose|j: int|
                            k + 1 <= j < vals.len() && vals[j] >= 0 && #[trigger] dst[j] == dst[k];
                        assert(vals[j] >= 0 && dst[k + 1] <= dst[j]);
                    }
                }
                assert(c[dst[k]] == next[dst[k]]);
                assert forall|j: int|
                    #![trigger vals[j]]
                    k <= j < vals.len() && vals[j] >= 0 implies dst[k] <= dst[j] < c.len()
                    && c[dst[j]] == vals[j] by {}
            }
        } else {
            lemma_steps(payload, vals, at, dst, k + 1);
        }
    }
}

proof fn lemma_steps(payload: Seq<u8>, vals: Seq<i64>, at: Seq<int>, dst: Seq<int>, k: int)
    requires
        reads_from(payload, 0, 0, vals, at, dst),
        0 <= k <= vals.len(),
    ensures
        dst[k] <= dst[vals.len() as int],
    decreases vals.len() - k,
{
    if k < vals.len() {
        assert(is_read(payload, vals, at, dst, k));
        lemma_steps(payload, vals, at, dst, k + 1);
    }
}

/// An uncompressed stream with a right header and its whole payload is a histogram exactly when
/// the numbers of the payload step over or count no more indices than there are. It has the
/// bounds of the header; the counts are the numbers that are not negative, each at the index
/// that it was reached at, and zero at all other indices.
pub proof fn law_payload_is_decoded(
    data: Seq<u8>,
    b: Bounds,
    vals: Seq<i64>,
    at: Seq<int>,
    dst: Seq<int>,
)
    requires
        starts_with(data, 0x13),
        data.len() >= 40,
        data.len() >= 40 + number(data, 4, 8),
        number(data, 8, 12) == 0,
        number(data, 32, 40) == 0x3FF0_0000_0000_0000,
        number(data, 12, 16) == b.sigfig,
        number(data, 16, 24) == b.low,
        number(data, 24, 32) == b.high,
        b.valid(),
        reads_from(data.subrange(40, (40 + number(data, 4, 8)) as int), 0, 0, vals, at, dst),
    ensures
        match stream::decode(data) {
            Ok(h) => {
                &&& dst[vals.len() as int] <= b.counts_len()
                &&& h.bounds == b
                &&& h.counts.len() == b.counts_len()
                &&& forall|k: int|
                    #![trigger vals[k]]
                    0 <= k < vals.len() && vals[k] >= 0 ==> 0 <= dst[k] < h.counts.len()
                        && h.counts[dst[k]] == vals[k]
                &&& forall|x: int|
                    0 <= x < h.counts.len() && !gives(vals, dst, 0, x) ==> #[trigger] h.counts[x]
                        == 0
            },
            Err(e) => e == DecodeError::InvalidParameters && dst[vals.len() as int]
                > b.counts_len(),
        },
{
    lemma_plain(data);
    let n = number(data, 4, 8);
    let payload = data.subrange(40, (40 + n) as int);
    let all = data.take((40 + n) as int);
    assert(Origin::Plain(data).prefix(V2_HEADER_SIZE as nat + n) == Some(all));
    assert(all.subrange(40, all.len() as int) =~= payload);
    b.lemma_sizes();
    assert(stream::header_bounds(data) == Ok::<_, DecodeError>(b));
    lemma_decoded(payload, vals, at, dst, 0, HistogramState::empty(b).counts);
}

/// A histogram that was read has the highest equivalent of its last populated bucket as its
/// highest value.
pub proof fn law_decoded_max(data: Seq<u8>)
    ensures
        stream::decode(data) matches Ok(h) ==> {
            &&& h.wf()
            &&& h.total() > 0 ==> h.bounds.highest_equivalent(h.max() as u64) == h.max()
        },
{
    crate::laws::law_decoded_is_stable(data);
    if let Ok(h) = stream::decode(data) {
        crate::laws::answers::law_extremes(h);
        let b = h.bounds;
        model::lemma_sum_zero(h.counts, h.counts.len() as int);
        if h.total() > 0 && h.max() == 0 {
            assert(h == stream::restored(b, h.counts)) by {
                crate::laws::law_round_trip(h, Seq::empty());
                assert(h.v2_bytes() + Seq::<u8>::empty() =~= h.v2_bytes());
            }
            crate::laws::lemma_outermost(h);
            b.lemma_equivalents(h.max_value);
            assert(h.max_value == 0);
        }
    }
}

/// What a compressed stream is: after its cookie and four bytes of length come at most as many
/// bytes of a zlib stream, of which `s` is what it inflates to before it ends or fails. It is
/// what `s` is, if that is an uncompressed stream.
pub proof fn law_compressed_is_decoded(data: Seq<u8>, s: Seq<u8>)
    requires
        starts_with(data, 0x14),
        s.len() <= isize::MAX,
        data.len() >= 8 ==> ({
            let end: int = if 8 + number(data, 4, 8) <= data.len() {
                (8 + number(data, 4, 8)) as int
            } else {
                data.len() as int
            };
            zlib::inflates_to(data.subrange(8, end), s)
        }),
    ensures
        data.len() < 8 ==> stream::decode(data) == Err::<HistogramState, _>(DecodeError::Io),
        data.len() >= 8 ==> stream::decode(data) == if s.len() < 4 || starts_with(s, 0x13) {
            stream::decode(s)
        } else {
            Err(DecodeError::InvalidCookie)
        },
{
    lemma_cookie(data);
    if data.len() >= 8 {
        let z = stream::zlib_part(data);
        let a = Origin::Zlib(z);
        let p = Origin::Plain(s);
        assert(zlib::inflates_to(z, s));
        assert forall|n: nat| #[trigger] a.prefix(n) == p.prefix(n) by {
            if n <= isize::MAX {
                assert(zlib::inflated(z, n as usize) == if n <= s.len() {
                    Some(s.take(n as int))
                } else {
                    None
                });
            }
        }
        assert(a.prefix(4) == p.prefix(4));
        if s.len() >= 4 {
            lemma_cookie(s);
            assert(s.take(4) =~= s.subrange(0, 4));
            assert(a.prefix(12) == p.prefix(12));
            assert(a.prefix(40) == p.prefix(40));
            assert(stream::decode_v2(a) == stream::decode_v2(p)) by {
                if let Some(lead) = p.prefix(12) {
                    let n = V2_HEADER_SIZE as nat + stream::field(lead, 4, 8);
                    assert(a.prefix(n) == p.prefix(n));
                }
            }
        }
    }
}

/// The bytes of an uncompressed stream: the cookie, the length of the payload, no offset, the
/// digits and the bounds, the ratio 1.0, and the payload.
pub proof fn law_stream_bytes(h: HistogramState)
    requires
        h.wf(),
    ensures
        ({
            let s = h.v2_bytes();
            &&& s.len() == 40 + h.payload().len()
            &&& starts_with(s, 0x13)
            &&& number(s, 4, 8) == h.payload().len()
            &&& number(s, 8, 12) == 0
            &&& number(s, 12, 16) == h.bounds.sigfig
            &&& number(s, 16, 24) == h.bounds.low
            &&& number(s, 24, 32) == h.bounds.high
            &&& number(s, 32, 40) == 0x3FF0_0000_0000_0000
            &&& s.subrange(40, s.len() as int) == h.payload()
        }),
{
    let s = h.v2_bytes();
    let b = h.bounds;
    let n = h.payload().len();
    let head = stream::header(b, n);
    b.lemma_sizes();
    stream::lemma_payload_len(h.counts, 0, b.index_of(h.max_value) as int);
    stream::lemma_header(b, n);
    reveal_with_fuel(slots::pow256, 9);
    wire::lemma_be_round_trip(V2_COOKIE as nat, 4);
    wire::lemma_be_round_trip(n, 4);
    wire::lemma_be_round_trip(0, 4);
    wire::lemma_be_round_trip(b.sigfig as nat, 4);
    wire::lemma_be_round_trip(b.low as nat, 8);
    wire::lemma_be_round_trip(b.high as nat, 8);
    wire::lemma_be_round_trip(RATIO_ONE as nat, 8);
    assert(s.subrange(0, 4) =~= head.subrange(0, 4));
    assert(s.subrange(4, 8) =~= head.subrange(4, 8));
    assert(s.subrange(8, 12) =~= head.subrange(8, 12));
    assert(s.subrange(12, 16) =~= head.subrange(12, 16));
    assert(s.subrange(16, 24) =~= head.subrange(16, 24));
    assert(s.subrange(24, 32) =~= head.subrange(24, 32));
    assert(s.subrange(32, 40) =~= head.subrange(32, 40));
    assert(s.subrange(40, s.len() as int) =~= h.payload());
    lemma_cookie(s);
}

/// The bytes from `at[k]` on are those of the number `vals[k]`. It is the count of index
/// `dst[k]`, or minus the length of a run of two or more zeros from there on. A run goes on for
/// as long as there are zeros.
pub open spec fn is_written(
    p: Seq<u8>,
    limit: int,
    counts: Seq<u64>,
    vals: Seq<i64>,
    at: Seq<int>,
    dst: Seq<int>,
    k: int,
) -> bool {
    &&& 0 <= at[k] < at[k + 1] <= p.len()
    &&& 0 <= dst[k] < dst[k + 1] <= limit + 1
    &&& p.subrange(at[k], at[k + 1]) == varint::varint(varint::zig_zag(vals[k]))
    &&& vals[k] >= 0 ==> dst[k + 1] == dst[k] + 1 && counts[dst[k]] == vals[k]
    &&& vals[k] < 0 ==> {
        &&& vals[k] <= -2
        &&& dst[k + 1] == dst[k] - vals[k]
        &&& forall|x: int| dst[k] <= x < dst[k + 1] ==> #[trigger] counts[x] == 0
    }
    &&& vals[k] <= 0 && dst[k + 1] <= limit ==> counts[dst[k + 1]] != 0
}

/// The payload `p` from its byte `i` on, and from index `d` on up to `limit`, is made of the
/// bytes of the numbers `vals`, the `k`-th of them from byte `at[k]` on for index `dst[k]`.
pub open spec fn written_from(
    p: Seq<u8>,
    i: int,
    d: int,
    limit: int,
    counts: Seq<u64>,
    vals: Seq<i64>,
    at: Seq<int>,
    dst: Seq<int>,
) -> bool {
    &&& at.len() == vals.len() + 1
    &&& dst.len() == vals.len() + 1
    &&& at[0] == i
    &&& dst[0] == d
    &&& at[vals.len() as int] == p.len()
    &&& dst[vals.len() as int] == limit + 1
    &&& forall|k: int|
        0 <= k < vals.len() ==> #[trigger] is_written(p, limit, counts, vals, at, dst, k)
}

proof fn lemma_written(p: Seq<u8>, i: int, d: int, limit: int, counts: Seq<u64>) -> (r: (
    Seq<i64>,
    Seq<int>,
    Seq<int>,
))
    requires
        0 <= i <= p.len(),
        0 <= d <= limit + 1 <= counts.len() <= i64::MAX,
        forall|x: int| 0 <= x < counts.len() ==> #[trigger] counts[x] <= i64::MAX,
        p.subrange(i, p.len() as int) == stream::payload_from(counts, d, limit),
    ensures
        written_from(p, i, d, limit, counts, r.0, r.1, r.2),
    decreases limit - d + 1,
{
    let tail = p.subrange(i, p.len() as int);
    if d > limit {
        assert(tail.len() == 0);
        (Seq::empty(), seq![i], seq![d])
    } else {
        stream::lemma_zero_run(counts, d, limit);
        let run: int = stream::zero_run(counts, d, limit) as int;
        let (n, next) = if run > 1 {
            (-run, d + run)
        } else {
            (counts[d] as int, d + 1)
        };
        let e = stream::entry(n);
        let rest = stream::payload_from(counts, next, limit);
        varint::lemma_write_bound(varint::zig_zag(n as i64));
        assert(tail == e + rest);
        let after: int = i + e.len();
        assert(p.subrange(i, after) =~= e) by {
            assert forall|j: int| 0 <= j < e.len() implies p.subrange(i, after)[j] == e[j] by {
                assert(tail[j] == p[i + j]);
            }
        }
        assert(p.subrange(after, p.len() as int) =~= rest) by {
            assert forall|j: int| 0 <= j < rest.len() implies p.subrange(after, p.len() as int)[j]
                == rest[j] by {
                assert(tail[e.len() + j] == p[after + j]);
            }
        }
        let (vals, at, dst) = lemma_written(p, after, next, limit, counts);
        let r = (seq![n as i64] + vals, seq![i] + at, seq![d] + dst);
        assert forall|k: int| 0 <= k < r.0.len() implies #[trigger] is_written(
            p,
            limit,
            counts,
            r.0,
            r.1,
            r.2,
            k,
        ) by {
            if k > 0 {
                assert(is_written(p, limit, counts, vals, at, dst, k - 1));
                assert(r.0[k] == vals[k - 1]);
                assert(r.1[k] == at[k - 1] && r.1[k + 1] == at[k]);
                assert(r.2[k] == dst[k - 1] && r.2[k + 1] == dst[k]);
            } else {
                assert(r.1[1] == at[0] && r.2[1] == dst[0]);
            }
        }
        assert(r.1[r.0.len() as int] == at[vals.len() as int]);
        assert(r.2[r.0.len() as int] == dst[vals.len() as int]);
        r
    }
}

/// The payload of a histogram is made of the counts of all indices up to that of its highest
/// value, in order, with two or more zeros in a row written as one negative number.
pub proof fn law_payload_is_written(h: HistogramState) -> (r: (Seq<i64>, Seq<int>, Seq<int>))
    requires
        h.wf(),
        h.serializable(),
    ensures
        written_from(
            h.payload(),
            0,
            0,
            h.bounds.index_of(h.max() as u64) as int,
            h.counts,
            r.0,
            r.1,
            r.2,
        ),
{
    let b = h.bounds;
    let p = h.payload();
    b.lemma_sizes();
    b.lemma_equivalents(h.max_value);
    assert(p.subrange(0, p.len() as int) =~= p);
    lemma_written(p, 0, 0, b.index_of(h.max_value) as int, h.counts)
}

/// A histogram can be written exactly when every count is below two to the 63rd.
pub proof fn law_serializable(h: HistogramState)
    ensures
        h.serializable() <==> (forall|i: int|
            0 <= i < h.counts.len() ==> #[trigger] h.counts[i] < pow2(63)),
{
    lemma2_to64();
    lemma2_to64_rest();
}

/// The bytes of a compressed stream: the cookie, the length of the zlib stream, as far as it
/// fits in four bytes, and that stream.
pub proof fn law_compressed_bytes(z: Seq<u8>)
    ensures
        ({
            let s = stream::compressed_stream(z);
            &&& s.len() == 8 + z.len()
            &&& starts_with(s, 0x14)
            &&& number(s, 4, 8) == z.len() % pow2(32)
            &&& s.subrange(8, s.len() as int) == z
        }),
{
    let s = stream::compressed_stream(z);
    let n: nat = z.len() % 0x1_0000_0000;
    reveal_with_fuel(slots::pow256, 5);
    lemma2_to64();
    wire::lemma_be_len(V2_COMPRESSED_COOKIE as nat, 4);
    wire::lemma_be_len(n, 4);
    wire::lemma_be_round_trip(V2_COMPRESSED_COOKIE as nat, 4);
    wire::lemma_be_round_trip(n, 4);
    assert(s.subrange(0, 4) =~= wire::be_bytes(V2_COMPRESSED_COOKIE as nat, 4));
    assert(s.subrange(4, 8) =~= wire::be_bytes(n, 4));
    assert(s.subrange(8, s.len() as int) =~= z);
    lemma_cookie(s);
}

/// More bytes are wanted of what is no compressed stream exactly when it is too short to be
/// told, and with fewer than are wanted it stays so.
pub proof fn law_wanted_until_told(prefix: Seq<u8>, rest: Seq<u8>)
    requires
        !starts_with(prefix, 0x14),
    ensures
        stream::wanted(prefix) is Some <==> stream::decode(prefix) == Err::<HistogramState, _>(
            DecodeError::Io,
        ),
        prefix.len() >= 4 ==> (stream::wanted(prefix) matches Some(n) ==> prefix.len() + rest.len()
            < n ==> stream::decode(prefix + rest) == Err::<HistogramState, _>(DecodeError::Io)),
        prefix.len() < 4 ==> stream::wanted(prefix) == Some(4nat),
{
    if prefix.len() >= 4 {
        lemma_cookie(prefix);
        if starts_with(prefix, 0x13) {
            lemma_plain(prefix);
            let data = prefix + rest;
            lemma_plain(data);
            if prefix.len() >= 12 {
                assert(data.subrange(4, 8) =~= prefix.subrange(4, 8));
                assert(data.subrange(8, 12) =~= prefix.subrange(8, 12));
            }
            if prefix.len() >= 40 {
                assert(data.subrange(12, 16) =~= prefix.subrange(12, 16));
                assert(data.subrange(16, 24) =~= prefix.subrange(16, 24));
                assert(data.subrange(24, 32) =~= prefix.subrange(24, 32));
                assert(data.subrange(32, 40) =~= prefix.subrange(32, 40));
            }
        }
    }
}

/// Of an uncompressed stream first the payload's length and the offset are wanted, then the
/// header, and then as much as the length says, as long as nothing is wrong with it.
pub proof fn law_wanted_of_uncompressed(prefix: Seq<u8>)
    requires
        starts_with(prefix, 0x13),
    ensures
        prefix.len() < 12 ==> stream::wanted(prefix) == Some(12nat),
        12 <= prefix.len() < 40 && number(prefix, 8, 12) == 0 ==> stream::wanted(prefix) == Some(
            40nat,
        ),
        prefix.len() >= 40 && stream::wanted(prefix) is Some ==> stream::wanted(prefix) == Some(
            40 + number(prefix, 4, 8),
        ),
{
    lemma_cookie(prefix);
}

/// Of a compressed stream first the length is wanted, and then as much as that says.
pub proof fn law_wanted_of_compressed(prefix: Seq<u8>)
    requires
        starts_with(prefix, 0x14),
    ensures
        prefix.len() < 8 ==> stream::wanted(prefix) == Some(8nat),
        prefix.len() >= 8 && prefix.len() < 8 + number(prefix, 4, 8) ==> stream::wanted(prefix)
            == Some(8 + number(prefix, 4, 8)),
        prefix.len() >= 8 && prefix.len() >= 8 + number(prefix, 4, 8) ==> stream::wanted(prefix)
            is None,
{
    lemma_cookie(prefix);
}

/// Each error is told as what it is.
pub proof fn law_errors_are_told(e: PackedDeserializeError)
    ensures
        e is InvalidCookie <==> e@ is InvalidCookie,
        e is UnsupportedFeature <==> e@ is UnsupportedFeature,
        e is InvalidParameters <==> e@ is InvalidParameters,
        e is Io <==> e@ is Io,
{
}

/// The first bytes of a source are those of the plain bytes, as long as there are as many, or
/// those that it inflates to.
pub proof fn law_source_prefix(data: Seq<u8>, n: nat)
    ensures
        Origin::Plain(data).prefix(n) is Some <==> n <= data.len(),
        Origin::Plain(data).prefix(n) matches Some(p) ==> p == data.subrange(0, n as int),
        n <= isize::MAX ==> Origin::Zlib(data).prefix(n) == zlib::inflated(data, n as usize),
        n > isize::MAX ==> Origin::Zlib(data).prefix(n) is None,
{
    if n <= data.len() {
        assert(data.take(n as int) =~= data.subrange(0, n as int));
    }
}

} // verus!
