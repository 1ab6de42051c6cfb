//! V2 streams of sparse histograms.
use super::PackedHistogram;
#[allow(unused_imports)]
use crate::errors::DecodeError;
use crate::errors::{PackedDeserializeError, PackedSerializeError};
#[allow(unused_imports)]
use crate::model::HistogramState;
#[allow(unused_imports)]
use crate::stream;
use crate::stream::{
    Source, RATIO_ONE, V2_COMPRESSED_COOKIE, V2_COMPRESSED_HEADER_SIZE, V2_COOKIE, V2_HEADER_SIZE,
};
#[allow(unused_imports)]
use crate::laws;
#[allow(unused_imports)]
use crate::model;
#[allow(unused_imports)]
use crate::sparse;
use crate::varint;
use crate::wire;
use crate::zlib;
use vstd::prelude::*;
use vstd::slice::slice_subrange;

verus! {

/// Append `bytes` to `buf`.
fn append(buf: &mut Vec<u8>, bytes: &[u8])
    ensures
        final(buf)@ == old(buf)@ + bytes@,
{
    buf.extend_from_slice(bytes);
    assert(buf@ =~= old(buf)@ + bytes@);
}

impl PackedHistogram {
    /// Serialize into the standard uncompressed V2 format: the stream is appended to
    /// `writer`. Returns its length.
    pub fn serialize_v2(&self, writer: &mut Vec<u8>) -> (r: Result<usize, PackedSerializeError>)
        requires
            self.wf(),
        ensures
            match r {
                Ok(n) => {
                    &&& self@.serializable()
                    &&& final(writer)@ == old(writer)@ + self@.v2_bytes()
                    &&& n == self@.v2_bytes().len()
                    &&& stream::decode(self@.v2_bytes()) == Ok::<_, DecodeError>(
                        stream::restored(self@.bounds, self@.counts),
                    )
                },
                Err(e) => {
                    &&& !self@.serializable()
                    &&& e is CountNotSerializable
                    &&& final(writer)@ == old(writer)@
                },
            },
    {
        let buf = match self.to_v2_bytes() {
            Ok(buf) => buf,
            Err(e) => return Err(e),
        };
        append(writer, buf.as_slice());
        proof {
            laws::law_round_trip(self@, Seq::empty());
            assert(self@.v2_bytes() + Seq::<u8>::empty() =~= self@.v2_bytes());
        }
        Ok(buf.len())
    }

    /// Serialize into the standard V2 + DEFLATE format: the stream is appended to `writer`.
    /// Returns its length.
    pub fn serialize_v2_deflate(&self, writer: &mut Vec<u8>) -> (r: Result<
        usize,
        PackedSerializeError,
    >)
        requires
            self.wf(),
        ensures
            match r {
                Ok(n) => {
                    &&& self@.serializable()
                    &&& zlib::deflated(self@.v2_bytes()) matches Some(z)
                    &&& zlib::compresses(z, self@.v2_bytes())
                    &&& z.len() <= u32::MAX
                    &&& final(writer)@ == old(writer)@ + stream::compressed_stream(z)
                    &&& n == stream::compressed_stream(z).len()
                    &&& stream::decode(stream::compressed_stream(z)) == Ok::<_, DecodeError>(
                        stream::restored(self@.bounds, self@.counts),
                    )
                },
                Err(PackedSerializeError::CountNotSerializable) => {
                    &&& !self@.serializable()
                    &&& final(writer)@ == old(writer)@
                },
                Err(PackedSerializeError::Io(_)) => {
                    &&& self@.serializable()
                    &&& zlib::deflated(self@.v2_bytes()) is None
                    &&& final(writer)@ == old(writer)@
                },
            },
    {
        let uncompressed = match self.to_v2_bytes() {
            Ok(buf) => buf,
            Err(e) => return Err(e),
        };
        let compressed = match zlib::deflate(uncompressed.as_slice()) {
            Ok(z) => z,
            Err(e) => return Err(PackedSerializeError::from(e)),
        };
        let out = stream::compress_frame(compressed.as_slice());
        append(writer, out.as_slice());
        proof {
            let z = compressed@;
            laws::law_round_trip(self@, Seq::empty());
            laws::law_compressed_round_trip(self@, z, Seq::empty());
            assert(self@.v2_bytes() + Seq::<u8>::empty() =~= self@.v2_bytes());
            assert(stream::compressed_stream(z) + Seq::<u8>::empty() =~= stream::compressed_stream(
                z,
            ));
        }
        Ok(out.len())
    }

    /// The uncompressed stream.
    fn to_v2_bytes(&self) -> (r: Result<Vec<u8>, PackedSerializeError>)
        requires
            self.wf(),
        ensures
            match r {
                Ok(buf) => self@.serializable() && buf@ == self@.v2_bytes(),
                Err(e) => !self@.serializable() && e is CountNotSerializable,
            },
    {
        let mut buf: Vec<u8> = Vec::new();
        append(&mut buf, wire::u32_bytes(V2_COOKIE).as_slice());
        // the payload length is put here when it is known
        append(&mut buf, wire::u32_bytes(0).as_slice());
        // normalizing index offset
        append(&mut buf, wire::u32_bytes(0).as_slice());
        append(&mut buf, wire::u32_bytes(self.geom.sigfig() as u32).as_slice());
        append(&mut buf, wire::u64_bytes(self.geom.low()).as_slice());
        append(&mut buf, wire::u64_bytes(self.geom.high()).as_slice());
        append(&mut buf, wire::u64_bytes(RATIO_ONE).as_slice());
        let ghost b = self.geom@;
        proof {
            stream::lemma_header(b, 0);
            assert(buf@ =~= stream::header(b, 0));
        }
        let payload_len: usize = match self.encode_counts_into(&mut buf) {
            Ok(n) => n,
            Err(e) => return Err(e),
        };
        proof {
            self.lemma_payload_len();
        }
        let len_bytes = wire::u32_bytes(payload_len as u32);
        proof {
            wire::lemma_be_len(payload_len as nat, 4);
        }
        buf[4] = len_bytes[0];
        buf[5] = len_bytes[1];
        buf[6] = len_bytes[2];
        buf[7] = len_bytes[3];
        proof {
            stream::lemma_header(b, payload_len as nat);
            stream::lemma_header_patch(b, payload_len as nat);
            assert(buf@ =~= self@.v2_bytes());
        }
        Ok(buf)
    }

    /// Append the payload to `buf`: runs of zeros and zig-zag folded counts, straight from
    /// the sparse backing. Returns its length.
    fn encode_counts_into(&self, buf: &mut Vec<u8>) -> (r: Result<usize, PackedSerializeError>)
        requires
            self.wf(),
        ensures
            match r {
                Ok(n) => {
                    &&& self@.serializable()
                    &&& final(buf)@ == old(buf)@ + self@.payload()
                    &&& n == self@.payload().len()
                },
                Err(e) => !self@.serializable() && e is CountNotSerializable,
            },
    {
        let index_limit: usize = self.geom.index_for(self.max());
        let ghost counts = self.counts();
        let ghost limit = index_limit as int;
        proof {
            self.lemma_store();
            if self.max_value != 0 {
                self.geom@.lemma_equivalents(self.max_value);
            }
            self.lemma_payload_len();
            assert(limit == self@.bounds.index_of(self.max_value));
        }
        let start: usize = buf.len();
        // cursor over the populated indices
        let mut j: usize = 0;
        let mut index: usize = 0;
        while index <= index_limit
            invariant
                self.wf(),
                counts == self.counts(),
                limit == index_limit,
                index_limit < self.counts_len <= 0x82_0000,
                counts.len() == self.counts_len,
                index <= index_limit + 1,
                j <= self.idx@.len(),
                forall|q: int| 0 <= q < j ==> #[trigger] self.idx@[q] < index,
                forall|i: int| 0 <= i < index ==> #[trigger] counts[i] <= i64::MAX,
                buf@ + stream::payload_from(counts, index as int, limit) == old(buf)@
                    + stream::payload_from(counts, 0, limit),
            decreases index_limit + 1 - index,
        {
            let ghost first = index as int;
            let ghost before = buf@;
            let count: u64 = self.count_at_flat(index, &mut j);
            index = index + 1;
            let mut zero_count: i64 = 0;
            if count == 0 {
                zero_count = 1;
                let mut more: bool = index <= index_limit && self.count_at_flat(index, &mut j) == 0;
                while more
                    invariant
                        self.wf(),
                        counts == self.counts(),
                        limit == index_limit,
                        index_limit < self.counts_len <= 0x82_0000,
                        counts.len() == self.counts_len,
                        0 <= first < index <= index_limit + 1,
                        zero_count == index - first,
                        j <= self.idx@.len(),
                        forall|q: int| 0 <= q < j ==> #[trigger] self.idx@[q] < index,
                        forall|i: int| first <= i < index ==> #[trigger] counts[i] == 0,
                        more <==> index <= index_limit && counts[index as int] == 0,
                    decreases index_limit + 1 - index,
                {
                    zero_count = zero_count + 1;
                    index = index + 1;
                    more = index <= index_limit && self.count_at_flat(index, &mut j) == 0;
                }
            }
            proof {
                stream::lemma_zero_run(counts, first, limit);
                let run: int = stream::zero_run(counts, first, limit) as int;
                assert(counts[first] == count);
                if count == 0 {
                    assert(run == zero_count) by {
                        if run < zero_count {
                            assert(counts[first + run] == 0);
                        } else if run > zero_count {
                            assert(counts[index as int] == 0);
                        }
                    }
                }
            }
            let count_or_zeros: i64 = if zero_count > 1 {
                -zero_count
            } else if count > i64::MAX as u64 {
                assert(!self@.serializable()) by {
                    assert(self@.counts[first] > i64::MAX);
                }
                return Err(PackedSerializeError::CountNotSerializable);
            } else {
                count as i64
            };
            varint::varint_write(varint::zig_zag_encode(count_or_zeros), buf);
            proof {
                assert(before + stream::payload_from(counts, first, limit) =~= buf@
                    + stream::payload_from(counts, index as int, limit));
            }
        }
        proof {
            assert(buf@ =~= old(buf)@ + self@.payload());
            assert forall|i: int| 0 <= i < self@.counts.len() implies #[trigger] self@.counts[i]
                <= i64::MAX by {
                if i > limit {
                    assert(self@.counts[i] == 0);
                }
            }
        }
        Ok(buf.len() - start)
    }

    /// Count at flat index `src`, advancing the cursor `j` over the populated indices.
    fn count_at_flat(&self, src: usize, j: &mut usize) -> (r: u64)
        requires
            self.wf(),
            src < self.counts_len,
            *old(j) <= self.idx@.len(),
            forall|q: int| 0 <= q < *old(j) ==> #[trigger] self.idx@[q] < src,
        ensures
            r == self.counts()[src as int],
            *old(j) <= *final(j) <= self.idx@.len(),
            forall|q: int| 0 <= q < *final(j) ==> #[trigger] self.idx@[q] < src,
            *final(j) < self.idx@.len() ==> self.idx@[*final(j) as int] >= src,
    {
        while *j < self.idx.len() && (self.idx[*j] as usize) < src
            invariant
                *old(j) <= *j <= self.idx@.len(),
                forall|q: int| 0 <= q < *j ==> #[trigger] self.idx@[q] < src,
            decreases self.idx@.len() - *j,
        {
            *j = *j + 1;
        }
        proof {
            let p: int = *j as int;
            assert(sparse::parts_at(self.idx@, src as int, p)) by {
                assert forall|q: int| p <= q < self.idx@.len() implies #[trigger] self.idx@[q]
                    >= src by {
                    if q > p {
                        assert(self.idx@[p] < self.idx@[q]);
                    }
                }
            }
            sparse::lemma_parted(self.idx@, self.cnt@, self.counts_len as nat, src as int, p);
            assert(self.counts()[src as int] == sparse::sparse_count(
                self.idx@,
                self.cnt@,
                src as int,
            ));
        }
        if *j < self.idx.len() && self.idx[*j] as usize == src {
            self.cnt.get(*j)
        } else {
            0
        }
    }

    /// Deserialize the standard V2 stream (compressed or not) with which `data` starts into a
    /// new packed histogram.
    pub fn deserialize(data: &[u8]) -> (r: Result<Self, PackedDeserializeError>)
        ensures
            match r {
                Ok(h) => h.wf() && stream::decode(data@) == Ok::<_, DecodeError>(h@),
                Err(e) => stream::decode(data@) == Err::<HistogramState, _>(e@),
            },
    {
        if data.len() < 4 {
            return Err(PackedDeserializeError::from(wire::unexpected_eof()));
        }
        let cookie: u32 = stream::field_u32(data, 0);
        if cookie == V2_COOKIE {
            Self::deser_v2(&Source::Plain(data))
        } else if cookie == V2_COMPRESSED_COOKIE {
            if data.len() < V2_COMPRESSED_HEADER_SIZE {
                return Err(PackedDeserializeError::from(wire::unexpected_eof()));
            }
            let len: u64 = stream::field_u32(data, 4) as u64;
            let end: usize = if len <= (data.len() - V2_COMPRESSED_HEADER_SIZE) as u64 {
                V2_COMPRESSED_HEADER_SIZE + len as usize
            } else {
                data.len()
            };
            let source = Source::Zlib(slice_subrange(data, V2_COMPRESSED_HEADER_SIZE, end));
            let inner = match source.prefix(4) {
                Ok(inner) => inner,
                Err(e) => return Err(PackedDeserializeError::from(e)),
            };
            assert(inner@.subrange(0, 4) =~= inner@);
            if stream::field_u32(inner.as_slice(), 0) != V2_COOKIE {
                return Err(PackedDeserializeError::InvalidCookie);
            }
            Self::deser_v2(&source)
        } else {
            Err(PackedDeserializeError::InvalidCookie)
        }
    }

    /// Deserialize an uncompressed stream whose cookie is the right one.
    fn deser_v2(source: &Source) -> (r: Result<Self, PackedDeserializeError>)
        ensures
            match r {
                Ok(h) => h.wf() && stream::decode_v2(source@) == Ok::<_, DecodeError>(h@),
                Err(e) => stream::decode_v2(source@) == Err::<HistogramState, _>(e@),
            },
    {
        let lead = match source.prefix(12) {
            Ok(lead) => lead,
            Err(e) => return Err(PackedDeserializeError::from(e)),
        };
        let payload_len: u32 = stream::field_u32(lead.as_slice(), 4);
        if stream::field_u32(lead.as_slice(), 8) != 0 {
            return Err(PackedDeserializeError::UnsupportedFeature);
        }
        let head = match source.prefix(V2_HEADER_SIZE as u64) {
            Ok(head) => head,
            Err(e) => return Err(PackedDeserializeError::from(e)),
        };
        let bounds = match stream::read_bounds(head.as_slice()) {
            Ok(bounds) => bounds,
            Err(e) => return Err(e),
        };
        let mut p = match PackedHistogram::new_with_bounds(bounds.low, bounds.high, bounds.sigfig) {
            Ok(p) => p,
            Err(_) => return Err(PackedDeserializeError::InvalidParameters),
        };
        let all = match source.prefix(V2_HEADER_SIZE as u64 + payload_len as u64) {
            Ok(all) => all,
            Err(e) => return Err(PackedDeserializeError::from(e)),
        };
        let payload = slice_subrange(all.as_slice(), V2_HEADER_SIZE, all.len());
        if !p.decode_counts_from(payload) {
            return Err(PackedDeserializeError::InvalidParameters);
        }
        p.restore_extremes();
        Ok(p)
    }

    /// Fill an empty histogram with the counts that `payload` gives. Returns whether they all
    /// lie within its range.
    fn decode_counts_from(&mut self, payload: &[u8]) -> (r: bool)
        requires
            old(self).wf(),
            old(self)@ == HistogramState::empty(old(self)@.bounds),
        ensures
            final(self).store_wf(),
            final(self).geom == old(self).geom,
            final(self).counts_len == old(self).counts_len,
            final(self).max_value == old(self).max_value,
            final(self).min_non_zero_value == old(self).min_non_zero_value,
            r ==> {
                &&& stream::decode_counts(payload@, 0, 0, old(self)@.counts) == Some(
                    final(self).counts(),
                )
                &&& final(self).total_count == final(self)@.total()
            },
            !r ==> stream::decode_counts(payload@, 0, 0, old(self)@.counts) is None,
    {
        let ghost n = self.counts_len as int;
        let mut i: usize = 0;
        let mut dst: usize = 0;
        let mut total: u64 = 0;
        proof {
            self.lemma_store();
            model::lemma_sum_zero(self.counts(), n);
        }
        while i < payload.len()
            invariant
                self.store_wf(),
                n == self.counts_len,
                self.geom == old(self).geom,
                self.counts_len == old(self).counts_len,
                self.max_value == old(self).max_value,
                self.min_non_zero_value == old(self).min_non_zero_value,
                self.counts().len() == n,
                n <= 0x82_0000,
                dst <= self.counts_len,
                forall|k: int| dst <= k < n ==> #[trigger] self.counts()[k] == 0,
                total == model::saturate(model::sum_to(self.counts(), n)),
                stream::decode_counts(payload@, 0, 0, old(self)@.counts) == stream::decode_counts(
                    payload@,
                    i as int,
                    dst as nat,
                    self.counts(),
                ),
            decreases if i < payload@.len() { payload@.len() - i } else { 0 },
        {
            let (zz, size) = varint::varint_read(payload, i);
            let ghost at = i as int;
            proof {
                varint::lemma_read_bound(payload@, i as int);
            }
            let val: i64 = varint::zig_zag_decode(zz);
            if val < 0 {
                let skip: u64 = (-(val + 1)) as u64 + 1;
                if skip > (self.counts_len - dst) as u64 {
                    return false;
                }
                dst = dst + skip as usize;
            } else {
                if dst >= self.counts_len {
                    return false;
                }
                let ghost before = self.counts();
                if val != 0 {
                    proof {
                        model::lemma_total_update(before, dst as int, val as u64);
                    }
                    self.sparse_add(dst as u32, val as u64);
                    total = total.saturating_add(val as u64);
                }
                assert(self.counts() =~= before.update(dst as int, val as u64));
                dst = dst + 1;
            }
            if size >= payload.len() - i {
                i = payload.len();
                proof {
                    let next: int = at + varint::size_at(payload@, at);
                    assert(next >= payload@.len());
                    assert(stream::decode_counts(payload@, next, dst as nat, self.counts()) == Some(
                        self.counts(),
                    ));
                }
            } else {
                i = i + size;
            }
        }
        self.total_count = total;
        true
    }

    /// Tell the extremes from the populated indices.
    fn restore_extremes(&mut self)
        requires
            old(self).store_wf(),
            old(self).total_count == old(self)@.total(),
            old(self).max_value == 0,
            old(self).min_non_zero_value == u64::MAX,
        ensures
            final(self).wf(),
            final(self)@ == stream::restored(old(self)@.bounds, old(self)@.counts),
    {
        let n: usize = self.idx.len();
        proof {
            self.lemma_store();
        }
        if n > 0 {
            let last: u32 = self.idx[n - 1];
            self.max_value = self.geom.highest_equivalent(self.geom.value_for(last as usize));
            let first: usize = if self.idx[0] == 0 {
                1
            } else {
                0
            };
            if first < n {
                self.min_non_zero_value = self.geom.value_for(self.idx[first] as usize);
            }
        }
        proof {
            self.lemma_extremes();
        }
    }

    /// A store whose extremes were told from its indices is a histogram.
    proof fn lemma_extremes(&self)
        requires
            self.store_wf(),
            self.total_count == self@.total(),
            self.idx@.len() == 0 ==> self.max_value == 0,
            self.idx@.len() > 0 ==> self.max_value == self.geom@.highest_equivalent(
                self.geom@.value_of(self.idx@[self.idx@.len() - 1] as nat) as u64,
            ),
            ({
                let first: int = if self.idx@.len() > 0 && self.idx@[0] == 0 {
                    1
                } else {
                    0
                };
                self.min_non_zero_value == if first < self.idx@.len() {
                    self.geom@.value_of(self.idx@[first] as nat)
                } else {
                    u64::MAX as nat
                }
            }),
        ensures
            self.wf(),
            self@ == stream::restored(self@.bounds, self@.counts),
    {
        let idx = self.idx@;
        let n = self.counts_len as nat;
        let counts = self.counts();
        let b = self.geom@;
        self.lemma_store();
        b.lemma_index_zero();
        if idx.len() == 0 {
            assert(self@.wf());
            assert(!(exists|i: int| stream::is_last(counts, i)));
            assert(!(exists|i: int| stream::is_first_above_zero(counts, i)));
        } else {
            let last: int = idx[idx.len() - 1] as int;
            b.lemma_index_of_value_of(last as nat);
            b.lemma_equivalents(b.value_of(last as nat) as u64);
            assert(stream::is_last(counts, last)) by {
                sparse::lemma_present(idx, self.cnt@, n, idx.len() - 1);
                assert forall|j: int| last < j < counts.len() implies #[trigger] counts[j] == 0 by {
                    assert(sparse::parts_at(idx, j, idx.len() as int)) by {
                        assert forall|q: int| 0 <= q < idx.len() implies #[trigger] idx[q] < j by {
                            if q < idx.len() - 1 {
                                assert(idx[q] < idx[idx.len() - 1]);
                            }
                        }
                    }
                    sparse::lemma_parted(idx, self.cnt@, n, j, idx.len() as int);
                }
            }
            let c = choose|i: int| stream::is_last(counts, i);
            assert(c == last) by {
                if c < last {
                    assert(counts[last] == 0);
                } else if last < c {
                    assert(counts[c] == 0);
                }
            }
            sparse::lemma_parted(idx, self.cnt@, n, 0, 0);
            assert(counts[0] == sparse::sparse_count(idx, self.cnt@, 0));
            let first: int = if idx[0] == 0 {
                1
            } else {
                0
            };
            if first < idx.len() {
                let f: int = idx[first] as int;
                assert(f > 0) by {
                    if first == 1 {
                        assert(idx[0] < idx[1]);
                    }
                }
                b.lemma_index_of_value_of(f as nat);
                assert(stream::is_first_above_zero(counts, f)) by {
                    sparse::lemma_present(idx, self.cnt@, n, first);
                    assert forall|j: int| 0 < j < f implies #[trigger] counts[j] == 0 by {
                        assert(sparse::parts_at(idx, j, first)) by {
                            assert forall|q: int| first <= q < idx.len() implies #[trigger] idx[q]
                                >= j by {
                                if q > first {
                                    assert(idx[first] < idx[q]);
                                }
                            }
                        }
                        sparse::lemma_parted(idx, self.cnt@, n, j, first);
                    }
                }
                let d = choose|i: int| stream::is_first_above_zero(counts, i);
                assert(d == f) by {
                    if d < f {
                        assert(counts[d] == 0);
                    } else if f < d {
                        assert(counts[f] == 0);
                    }
                }
            } else {
                assert(idx.len() == 1 && last == 0);
                assert(!(exists|i: int| stream::is_first_above_zero(counts, i))) by {
                    if exists|i: int| stream::is_first_above_zero(counts, i) {
                        let d = choose|i: int| stream::is_first_above_zero(counts, i);
                        assert(counts[d] == 0);
                    }
                }
            }
        }
    }

    /// The payload of a histogram is short enough for its length to be written down.
    proof fn lemma_payload_len(&self)
        requires
            self.wf(),
        ensures
            self@.payload().len() <= 9 * 0x82_0000,
            self@.bounds.index_of(self@.max_value) < self.counts_len,
    {
        self.lemma_store();
        let limit: int = self@.bounds.index_of(self@.max_value) as int;
        stream::lemma_payload_len(self@.counts, 0, limit);
    }
}

} // verus!
