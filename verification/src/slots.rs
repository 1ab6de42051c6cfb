//! An array of counts that keeps each of them in as few bytes as the largest one needs.
use crate::memory;
use vstd::prelude::*;

verus! {

/// The `n`-th power of 256: how many numbers `n` bytes tell apart.
pub open spec fn pow256(n: nat) -> nat
    decreases n,
{
    if n == 0 {
        1
    } else {
        256 * pow256((n - 1) as nat)
    }
}

/// The number that the bytes `s` write down, least significant byte first.
pub open spec fn le_value(s: Seq<u8>) -> nat
    decreases s.len(),
{
    if s.len() == 0 {
        0
    } else {
        s[0] as nat + 256 * le_value(s.drop_first())
    }
}

/// A count is kept in one, two, four or eight bytes.
pub open spec fn is_width(w: nat) -> bool {
    w == 1 || w == 2 || w == 4 || w == 8
}

/// The largest count that `w` bytes hold.
pub open spec fn max_of_width(w: nat) -> nat {
    (pow256(w) - 1) as nat
}

/// The least width that holds `v`.
pub open spec fn width_of(v: u64) -> nat {
    if v <= 0xFF {
        1
    } else if v <= 0xFFFF {
        2
    } else if v <= 0xFFFF_FFFF {
        4
    } else {
        8
    }
}

/// The counts that `bytes` hold, `w` bytes each.
pub open spec fn slots(bytes: Seq<u8>, w: nat) -> Seq<u64> {
    Seq::new(bytes.len() / w, |p: int| slot(bytes, w, p))
}

/// The `p`-th count that `bytes` hold, `w` bytes each.
pub open spec fn slot(bytes: Seq<u8>, w: nat, p: int) -> u64 {
    le_value(bytes.subrange(p * w, p * w + w)) as u64
}

proof fn lemma_pow256()
    ensures
        pow256(1) == 0x100,
        pow256(2) == 0x1_0000,
        pow256(4) == 0x1_0000_0000,
        pow256(8) == 0x1_0000_0000_0000_0000,
{
    reveal_with_fuel(pow256, 9);
}

/// The largest counts of the widths that occur.
pub proof fn lemma_max_of_width()
    ensures
        max_of_width(1) == 0xFF,
        max_of_width(2) == 0xFFFF,
        max_of_width(4) == 0xFFFF_FFFF,
        max_of_width(8) == u64::MAX,
{
    lemma_pow256();
}

/// What fits a width: the least width that holds a count is one that holds it, and none
/// below it does.
pub proof fn lemma_width_of(v: u64, w: nat)
    requires
        is_width(w),
    ensures
        is_width(width_of(v)),
        v <= max_of_width(w) <==> width_of(v) <= w,
{
    lemma_pow256();
}

proof fn lemma_pow256_monotone(j: nat, k: nat)
    requires
        j <= k,
    ensures
        0 < pow256(j) <= pow256(k),
    decreases k,
{
    if j < k {
        lemma_pow256_monotone(j, (k - 1) as nat);
    } else if k > 0 {
        lemma_pow256_monotone((k - 1) as nat, (k - 1) as nat);
    }
}

proof fn lemma_le_value_bound(s: Seq<u8>)
    ensures
        le_value(s) < pow256(s.len()),
    decreases s.len(),
{
    if s.len() > 0 {
        lemma_le_value_bound(s.drop_first());
    }
}

proof fn lemma_le_value_u64(s: Seq<u8>)
    requires
        s.len() <= 8,
    ensures
        le_value(s) <= u64::MAX,
{
    lemma_le_value_bound(s);
    lemma_pow256_monotone(s.len(), 8);
    lemma_pow256();
}

/// A byte written behind the others weighs as much as all numbers that those can write.
proof fn lemma_le_value_push(s: Seq<u8>, b: u8)
    ensures
        le_value(s.push(b)) == le_value(s) + pow256(s.len()) * b,
    decreases s.len(),
{
    if s.len() == 0 {
        assert(s.push(b).drop_first() =~= Seq::<u8>::empty());
        assert(le_value(Seq::<u8>::empty()) == 0);
        assert(pow256(0) == 1);
        assert(1 * b == b);
    } else {
        lemma_le_value_push(s.drop_first(), b);
        assert(s.push(b).drop_first() =~= s.drop_first().push(b));
        let p = pow256((s.len() - 1) as nat);
        assert((256 * p) * b == 256 * (p * b)) by (nonlinear_arith);
    }
}

/// Where the slots of an array lie.
proof fn lemma_slot_bounds(n: nat, w: nat, p: int, len: nat)
    requires
        is_width(w),
        len == n * w,
        0 <= p < n,
    ensures
        0 <= p * w,
        p * w + w <= len,
{
    assert(0 <= p * w && p * w + w <= n * w) by (nonlinear_arith)
        requires
            0 <= p,
            p + 1 <= n,
            w > 0,
    ;
}

/// Different slots do not overlap.
proof fn lemma_slots_apart(w: nat, p: int, q: int)
    requires
        is_width(w),
        p < q,
    ensures
        p * w + w <= q * w,
{
    assert(p * w + w <= q * w) by (nonlinear_arith)
        requires
            p + 1 <= q,
            w > 0,
    ;
}

/// The largest count that `w` bytes hold, for the widths that occur.
pub fn width_max(w: u8) -> (r: u64)
    requires
        is_width(w as nat),
    ensures
        r == max_of_width(w as nat),
{
    proof {
        lemma_pow256();
    }
    match w {
        1 => 0xFF,
        2 => 0xFFFF,
        4 => 0xFFFF_FFFF,
        _ => u64::MAX,
    }
}

/// Counts in little-endian bytes, all of one width.
#[derive(Debug)]
pub struct CountSlots {
    bytes: Vec<u8>,
    width: u8,
    len: usize,
}

impl View for CountSlots {
    type V = Seq<u64>;

    closed spec fn view(&self) -> Seq<u64> {
        slots(self.bytes@, self.width as nat)
    }
}

impl CountSlots {
    /// The width is one that occurs and the bytes are whole slots.
    pub closed spec fn wf(&self) -> bool {
        &&& is_width(self.width as nat)
        &&& self.bytes@.len() == self.len * self.width as nat
    }

    /// The number of bytes that each count takes.
    pub closed spec fn width(&self) -> nat {
        self.width as nat
    }

    /// The length of the array, and what each entry may be.
    pub proof fn lemma_view(&self)
        requires
            self.wf(),
        ensures
            is_width(self.width()),
            forall|p: int| 0 <= p < self@.len() ==> #[trigger] self@[p] <= max_of_width(self.width()),
    {
        let w = self.width as nat;
        self.lemma_len();
        assert forall|p: int| 0 <= p < self@.len() implies #[trigger] self@[p] <= max_of_width(
            self.width(),
        ) by {
            lemma_slot_bounds(self.len as nat, w, p, self.bytes@.len());
            let s = self.bytes@.subrange(p * w, p * w + w);
            lemma_le_value_bound(s);
            lemma_le_value_u64(s);
        }
    }

    proof fn lemma_len(&self)
        requires
            self.wf(),
        ensures
            self@.len() == self.len,
    {
        let w: int = self.width as int;
        let n: int = self.len as int;
        assert((n * w) / w == n) by (nonlinear_arith)
            requires
                w > 0,
        ;
    }

    /// An array without counts, one byte wide.
    pub fn new() -> (r: Self)
        ensures
            r.wf(),
            r@ == Seq::<u64>::empty(),
            r.width() == 1,
    {
        CountSlots { bytes: Vec::new(), width: 1, len: 0 }
    }

    /// The number of bytes that each count takes.
    pub fn count_width(&self) -> (r: u8)
        ensures
            r == self.width(),
    {
        self.width
    }

    /// `r` is room that the allocator may have given to the bytes of the array.
    pub closed spec fn room(&self, r: usize) -> bool {
        call_ensures(memory::capacity::<u8>, (&self.bytes,), r)
    }

    /// What is room for the bytes of the array.
    proof fn lemma_room(&self, r: usize)
        ensures
            self.room(r) <==> call_ensures(memory::capacity::<u8>, (&self.bytes,), r),
    {
    }

    /// The bytes that the array holds on to.
    pub fn memory_size(&self) -> (r: usize)
        requires
            self.wf(),
        ensures
            self.room(r),
            self@.len() * self.width() <= r <= isize::MAX,
    {
        proof {
            self.lemma_len();
            broadcast use vstd::layout::layout_of_primitives;
        }
        let r: usize = memory::capacity(&self.bytes);
        proof {
            self.lemma_room(r);
        }
        r
    }

    /// The count at position `i`.
    pub fn get(&self, i: usize) -> (r: u64)
        requires
            self.wf(),
            i < self@.len(),
        ensures
            r == self@[i as int],
    {
        let w: usize = self.width as usize;
        proof {
            self.lemma_len();
            assert(self.bytes@.len() == self.bytes.len());
            lemma_slot_bounds(self.len as nat, w as nat, i as int, self.bytes@.len());
        }
        let off: usize = i * w;
        let mut v: u64 = 0;
        let mut k: usize = w;
        while k > 0
            invariant
                k <= w,
                w <= 8,
                off + w <= self.bytes.len(),
                v == le_value(self.bytes@.subrange(off + k, off + w)),
            decreases k,
        {
            k = k - 1;
            proof {
                let s = self.bytes@.subrange(off + k, off + w);
                assert(s.drop_first() =~= self.bytes@.subrange(off + k + 1, off + w));
                lemma_le_value_u64(s);
            }
            v = v * 256 + self.bytes[off + k] as u64;
        }
        v
    }

    /// Put the count `val` at position `i`.
    pub fn set(&mut self, i: usize, val: u64)
        requires
            old(self).wf(),
            i < old(self)@.len(),
            val <= max_of_width(old(self).width()),
        ensures
            final(self).wf(),
            final(self).width() == old(self).width(),
            final(self)@ == old(self)@.update(i as int, val),
    {
        let w: usize = self.width as usize;
        proof {
            self.lemma_len();
            assert(self.bytes@.len() == self.bytes.len());
            lemma_slot_bounds(self.len as nat, w as nat, i as int, self.bytes@.len());
        }
        let off: usize = i * w;
        let mut rest: u64 = val;
        let mut k: usize = 0;
        while k < w
            invariant
                k <= w,
                w == self.width,
                w <= 8,
                self.width == old(self).width,
                self.len == old(self).len,
                self.bytes@.len() == old(self).bytes@.len(),
                off + w <= self.bytes.len(),
                forall|j: int|
                    0 <= j < self.bytes@.len() && !(off <= j < off + k) ==> #[trigger] self.bytes@[j]
                        == old(self).bytes@[j],
                val == le_value(self.bytes@.subrange(off as int, off + k)) + pow256(k as nat) * rest,
            decreases w - k,
        {
            let ghost low = self.bytes@.subrange(off as int, off + k);
            let digit: u8 = (rest % 256) as u8;
            self.bytes[off + k] = digit;
            proof {
                assert(self.bytes@.subrange(off as int, off + k + 1) =~= low.push(digit));
                lemma_le_value_push(low, digit);
                let p: int = pow256(k as nat) as int;
                let q: int = rest as int / 256;
                let d: int = digit as int;
                assert(p * (d + 256 * q) == p * d + (256 * p) * q) by (nonlinear_arith);
            }
            rest = rest / 256;
            k = k + 1;
        }
        proof {
            let p: int = pow256(w as nat) as int;
            lemma_pow256();
            assert(rest == 0) by (nonlinear_arith)
                requires
                    val < p,
                    val >= p * rest,
                    p > 0,
                    rest >= 0,
            ;
            assert(p * rest == 0);
            let n = self.len as nat;
            self.lemma_len();
            assert forall|q: int| 0 <= q < n implies slot(self.bytes@, w as nat, q) == #[trigger] old(
                self,
            )@.update(i as int, val)[q] by {
                lemma_slot_bounds(n, w as nat, q, self.bytes@.len());
                if q < i {
                    lemma_slots_apart(w as nat, q, i as int);
                } else if q > i {
                    lemma_slots_apart(w as nat, i as int, q);
                }
                if q != i {
                    assert(self.bytes@.subrange(q * w, q * w + w) =~= old(self).bytes@.subrange(
                        q * w,
                        q * w + w,
                    ));
                }
            }
            assert(self@ =~= old(self)@.update(i as int, val));
        }
    }

    /// Make the counts wide enough for `need`. They do not change. Their bytes have to fit in
    /// one allocation.
    pub fn widen_to_fit(&mut self, need: u64)
        requires
            old(self).wf(),
            old(self)@.len() * width_of(need) <= isize::MAX,
        ensures
            final(self).wf(),
            final(self)@ == old(self)@,
            final(self).width() == if width_of(need) <= old(self).width() {
                old(self).width()
            } else {
                width_of(need)
            },
            need <= max_of_width(final(self).width()),
    {
        let mut nw: u8 = self.width;
        proof {
            lemma_pow256();
        }
        while need > width_max(nw) && nw < 8
            invariant
                is_width(nw as nat),
                self.width <= nw,
                nw > self.width ==> nw <= width_of(need),
            decreases 8 - nw,
        {
            proof {
                lemma_width_of(need, nw as nat);
            }
            nw = nw * 2;
        }
        proof {
            lemma_width_of(need, nw as nat);
            lemma_width_of(need, self.width as nat);
        }
        if nw == self.width {
            return;
        }
        let size: usize = self.len;
        proof {
            self.lemma_len();
            assert(nw == width_of(need));
        }
        let mut wide = CountSlots { bytes: vec![0u8; size * nw as usize], width: nw, len: size };
        let mut i: usize = 0;
        proof {
            wide.lemma_len();
        }
        while i < size
            invariant
                i <= size,
                size == self@.len(),
                self.wf(),
                wide.wf(),
                wide.width == nw,
                self.width <= nw,
                is_width(nw as nat),
                wide@.len() == size,
                forall|p: int| 0 <= p < i ==> #[trigger] wide@[p] == self@[p],
            decreases size - i,
        {
            let v: u64 = self.get(i);
            proof {
                self.lemma_view();
                assert(self@[i as int] <= max_of_width(self.width()));
                lemma_pow256_monotone(self.width as nat, nw as nat);
            }
            wide.set(i, v);
            i = i + 1;
        }
        assert(wide@ =~= self@);
        *self = wide;
    }

    /// Put a new count `val` before position `pos`. The bytes of all counts have to fit in one
    /// allocation.
    pub fn insert(&mut self, pos: usize, val: u64)
        requires
            old(self).wf(),
            pos <= old(self)@.len(),
            (old(self)@.len() + 1) * old(self).width() <= isize::MAX,
            val <= max_of_width(old(self).width()),
        ensures
            final(self).wf(),
            final(self).width() == old(self).width(),
            final(self)@ == old(self)@.insert(pos as int, val),
    {
        let w: usize = self.width as usize;
        let ghost bytes = self.bytes@;
        let ghost n = self.len as nat;
        proof {
            self.lemma_len();
            assert(self.bytes@.len() == self.bytes.len());
            assert(pos * w <= n * w) by (nonlinear_arith)
                requires
                    pos <= n,
            ;
            assert((n + 1) * w == n * w + w && n + 1 <= (n + 1) * w) by (nonlinear_arith)
                requires
                    w >= 1,
            ;
        }
        let gap: usize = pos * w;
        let mut k: usize = 0;
        // open a gap of one slot
        while k < w
            invariant
                k <= w,
                w <= 8,
                gap <= bytes.len(),
                bytes.len() + w <= isize::MAX,
                self.width == w,
                self.len == n,
                self.bytes@.len() == bytes.len() + k,
                forall|j: int| 0 <= j < gap ==> #[trigger] self.bytes@[j] == bytes[j],
                forall|j: int|
                    gap + k <= j < self.bytes@.len() ==> #[trigger] self.bytes@[j] == bytes[j - k],
            decreases w - k,
        {
            self.bytes.insert(gap, 0);
            k = k + 1;
        }
        self.len = self.len + 1;
        proof {
            self.lemma_len();
            let opened = self.bytes@;
            assert forall|q: int| 0 <= q < n + 1 && q != pos implies #[trigger] self@[q] == old(
                self,
            )@.insert(pos as int, val)[q] by {
                lemma_slot_bounds(n + 1, w as nat, q, opened.len());
                if q < pos {
                    lemma_slots_apart(w as nat, q, pos as int);
                    lemma_slot_bounds(n, w as nat, q, bytes.len());
                    assert(opened.subrange(q * w, q * w + w) =~= bytes.subrange(q * w, q * w + w));
                } else {
                    let r: int = q - 1;
                    lemma_slots_apart(w as nat, pos as int, q);
                    lemma_slot_bounds(n, w as nat, r, bytes.len());
                    assert(r * w == q * w - w) by (nonlinear_arith)
                        requires
                            r == q - 1,
                    ;
                    assert(opened.subrange(q * w, q * w + w) =~= bytes.subrange(r * w, r * w + w));
                }
            }
        }
        self.set(pos, val);
        assert(self@ =~= old(self)@.insert(pos as int, val));
    }
}

} // verus!
