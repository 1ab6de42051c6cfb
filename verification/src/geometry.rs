//! How values are laid out in buckets: the map between values and flat indices.
#[allow(unused_imports)]
use crate::bits;
use crate::errors::CreationError;
#[allow(unused_imports)]
use vstd::arithmetic::power::*;
#[allow(unused_imports)]
use vstd::arithmetic::power2::*;
#[allow(unused_imports)]
use vstd::bits::*;
use vstd::prelude::*;

verus! {

/// What a histogram is made for: the lowest value that it tells from zero, the highest
/// value that it tracks, and the number of significant decimal digits that it keeps.
#[derive(Debug, Clone, Copy, PartialEq, Eq, Structural)]
pub struct Bounds {
    /// The lowest discernible value.
    pub low: u64,
    /// The highest trackable value.
    pub high: u64,
    /// The number of significant decimal digits.
    pub sigfig: u8,
}

impl Bounds {
    /// Why these bounds make no histogram, or `None` where they make one.
    pub open spec fn error(self) -> Option<CreationError> {
        if self.low == 0 {
            Some(CreationError::LowIsZero)
        } else if self.low > u64::MAX / 2 {
            Some(CreationError::LowExceedsMax)
        } else if self.high < 2 * self.low {
            Some(CreationError::HighLessThanTwiceLow)
        } else if self.sigfig > 5 {
            Some(CreationError::SigFigExceedsMax)
        } else if self.unit_magnitude() + self.sub_bucket_magnitude() > 63 {
            Some(CreationError::CannotRepresentSigFigBeyondLow)
        } else {
            None
        }
    }

    /// These bounds make a histogram.
    pub open spec fn valid(self) -> bool {
        self.error() is None
    }

    /// The exponent of the greatest power of two that is not above `low`: values that
    /// differ only below it are never told apart.
    pub open spec fn unit_magnitude(self) -> nat {
        (bits::bit_len(self.low as nat) - 1) as nat
    }

    /// The exponent of the least power of two that is not below twice ten to the `sigfig`.
    /// Each bucket is cut into that power of two of equal parts.
    pub open spec fn sub_bucket_magnitude(self) -> nat {
        if self.sigfig == 0 {
            1
        } else if self.sigfig == 1 {
            5
        } else if self.sigfig == 2 {
            8
        } else if self.sigfig == 3 {
            11
        } else if self.sigfig == 4 {
            15
        } else {
            18
        }
    }

    /// Half the number of parts of a bucket.
    pub open spec fn half_count(self) -> nat {
        pow2((self.sub_bucket_magnitude() - 1) as nat)
    }

    /// The bucket of `value`: how many times the reach of bucket 0 has to be doubled until
    /// it lies above `value`.
    pub open spec fn bucket_of(self, value: u64) -> nat {
        let reach = self.unit_magnitude() + self.sub_bucket_magnitude();
        let len = bits::bit_len(value as nat);
        if len <= reach {
            0
        } else {
            (len - reach) as nat
        }
    }

    /// How many neighbouring values share the count of `value`.
    pub open spec fn equivalent_range(self, value: u64) -> nat {
        pow2(self.bucket_of(value) + self.unit_magnitude())
    }

    /// The part of its bucket in which `value` lies.
    pub open spec fn sub_bucket_of(self, value: u64) -> nat {
        value as nat / self.equivalent_range(value)
    }

    /// The flat index of the count of `value`. Bucket 0 uses all its parts, each later
    /// bucket only the upper half of them.
    pub open spec fn index_of(self, value: u64) -> nat {
        self.bucket_of(value) * self.half_count() + self.sub_bucket_of(value)
    }

    /// The lowest value whose count stands at the flat index `index`.
    pub open spec fn value_of(self, index: nat) -> nat {
        let half = self.half_count();
        if index < 2 * half {
            index * pow2(self.unit_magnitude())
        } else {
            (index % half + half) * pow2((index / half - 1) as nat + self.unit_magnitude())
        }
    }

    /// The number of flat indices: as many as the buckets up to that of `high` use.
    pub open spec fn counts_len(self) -> nat {
        (self.bucket_of(self.high) + 2) * self.half_count()
    }

    /// The lowest value that shares the count of `value`.
    pub open spec fn lowest_equivalent(self, value: u64) -> nat {
        self.sub_bucket_of(value) * self.equivalent_range(value)
    }

    /// The highest value that shares the count of `value`: one below the end of its range,
    /// where that end is capped at `u64::MAX`. Of `u64::MAX` it is `u64::MAX` itself.
    pub open spec fn highest_equivalent(self, value: u64) -> nat {
        let next = self.lowest_equivalent(value) + self.equivalent_range(value);
        if value == u64::MAX {
            u64::MAX as nat
        } else if next > u64::MAX {
            (u64::MAX - 1) as nat
        } else {
            (next - 1) as nat
        }
    }
}

impl Bounds {
    /// The limits that the sizes of a valid layout keep.
    pub proof fn lemma_sizes(self)
        requires
            self.valid(),
        ensures
            1 <= self.sub_bucket_magnitude() <= 18,
            self.unit_magnitude() + self.sub_bucket_magnitude() <= 63,
            pow2(self.unit_magnitude()) <= self.low < 2 * pow2(self.unit_magnitude()),
            1 <= self.half_count() <= 0x2_0000,
            pow2(self.sub_bucket_magnitude()) == 2 * self.half_count(),
            2 <= self.counts_len() <= 0x82_0000,
            self.counts_len() >= 2 * self.half_count(),
    {
        let m = self.sub_bucket_magnitude();
        let half = self.half_count();
        lemma2_to64();
        assert(bits::bit_len(self.low as nat) > 0) by {
            bits::lemma_bit_len(self.low as nat, 0);
        }
        bits::lemma_bit_len_exact(self.low as nat, bits::bit_len(self.low as nat));
        lemma_pow2_unfold(bits::bit_len(self.low as nat));
        lemma_pow2_unfold(m);
        bits::lemma_pow2_monotone(0, (m - 1) as nat);
        bits::lemma_pow2_monotone((m - 1) as nat, 17);
        bits::lemma_bit_len_u64(self.high);
        let b = self.bucket_of(self.high);
        assert(b <= 63);
        assert(2 * half <= (b + 2) * half <= 65 * 0x2_0000) by (nonlinear_arith)
            requires
                b <= 63,
                1 <= half <= 0x2_0000,
        ;
    }

    /// A value lies in one of the parts that its bucket uses.
    pub proof fn lemma_sub_bucket(self, value: u64)
        requires
            self.valid(),
        ensures
            self.bucket_of(value) + self.unit_magnitude() + self.sub_bucket_magnitude() <= 64,
            self.bucket_of(value) + self.unit_magnitude() <= 63,
            0 < self.equivalent_range(value) < u64::MAX,
            self.sub_bucket_of(value) < 2 * self.half_count(),
            self.bucket_of(value) > 0 ==> self.sub_bucket_of(value) >= self.half_count(),
            (self.sub_bucket_of(value) + 1) * self.equivalent_range(value) <= u64::MAX + 1,
    {
        self.lemma_sizes();
        let m = self.sub_bucket_magnitude();
        let u = self.unit_magnitude();
        let b = self.bucket_of(value);
        let v = value as nat;
        let range = self.equivalent_range(value);
        let half = self.half_count();
        bits::lemma_bit_len_u64(value);
        lemma_u64_pow2_no_overflow(b + u);
        bits::lemma_bit_len(v, m + u + b);
        assert(m + u + b == m + (b + u));
        bits::lemma_div_pow2_bounds(v, m, b + u);
        if b > 0 {
            bits::lemma_bit_len(v, (m + u + b - 1) as nat);
            assert((m + u + b - 1) as nat == (m - 1) as nat + (b + u));
            bits::lemma_div_pow2_bounds(v, (m - 1) as nat, b + u);
        }
        let sub = self.sub_bucket_of(value);
        lemma_pow2_adds(m, b + u);
        assert((sub + 1) * range <= pow2(m) * range) by (nonlinear_arith)
            requires
                sub + 1 <= pow2(m),
                range > 0,
        ;
        bits::lemma_pow2_monotone(m + (b + u), 64);
        lemma2_to64();
    }

    /// Reading a value's index back gives the lowest value equivalent to it.
    pub proof fn lemma_value_of_index_of(self, value: u64)
        requires
            self.valid(),
        ensures
            self.value_of(self.index_of(value)) == self.lowest_equivalent(value),
    {
        self.lemma_sizes();
        self.lemma_sub_bucket(value);
        let half: int = self.half_count() as int;
        let b: int = self.bucket_of(value) as int;
        let sub: int = self.sub_bucket_of(value) as int;
        if b == 0 {
            assert(b * half == 0);
        } else {
            let i: int = self.index_of(value) as int;
            assert(i == b * half + sub);
            assert(b * half + half == (b + 1) * half) by (nonlinear_arith);
            assert(i == (b + 1) * half + (sub - half));
            assert((b + 1) * half >= 2 * half) by (nonlinear_arith)
                requires
                    b >= 1,
                    half >= 1,
            ;
            vstd::arithmetic::div_mod::lemma_fundamental_div_mod_converse(i, half, b + 1, sub - half);
        }
    }

    /// A flat index is the index of the value that stands for it, and that value is a `u64`.
    pub proof fn lemma_index_of_value_of(self, index: nat)
        requires
            self.valid(),
            index < self.counts_len(),
        ensures
            self.value_of(index) <= u64::MAX,
            self.index_of(self.value_of(index) as u64) == index,
            self.lowest_equivalent(self.value_of(index) as u64) == self.value_of(index),
    {
        self.lemma_sizes();
        self.lemma_sub_bucket(self.high);
        let m = self.sub_bucket_magnitude();
        let u = self.unit_magnitude();
        let half = self.half_count();
        let v = self.value_of(index);
        let (b, s) = if index < 2 * half {
            (0nat, index)
        } else {
            ((index / half - 1) as nat, index % half + half)
        };
        if index >= 2 * half {
            let last: nat = self.bucket_of(self.high);
            vstd::arithmetic::div_mod::lemma_fundamental_div_mod(index as int, half as int);
            assert(2 <= index / half < last + 2) by (nonlinear_arith)
                requires
                    2 * half <= index < (last + 2) * half,
                    half > 0,
            ;
        }
        let range = pow2(b + u);
        assert(v == s * range);
        lemma_pow2_pos(b + u);
        lemma_pow2_adds(m, b + u);
        lemma_pow2_adds((m - 1) as nat, b + u);
        assert(s * range < pow2(m) * range) by (nonlinear_arith)
            requires
                s < pow2(m),
                range > 0,
        ;
        bits::lemma_pow2_monotone(m + (b + u), 64);
        lemma2_to64();
        assert(v <= u64::MAX);
        bits::lemma_bit_len(v, m + (b + u));
        if b > 0 {
            assert(s * range >= half * range) by (nonlinear_arith)
                requires
                    s >= half,
            ;
            bits::lemma_bit_len(v, ((m - 1) as nat + (b + u)) as nat);
        }
        assert(self.bucket_of(v as u64) == b);
        assert(v / range == s) by (nonlinear_arith)
            requires
                v == s * range,
                range > 0,
        ;
        if b > 0 {
            assert(index == (b + 1) * half + index % half) by {
                vstd::arithmetic::mul::lemma_mul_is_commutative(half as int, (index / half) as int);
            }
            assert((b + 1) * half == b * half + half) by (nonlinear_arith);
        } else {
            assert(b * half == 0);
        }
    }

    /// Zero has the first index.
    pub proof fn lemma_index_zero(self)
        ensures
            self.index_of(0) == 0,
    {
        lemma_pow2_pos(self.unit_magnitude());
        assert(bits::bit_len(0) == 0);
        assert(0 * self.half_count() == 0);
    }

    /// Larger values have indices at least as large.
    pub proof fn lemma_index_monotone(self, v: u64, w: u64)
        requires
            self.valid(),
            v <= w,
        ensures
            self.index_of(v) <= self.index_of(w),
    {
        self.lemma_sizes();
        self.lemma_sub_bucket(v);
        self.lemma_sub_bucket(w);
        bits::lemma_bit_len_monotone(v as nat, w as nat);
        let half = self.half_count();
        let b = self.bucket_of(v);
        let c = self.bucket_of(w);
        if b == c {
            vstd::arithmetic::div_mod::lemma_div_is_ordered(
                v as int,
                w as int,
                self.equivalent_range(v) as int,
            );
        } else {
            assert(b * half + 2 * half <= c * half + half) by (nonlinear_arith)
                requires
                    b + 1 <= c,
                    half > 0,
            ;
        }
    }

    /// A value is tracked exactly when its bucket is not beyond that of `high`.
    pub proof fn lemma_tracked(self, value: u64)
        requires
            self.valid(),
        ensures
            self.index_of(value) < self.counts_len() <==> self.bucket_of(value) <= self.bucket_of(
                self.high,
            ),
            value <= self.high ==> self.index_of(value) < self.counts_len(),
    {
        self.lemma_sizes();
        self.lemma_sub_bucket(value);
        let half = self.half_count();
        let b = self.bucket_of(value);
        let c = self.bucket_of(self.high);
        if b <= c {
            assert(b * half + 2 * half <= (c + 2) * half) by (nonlinear_arith)
                requires
                    b <= c,
                    half > 0,
            ;
        } else {
            assert(b * half + half >= (c + 2) * half) by (nonlinear_arith)
                requires
                    b >= c + 1,
                    half > 0,
            ;
        }
        if value <= self.high {
            bits::lemma_bit_len_monotone(value as nat, self.high as nat);
        }
    }

    /// A value lies between its lowest and its highest equivalent, which have its index.
    pub proof fn lemma_equivalents(self, value: u64)
        requires
            self.valid(),
        ensures
            self.lowest_equivalent(value) <= value <= self.highest_equivalent(value) <= u64::MAX,
            value < self.lowest_equivalent(value) + self.equivalent_range(value),
            self.index_of(self.lowest_equivalent(value) as u64) == self.index_of(value),
            self.index_of(self.highest_equivalent(value) as u64) == self.index_of(value),
    {
        self.lemma_sizes();
        self.lemma_sub_bucket(value);
        let v: int = value as int;
        let range: int = self.equivalent_range(value) as int;
        let sub: int = self.sub_bucket_of(value) as int;
        vstd::arithmetic::div_mod::lemma_fundamental_div_mod(v, range);
        vstd::arithmetic::mul::lemma_mul_is_commutative(sub, range);
        assert((sub + 1) * range == sub * range + range) by (nonlinear_arith);
        self.lemma_same_range(value, self.lowest_equivalent(value) as u64);
        self.lemma_same_range(value, self.highest_equivalent(value) as u64);
    }

    /// Values that stand for larger indices are larger, and so are their equivalents.
    pub proof fn lemma_value_monotone(self, i: nat, j: nat)
        requires
            self.valid(),
            i < j < self.counts_len(),
        ensures
            self.value_of(i) < self.value_of(j),
            self.highest_equivalent(self.value_of(i) as u64) < self.value_of(j),
    {
        self.lemma_index_of_value_of(i);
        self.lemma_index_of_value_of(j);
        let v = self.value_of(i) as u64;
        let w = self.value_of(j) as u64;
        self.lemma_equivalents(v);
        let top = self.highest_equivalent(v) as u64;
        if top >= w {
            self.lemma_index_monotone(w, top);
        }
    }

    /// The parts of a bucket are the least power of two that is not below twice ten to the
    /// `sigfig`, so that single units are told apart up to there.
    pub proof fn law_sub_bucket_magnitude(self)
        requires
            self.valid(),
        ensures
            pow2((self.sub_bucket_magnitude() - 1) as nat) < 2 * pow(10, self.sigfig as nat)
                <= pow2(self.sub_bucket_magnitude()),
    {
        reveal_with_fuel(pow, 6);
        lemma2_to64();
    }

    /// Where bucket 0 does not reach, values are told apart to `sigfig` significant digits:
    /// those that share a count differ by less than one part in ten to the `sigfig`. In
    /// bucket 0 they differ by less than the power of two that is not above `low`.
    pub proof fn law_precision(self, value: u64)
        requires
            self.valid(),
        ensures
            self.bucket_of(value) > 0 ==> self.equivalent_range(value) * pow(
                10,
                self.sigfig as nat,
            ) <= value,
            self.bucket_of(value) == 0 ==> self.equivalent_range(value) <= self.low,
    {
        self.lemma_sizes();
        self.lemma_sub_bucket(value);
        self.lemma_equivalents(value);
        let range: int = self.equivalent_range(value) as int;
        let half: int = self.half_count() as int;
        let sub: int = self.sub_bucket_of(value) as int;
        let p: int = pow(10, self.sigfig as nat);
        reveal_with_fuel(pow, 6);
        lemma2_to64();
        assert(0 < p <= half);
        if self.bucket_of(value) > 0 {
            assert(range * p <= sub * range) by (nonlinear_arith)
                requires
                    0 < p <= half <= sub,
                    range > 0,
            ;
        }
    }

    /// All values of one range have one index.
    pub proof fn lemma_same_range(self, value: u64, other: u64)
        requires
            self.valid(),
            self.lowest_equivalent(value) <= other < self.lowest_equivalent(value)
                + self.equivalent_range(value),
        ensures
            self.index_of(other) == self.index_of(value),
            self.bucket_of(other) == self.bucket_of(value),
            self.sub_bucket_of(other) == self.sub_bucket_of(value),
    {
        self.lemma_sizes();
        self.lemma_sub_bucket(value);
        let m = self.sub_bucket_magnitude();
        let u = self.unit_magnitude();
        let b = self.bucket_of(value);
        let range = self.equivalent_range(value);
        let sub = self.sub_bucket_of(value);
        let half = self.half_count();
        assert(other as nat / range == sub) by {
            vstd::arithmetic::div_mod::lemma_fundamental_div_mod_converse(
                other as int,
                range as int,
                sub as int,
                other - sub * range,
            );
        }
        assert(m + (b + u) == m + u + b);
        bits::lemma_div_pow2_bounds(other as nat, m, b + u);
        bits::lemma_bit_len(other as nat, m + u + b);
        if b > 0 {
            assert((m + u + b - 1) as nat == (m - 1) as nat + (b + u));
            bits::lemma_div_pow2_bounds(other as nat, (m - 1) as nat, b + u);
            bits::lemma_bit_len(other as nat, (m + u + b - 1) as nat);
        }
        assert(self.bucket_of(other) == b);
    }
}

/// The layout of a histogram with everything that its lookups need worked out once.
#[derive(Debug)]
pub struct Geometry {
    low: u64,
    high: u64,
    sigfig: u8,
    unit_magnitude: u8,
    sub_bucket_half_count: u32,
    // 64 less the number of binary digits of the values that bucket 0 reaches
    leading_zero_count_base: u8,
    // the bits in which the values that bucket 0 reaches may differ
    sub_bucket_mask: u64,
    bucket_count: u8,
}

impl View for Geometry {
    type V = Bounds;

    closed spec fn view(&self) -> Bounds {
        Bounds { low: self.low, high: self.high, sigfig: self.sigfig }
    }
}

impl Geometry {
    /// The bounds are valid and the other fields say what follows from them.
    pub closed spec fn wf(&self) -> bool {
        let b = self@;
        &&& b.valid()
        &&& self.unit_magnitude == b.unit_magnitude()
        &&& self.sub_bucket_half_count == b.half_count()
        &&& self.leading_zero_count_base == 64 - b.unit_magnitude() - b.sub_bucket_magnitude()
        &&& bits::bit_len(self.sub_bucket_mask as nat) == b.unit_magnitude()
            + b.sub_bucket_magnitude()
        &&& self.bucket_count == b.bucket_of(b.high) + 1
    }

    /// A well-formed layout has valid bounds.
    pub proof fn lemma_wf(&self)
        requires
            self.wf(),
        ensures
            self@.valid(),
    {
    }

    /// Work out the layout for values from `low` to `high` with `sigfig` significant
    /// decimal digits.
    pub fn new_with_bounds(low: u64, high: u64, sigfig: u8) -> (r: Result<Geometry, CreationError>)
        ensures
            match (Bounds { low, high, sigfig }).error() {
                Some(e) => r == Err::<Geometry, CreationError>(e),
                None => r matches Ok(g) && g.wf() && g@ == (Bounds { low, high, sigfig }),
            },
    {
        if low < 1 {
            return Err(CreationError::LowIsZero);
        }
        if low > u64::MAX / 2 {
            return Err(CreationError::LowExceedsMax);
        }
        if high < 2 * low {
            return Err(CreationError::HighLessThanTwiceLow);
        }
        if sigfig > 5 {
            return Err(CreationError::SigFigExceedsMax);
        }
        let ghost b = Bounds { low, high, sigfig };
        proof {
            bits::lemma_leading_zeros(low);
            bits::lemma_bit_len(low as nat, 0);
            bits::lemma_bit_len_u64(low);
            lemma2_to64();
        }
        let unit_magnitude: u8 = 63 - low.leading_zeros() as u8;
        let sub_bucket_magnitude: u8 = match sigfig {
            0 => 1,
            1 => 5,
            2 => 8,
            3 => 11,
            4 => 15,
            _ => 18,
        };
        if unit_magnitude + sub_bucket_magnitude > 63 {
            return Err(CreationError::CannotRepresentSigFigBeyondLow);
        }
        proof {
            let m = b.sub_bucket_magnitude();
            let u = b.unit_magnitude();
            b.lemma_sizes();
            lemma_u64_pow2_no_overflow(m);
            lemma_u64_shl_is_mul(1, sub_bucket_magnitude as u64);
            lemma_pow2_adds(m, u);
            lemma_pow2_adds((m - 1) as nat, u);
            lemma_u64_pow2_no_overflow(m + u);
            lemma_pow2_pos(u);
            let p: int = pow2(u) as int;
            let half: int = b.half_count() as int;
            assert(half * p <= (2 * half - 1) * p < 2 * half * p) by (nonlinear_arith)
                requires
                    p > 0,
                    half >= 1,
            ;
            assert((2 * half - 1) * p <= u64::MAX);
            lemma_u64_shl_is_mul((2 * half - 1) as u64, u as u64);
            bits::lemma_bit_len_exact(((2 * half - 1) * p) as nat, m + u);
        }
        let sub_bucket_count: u64 = 1u64 << (sub_bucket_magnitude as u64);
        let sub_bucket_mask: u64 = (sub_bucket_count - 1) << (unit_magnitude as u64);
        let mut g = Geometry {
            low,
            high,
            sigfig,
            unit_magnitude,
            sub_bucket_half_count: (sub_bucket_count / 2) as u32,
            leading_zero_count_base: 64 - unit_magnitude - sub_bucket_magnitude,
            sub_bucket_mask,
            bucket_count: 0,
        };
        let last: u8 = g.bucket_for(high);
        proof {
            b.lemma_sub_bucket(high);
        }
        g.bucket_count = last + 1;
        Ok(g)
    }

    /// What the lookup of a bucket relies on.
    closed spec fn lookup_ready(&self) -> bool {
        let b = self@;
        &&& b.valid()
        &&& self.leading_zero_count_base == 64 - b.unit_magnitude() - b.sub_bucket_magnitude()
        &&& bits::bit_len(self.sub_bucket_mask as nat) == b.unit_magnitude()
            + b.sub_bucket_magnitude()
    }

    /// The bucket of `value`.
    fn bucket_for(&self, value: u64) -> (r: u8)
        requires
            self.lookup_ready(),
        ensures
            r == self@.bucket_of(value),
    {
        proof {
            bits::lemma_bit_len_or(value, self.sub_bucket_mask);
            bits::lemma_leading_zeros(value | self.sub_bucket_mask);
            bits::lemma_bit_len_u64(value | self.sub_bucket_mask);
        }
        self.leading_zero_count_base - (value | self.sub_bucket_mask).leading_zeros() as u8
    }

    /// The part of bucket `bucket`, its own, in which `value` lies.
    fn sub_bucket_for(&self, value: u64, bucket: u8) -> (r: u64)
        requires
            self.wf(),
            bucket == self@.bucket_of(value),
        ensures
            r == self@.sub_bucket_of(value),
    {
        proof {
            self@.lemma_sub_bucket(value);
            lemma_u64_shr_is_div(value, (bucket + self.unit_magnitude) as u64);
        }
        value >> ((bucket + self.unit_magnitude) as u64)
    }

    /// The lowest value of part `sub_bucket` of bucket `bucket`.
    fn value_from_loc(&self, bucket: u8, sub_bucket: u64) -> (r: u64)
        requires
            self.wf(),
            bucket + self@.unit_magnitude() <= 63,
            sub_bucket * pow2(bucket as nat + self@.unit_magnitude()) <= u64::MAX,
        ensures
            r == sub_bucket * pow2(bucket as nat + self@.unit_magnitude()),
    {
        proof {
            lemma_u64_shl_is_mul(sub_bucket, (bucket + self.unit_magnitude) as u64);
        }
        sub_bucket << ((bucket + self.unit_magnitude) as u64)
    }

    /// The flat index of the count of `value`. It may lie beyond the tracked ones.
    pub fn index_for(&self, value: u64) -> (r: usize)
        requires
            self.wf(),
        ensures
            r == self@.index_of(value),
    {
        let bucket: u8 = self.bucket_for(value);
        let sub_bucket: u64 = self.sub_bucket_for(value, bucket);
        proof {
            let half = self@.half_count();
            self@.lemma_sizes();
            self@.lemma_sub_bucket(value);
            assert(bucket * half <= 64 * 0x2_0000) by (nonlinear_arith)
                requires
                    bucket <= 64,
                    half <= 0x2_0000,
            ;
        }
        (bucket as usize) * (self.sub_bucket_half_count as usize) + sub_bucket as usize
    }

    /// The lowest value whose count stands at the flat index `index`.
    pub fn value_for(&self, index: usize) -> (r: u64)
        requires
            self.wf(),
            index < self@.counts_len(),
        ensures
            r == self@.value_of(index as nat),
    {
        let half: usize = self.sub_bucket_half_count as usize;
        proof {
            let n = index as nat;
            self@.lemma_sizes();
            self@.lemma_sub_bucket(self.high);
            self@.lemma_index_of_value_of(n);
            if n >= 2 * half {
                let last: nat = self@.bucket_of(self.high);
                vstd::arithmetic::div_mod::lemma_fundamental_div_mod(n as int, half as int);
                assert(2 <= n / (half as nat) < last + 2) by (nonlinear_arith)
                    requires
                        2 * half <= n < (last + 2) * half,
                        half > 0,
                ;
            }
        }
        if index < 2 * half {
            self.value_from_loc(0, index as u64)
        } else {
            self.value_from_loc((index / half - 1) as u8, (index % half + half) as u64)
        }
    }

    /// The number of flat indices that are tracked.
    pub fn distinct_values(&self) -> (r: usize)
        requires
            self.wf(),
        ensures
            r == self@.counts_len(),
    {
        proof {
            self@.lemma_sizes();
        }
        (self.bucket_count as usize + 1) * (self.sub_bucket_half_count as usize)
    }

    /// The lowest value that shares the count of `value`.
    pub fn lowest_equivalent(&self, value: u64) -> (r: u64)
        requires
            self.wf(),
        ensures
            r == self@.lowest_equivalent(value),
    {
        let bucket: u8 = self.bucket_for(value);
        let sub_bucket: u64 = self.sub_bucket_for(value, bucket);
        proof {
            self@.lemma_sub_bucket(value);
            self@.lemma_equivalents(value);
        }
        self.value_from_loc(bucket, sub_bucket)
    }

    /// The highest value that shares the count of `value`.
    pub fn highest_equivalent(&self, value: u64) -> (r: u64)
        requires
            self.wf(),
        ensures
            r == self@.highest_equivalent(value),
    {
        if value == u64::MAX {
            return u64::MAX;
        }
        let bucket: u8 = self.bucket_for(value);
        proof {
            self@.lemma_sub_bucket(value);
            lemma_u64_shl_is_mul(1, (bucket + self.unit_magnitude) as u64);
        }
        let range: u64 = 1u64 << ((bucket + self.unit_magnitude) as u64);
        let next: u64 = self.lowest_equivalent(value).saturating_add(range);
        next - 1
    }

    /// The lowest discernible value.
    pub fn low(&self) -> (r: u64)
        ensures
            r == self@.low,
    {
        self.low
    }

    /// The highest trackable value.
    pub fn high(&self) -> (r: u64)
        ensures
            r == self@.high,
    {
        self.high
    }

    /// The number of significant decimal digits.
    pub fn sigfig(&self) -> (r: u8)
        ensures
            r == self@.sigfig,
    {
        self.sigfig
    }
}

} // verus!
