//! Aggregates over range blocks (byte sums, color sums, difference counts) and a
//! cache of them over every block of the coarser recursion levels.
use vstd::prelude::*;

use crate::range_blocks::{
    block_size, blocks_needed, lemma_block_size_base, lemma_block_size_monotone,
    lemma_block_size_strict, lemma_blocks_needed, lemma_level_bound, max_recursion_level,
    range_block_size,
};

verus! {

/// The sum of a sequence of integers.
pub open spec fn seq_sum(s: Seq<int>) -> int
    decreases s.len(),
{
    if s.len() == 0 {
        0
    } else {
        seq_sum(s.drop_last()) + s.last()
    }
}

/// Sums add up over adjacent pieces.
pub proof fn lemma_seq_sum_split(s: Seq<int>, lo: int, mid: int, hi: int)
    requires
        0 <= lo <= mid <= hi <= s.len(),
    ensures
        seq_sum(s.subrange(lo, hi)) == seq_sum(s.subrange(lo, mid)) + seq_sum(s.subrange(mid, hi)),
    decreases hi - mid,
{
    if hi > mid {
        lemma_seq_sum_split(s, lo, mid, hi - 1);
        assert(s.subrange(lo, hi).drop_last() =~= s.subrange(lo, hi - 1));
        assert(s.subrange(mid, hi).drop_last() =~= s.subrange(mid, hi - 1));
    } else {
        assert(s.subrange(mid, hi) =~= Seq::<int>::empty());
    }
}

/// A sum of terms within `[0, bound]` lies within `[0, bound * len]`.
pub proof fn lemma_seq_sum_bounds(s: Seq<int>, bound: int)
    requires
        bound >= 0,
        forall|k: int| 0 <= k < s.len() ==> 0 <= #[trigger] s[k] <= bound,
    ensures
        0 <= seq_sum(s) <= bound * s.len(),
    decreases s.len(),
{
    if s.len() > 0 {
        lemma_seq_sum_bounds(s.drop_last(), bound);
        assert(bound * (s.len() - 1) + bound == bound * s.len()) by (nonlinear_arith);
    }
}

/// A sum of nonnegative terms is at least each of its prefix sums.
pub proof fn lemma_seq_sum_prefix(s: Seq<int>, k: int)
    requires
        0 <= k <= s.len(),
        forall|j: int| 0 <= j < s.len() ==> 0 <= #[trigger] s[j],
    ensures
        0 <= seq_sum(s.subrange(0, k)) <= seq_sum(s),
{
    lemma_seq_sum_split(s, 0, k, s.len() as int);
    assert(s.subrange(0, s.len() as int) =~= s);
    assert forall|j: int| 0 <= j < k implies 0 <= #[trigger] s.subrange(0, k)[j] by {}
    lemma_seq_sum_nonneg(s.subrange(0, k));
    assert forall|j: int| 0 <= j < s.len() - k implies 0 <= #[trigger] s.subrange(
        k,
        s.len() as int,
    )[j] by {}
    lemma_seq_sum_nonneg(s.subrange(k, s.len() as int));
}

/// A sum of nonnegative terms is nonnegative.
pub proof fn lemma_seq_sum_nonneg(s: Seq<int>)
    requires
        forall|j: int| 0 <= j < s.len() ==> 0 <= #[trigger] s[j],
    ensures
        0 <= seq_sum(s),
    decreases s.len(),
{
    if s.len() > 0 {
        lemma_seq_sum_nonneg(s.drop_last());
    }
}

/// How many of the `count` bytes from `index` lie below `len`.
pub open spec fn covered(index: int, count: int, len: int) -> int {
    if index >= len {
        0
    } else if index + count <= len {
        count
    } else {
        len - index
    }
}

/// Bytes as integers.
pub open spec fn byte_values(data: Seq<u8>) -> Seq<int> {
    data.map_values(|x: u8| x as int)
}

/// The total of the per-byte terms `vals` over the block `(index, count)`, clamped
/// to the terms there are.
pub open spec fn block_total(vals: Seq<int>, index: int, count: int) -> int {
    if index < vals.len() {
        seq_sum(vals.subrange(index, index + covered(index, count, vals.len() as int)))
    } else {
        0
    }
}

/// The sum of the bytes of `data` in the block `(index, count)`, clamped to the data.
pub open spec fn range_sum(data: Seq<u8>, index: int, count: int) -> int {
    block_total(byte_values(data), index, count)
}

/// Block totals add up over two adjacent blocks.
pub proof fn lemma_block_total_split(vals: Seq<int>, index: int, a: int, c: int)
    requires
        0 <= index,
        0 <= a,
        0 <= c,
    ensures
        block_total(vals, index, a + c) == block_total(vals, index, a) + block_total(
            vals,
            index + a,
            c,
        ),
{
    let len = vals.len() as int;
    if index < len {
        if index + a < len {
            lemma_seq_sum_split(
                vals,
                index,
                index + a,
                index + a + covered(index + a, c, len),
            );
        }
    }
}

/// The totals of `k` consecutive blocks of `sub` terms add up to the total of
/// the block they make up.
pub proof fn lemma_block_total_children(vals: Seq<int>, index: int, sub: int, k: int)
    requires
        0 <= index,
        0 <= sub,
        0 <= k,
    ensures
        seq_sum(Seq::new(k as nat, |j: int| block_total(vals, index + j * sub, sub)))
            == block_total(vals, index, k * sub),
    decreases k,
{
    let parts = Seq::new(k as nat, |j: int| block_total(vals, index + j * sub, sub));
    if k == 0 {
        assert(block_total(vals, index, 0) == 0) by {
            if index < vals.len() {
                assert(vals.subrange(index, index) =~= Seq::<int>::empty());
            }
        }
    } else {
        lemma_block_total_children(vals, index, sub, k - 1);
        assert(parts.drop_last() =~= Seq::new(
            (k - 1) as nat,
            |j: int| block_total(vals, index + j * sub, sub),
        ));
        assert((k - 1) * sub + sub == k * sub) by (nonlinear_arith);
        assert(0 <= (k - 1) * sub) by (nonlinear_arith)
            requires
                k >= 1,
                sub >= 0,
        ;
        lemma_block_total_split(vals, index, (k - 1) * sub, sub);
    }
}

/// A block total of terms within `[0, bound]` lies within `[0, bound * covered]`.
pub proof fn lemma_block_total_bounds(vals: Seq<int>, index: int, count: int, bound: int)
    requires
        0 <= index,
        0 <= count,
        0 <= bound,
        forall|k: int| 0 <= k < vals.len() ==> 0 <= #[trigger] vals[k] <= bound,
    ensures
        0 <= block_total(vals, index, count) <= bound * covered(index, count, vals.len() as int),
{
    if index < vals.len() {
        let part = vals.subrange(index, index + covered(index, count, vals.len() as int));
        assert forall|k: int| 0 <= k < part.len() implies 0 <= #[trigger] part[k] <= bound by {
            assert(part[k] == vals[index + k]);
        }
        lemma_seq_sum_bounds(part, bound);
    }
}

/// The direct aggregates of the `b * b` sub-blocks, at the next finer level, of
/// the block at `level` that starts at `index`.
pub open spec fn sub_block_values<T, C: Cacheable<T>>(
    c: &C,
    index: int,
    level: nat,
    b: int,
) -> Seq<T> {
    let sub = block_size((level - 1) as nat, b);
    Seq::new((b * b) as nat, |j: int| c.spec_value(index + j * sub, sub))
}

/// Values in `u64` as integers.
pub open spec fn u64_values(values: Seq<u64>) -> Seq<int> {
    values.map_values(|x: u64| x as int)
}

/// `Cacheable` functions on range blocks can be stored in a `RangeBlockCache`.
///
/// `value` computes the aggregate of a block directly; `value_from_sub_blocks`
/// combines the aggregates of consecutive sub-blocks into that of the block
/// they make up.
pub trait Cacheable<T> {
    /// The aggregator is set up so that its arithmetic cannot overflow.
    spec fn wf(&self) -> bool;

    /// The aggregate of the block `(index, count)`.
    spec fn spec_value(&self, index: int, count: int) -> T;

    /// The aggregate combined from sub-block aggregates.
    spec fn spec_combine(&self, values: Seq<T>) -> T;

    /// `v` is no larger than an aggregate over the block `(index, count)` can be.
    spec fn bounded(&self, v: T, index: int, count: int) -> bool;

    /// Combining `values` stays within the arithmetic of `T`.
    spec fn combinable(&self, values: Seq<T>) -> bool;

    fn value(&self, index: u64, count: u64) -> (r: T)
        requires
            self.wf(),
        ensures
            r == self.spec_value(index as int, count as int),
    ;

    fn value_from_sub_blocks(&self, value: &[T]) -> (r: T)
        requires
            self.wf(),
            self.combinable(value@),
        ensures
            r == self.spec_combine(value@),
    ;

    /// A direct aggregate is bounded by its block.
    proof fn lemma_value_bounded(&self, index: int, count: int)
        requires
            self.wf(),
            0 <= index,
            0 <= count,
        ensures
            self.bounded(self.spec_value(index, count), index, count),
    ;

    /// Combining the bounded aggregates of consecutive sub-blocks is possible,
    /// and bounded by the block they make up.
    proof fn lemma_combine_bounded(&self, values: Seq<T>, index: int, sub_count: int)
        requires
            self.wf(),
            0 <= index,
            0 <= sub_count,
            forall|j: int|
                0 <= j < values.len() ==> self.bounded(
                    #[trigger] values[j],
                    index + j * sub_count,
                    sub_count,
                ),
        ensures
            self.combinable(values),
            self.bounded(self.spec_combine(values), index, values.len() * sub_count),
    ;
}

/// A sum of consecutive block bounds is the bound of the block they make up.
proof fn lemma_covered_sum(bounds: Seq<int>, index: int, sub_count: int, len: int, scale: int)
    requires
        0 <= index,
        0 <= sub_count,
        0 <= scale,
        0 <= len,
        forall|j: int|
            0 <= j < bounds.len() ==> 0 <= #[trigger] bounds[j] <= scale * covered(
                index + j * sub_count,
                sub_count,
                len,
            ),
    ensures
        0 <= seq_sum(bounds) <= scale * covered(index, bounds.len() * sub_count, len),
    decreases bounds.len(),
{
    let k = bounds.len() as int;
    if k > 0 {
        let rest = bounds.drop_last();
        assert forall|j: int| 0 <= j < rest.len() implies 0 <= #[trigger] rest[j] <= scale
            * covered(index + j * sub_count, sub_count, len) by {
            assert(rest[j] == bounds[j]);
        }
        lemma_covered_sum(rest, index, sub_count, len, scale);
        assert((k - 1) * sub_count + sub_count == k * sub_count) by (nonlinear_arith);
        assert(0 <= (k - 1) * sub_count) by (nonlinear_arith)
            requires
                k >= 1,
                sub_count >= 0,
        ;
        let a = covered(index, (k - 1) * sub_count, len);
        let c = covered(index + (k - 1) * sub_count, sub_count, len);
        assert(covered(index, k * sub_count, len) == a + c);
        assert(scale * a + scale * c == scale * (a + c)) by (nonlinear_arith);
    }
}

/// `RangeBlockSum` is a `Cacheable` implementor that allows cached access to the sum
/// of bytes in a range block.
pub struct RangeBlockSum<'a> {
    data: &'a [u8],
}

impl<'a> RangeBlockSum<'a> {
    /// The bytes summed.
    pub closed spec fn data(&self) -> Seq<u8> {
        self.data@
    }

    /// Sums the bytes of `data`.
    pub fn new(data: &'a [u8]) -> (r: Self)
        ensures
            r.data() == data@,
    {
        Self { data }
    }

    /// The sum of the bytes in the block `(index, count)` that lie within the data;
    /// zero where none do.
    pub fn block_sum(&self, index: u64, count: u64) -> (r: u64)
        requires
            self.data().len() * 255 <= u64::MAX,
        ensures
            r == range_sum(self.data(), index as int, count as int),
    {
        let len = self.data.len();
        let end = index.saturating_add(count);
        let limit: usize = if (len as u64) < end {
            len
        } else {
            end as usize
        };
        if index < len as u64 {
            let start = index as usize;
            let ghost bytes = byte_values(self.data@);
            let mut sum: u64 = 0;
            let mut i = start;
            while i < limit
                invariant
                    start <= i <= limit <= len,
                    len == self.data@.len(),
                    len * 255 <= u64::MAX,
                    bytes == byte_values(self.data@),
                    sum == seq_sum(bytes.subrange(start as int, i as int)),
                    sum <= 255 * (i - start),
                decreases limit - i,
            {
                proof {
                    assert(bytes.subrange(start as int, i + 1).drop_last() =~= bytes.subrange(
                        start as int,
                        i as int,
                    ));
                }
                sum = sum + self.data[i] as u64;
                i = i + 1;
            }
            sum
        } else {
            0
        }
    }
}

impl<'a> Cacheable<u64> for RangeBlockSum<'a> {
    open spec fn wf(&self) -> bool {
        self.data().len() * 255 <= u64::MAX
    }

    open spec fn spec_value(&self, index: int, count: int) -> u64 {
        range_sum(self.data(), index, count) as u64
    }

    open spec fn spec_combine(&self, values: Seq<u64>) -> u64 {
        seq_sum(u64_values(values)) as u64
    }

    open spec fn bounded(&self, v: u64, index: int, count: int) -> bool {
        v <= 255 * covered(index, count, self.data().len() as int)
    }

    open spec fn combinable(&self, values: Seq<u64>) -> bool {
        seq_sum(u64_values(values)) <= u64::MAX
    }

    fn value(&self, index: u64, count: u64) -> (r: u64) {
        self.block_sum(index, count)
    }

    fn value_from_sub_blocks(&self, value: &[u64]) -> (r: u64) {
        let ghost vals = u64_values(value@);
        proof {
            assert forall|j: int| 0 <= j < vals.len() implies 0 <= #[trigger] vals[j] by {}
        }
        let mut sum: u64 = 0;
        let mut i: usize = 0;
        while i < value.len()
            invariant
                i <= value@.len(),
                vals == u64_values(value@),
                forall|j: int| 0 <= j < vals.len() ==> 0 <= #[trigger] vals[j],
                seq_sum(vals) <= u64::MAX,
                sum == seq_sum(vals.subrange(0, i as int)),
            decreases value.len() - i,
        {
            proof {
                assert(vals.subrange(0, i + 1).drop_last() =~= vals.subrange(0, i as int));
                lemma_seq_sum_prefix(vals, i + 1);
            }
            sum = sum + value[i];
            i = i + 1;
        }
        proof {
            assert(vals.subrange(0, vals.len() as int) =~= vals);
        }
        sum
    }

    proof fn lemma_value_bounded(&self, index: int, count: int) {
        let data = self.data();
        if index < data.len() {
            let cov = covered(index, count, data.len() as int);
            let part = byte_values(data).subrange(index, index + cov);
            lemma_seq_sum_bounds(part, 255);
        }
    }

    proof fn lemma_combine_bounded(&self, values: Seq<u64>, index: int, sub_count: int) {
        let len = self.data().len() as int;
        let vals = u64_values(values);
        lemma_covered_sum(vals, index, sub_count, len, 255);
        assert(covered(index, values.len() * sub_count, len) <= len);
    }
}

/// Combining the sums of the sub-blocks of a block (an aligned block in
/// particular) gives the block's sum computed directly.
pub proof fn lemma_sum_sub_blocks(agg: &RangeBlockSum, index: int, level: nat, b: int)
    requires
        agg.wf(),
        b > 1,
        level >= 1,
        index >= 0,
    ensures
        agg.spec_combine(sub_block_values(agg, index, level, b)) == agg.spec_value(
            index,
            block_size(level, b),
        ),
{
    let sub = block_size((level - 1) as nat, b);
    lemma_block_size_monotone(0, (level - 1) as nat, b);
    let vals = byte_values(agg.data());
    let len = agg.data().len() as int;
    let k = b * b;
    assert forall|i: int| 0 <= i < vals.len() implies 0 <= #[trigger] vals[i] <= 255 by {}
    let children = sub_block_values(agg, index, level, b);
    let totals = Seq::new(k as nat, |j: int| block_total(vals, index + j * sub, sub));
    assert(k * sub == block_size(level, b)) by (nonlinear_arith)
        requires
            k == b * b,
            block_size(level, b) == b * b * sub,
    ;
    assert forall|j: int| 0 <= j < k implies #[trigger] u64_values(children)[j] == totals[j] by {
        assert(0 <= j * sub) by (nonlinear_arith)
            requires
                j >= 0,
                sub >= 1,
        ;
        lemma_block_total_bounds(vals, index + j * sub, sub, 255);
        assert(255 * covered(index + j * sub, sub, len) <= 255 * len) by (nonlinear_arith)
            requires
                covered(index + j * sub, sub, len) <= len,
        ;
    }
    assert(u64_values(children) =~= totals);
    lemma_block_total_children(vals, index, sub, k);
    lemma_block_total_bounds(vals, index, k * sub, 255);
    assert(255 * covered(index, k * sub, len) <= 255 * len) by (nonlinear_arith)
        requires
            covered(index, k * sub, len) <= len,
    ;
}

/// The color triple that the color function gives a byte.
pub open spec fn color_of<F: Fn(u8) -> (u64, u64, u64)>(f: F, x: u8) -> (u64, u64, u64) {
    choose|r: (u64, u64, u64)| call_ensures(f, (x,), r)
}

/// `f` can be called on every byte, answers as a function of the byte alone, and
/// gives each channel as an 8-bit value.
pub open spec fn is_color_fn<F: Fn(u8) -> (u64, u64, u64)>(f: F) -> bool {
    &&& forall|x: u8| call_requires(f, (x,))
    &&& forall|x: u8, r: (u64, u64, u64)| call_ensures(f, (x,), r) ==> r == color_of(f, x)
    &&& forall|x: u8|
        #![trigger color_of(f, x)]
        color_of(f, x).0 <= 255 && color_of(f, x).1 <= 255 && color_of(f, x).2 <= 255
}

/// One channel of the colors of `data`, as integers.
pub open spec fn channel_values<F: Fn(u8) -> (u64, u64, u64)>(
    f: F,
    data: Seq<u8>,
    channel: int,
) -> Seq<int> {
    data.map_values(
        |x: u8|
            if channel == 0 {
                color_of(f, x).0 as int
            } else if channel == 1 {
                color_of(f, x).1 as int
            } else {
                color_of(f, x).2 as int
            },
    )
}

/// One channel of a sequence of color triples, as integers.
pub open spec fn channel_of(values: Seq<(u64, u64, u64)>, channel: int) -> Seq<int> {
    values.map_values(
        |v: (u64, u64, u64)|
            if channel == 0 {
                v.0 as int
            } else if channel == 1 {
                v.1 as int
            } else {
                v.2 as int
            },
    )
}

/// `RangeBlockColorSum` is a `Cacheable` implementor that allows cached access to the sum
/// of the RGB color channels of every cell in a range block, according to some cell
/// coloring scheme.
pub struct RangeBlockColorSum<'a, F: Fn(u8) -> (u64, u64, u64)> {
    data: &'a [u8],
    color_fn: F,
}

impl<'a, F: Fn(u8) -> (u64, u64, u64)> RangeBlockColorSum<'a, F> {
    /// The bytes colored.
    pub closed spec fn data(&self) -> Seq<u8> {
        self.data@
    }

    /// The coloring scheme.
    pub closed spec fn color_fn(&self) -> F {
        self.color_fn
    }

    /// Sums the colors that `color_fn` gives the bytes of `data`.
    pub fn new(data: &'a [u8], color_fn: F) -> (r: Self)
        ensures
            r.data() == data@,
            r.color_fn() == color_fn,
    {
        Self { data, color_fn }
    }

    /// The channel-wise sums of the colors of the bytes in the block
    /// `(index, count)` that lie within the data; zeros where none do.
    pub fn block_color_sum(&self, index: u64, count: u64) -> (r: (u64, u64, u64))
        requires
            self.data().len() * 255 <= u64::MAX,
            is_color_fn(self.color_fn()),
        ensures
            r.0 == block_total(channel_values(self.color_fn(), self.data(), 0), index as int, count as int),
            r.1 == block_total(channel_values(self.color_fn(), self.data(), 1), index as int, count as int),
            r.2 == block_total(channel_values(self.color_fn(), self.data(), 2), index as int, count as int),
    {
        let ghost f = self.color_fn;
        let ghost c0 = channel_values(f, self.data@, 0);
        let ghost c1 = channel_values(f, self.data@, 1);
        let ghost c2 = channel_values(f, self.data@, 2);
        let len = self.data.len();
        let end = index.saturating_add(count);
        let limit: usize = if (len as u64) < end {
            len
        } else {
            end as usize
        };
        if index < len as u64 {
            let start = index as usize;
            let mut sum_r: u64 = 0;
            let mut sum_g: u64 = 0;
            let mut sum_b: u64 = 0;
            let mut i = start;
            while i < limit
                invariant
                    start <= i <= limit <= len,
                    len == self.data@.len(),
                    len * 255 <= u64::MAX,
                    f == self.color_fn,
                    is_color_fn(f),
                    c0 == channel_values(f, self.data@, 0),
                    c1 == channel_values(f, self.data@, 1),
                    c2 == channel_values(f, self.data@, 2),
                    sum_r == seq_sum(c0.subrange(start as int, i as int)),
                    sum_g == seq_sum(c1.subrange(start as int, i as int)),
                    sum_b == seq_sum(c2.subrange(start as int, i as int)),
                    sum_r <= 255 * (i - start),
                    sum_g <= 255 * (i - start),
                    sum_b <= 255 * (i - start),
                decreases limit - i,
            {
                proof {
                    assert(c0.subrange(start as int, i + 1).drop_last() =~= c0.subrange(
                        start as int,
                        i as int,
                    ));
                    assert(c1.subrange(start as int, i + 1).drop_last() =~= c1.subrange(
                        start as int,
                        i as int,
                    ));
                    assert(c2.subrange(start as int, i + 1).drop_last() =~= c2.subrange(
                        start as int,
                        i as int,
                    ));
                }
                let (r, g, b) = (self.color_fn)(self.data[i]);
                proof {
                    assert(color_of(f, self.data@[i as int]) == (r, g, b));
                }
                sum_r = sum_r + r;
                sum_g = sum_g + g;
                sum_b = sum_b + b;
                i = i + 1;
            }
            (sum_r, sum_g, sum_b)
        } else {
            (0, 0, 0)
        }
    }
}

impl<'a, F: Fn(u8) -> (u64, u64, u64)> Cacheable<(u64, u64, u64)> for RangeBlockColorSum<'a, F> {
    open spec fn wf(&self) -> bool {
        &&& self.data().len() * 255 <= u64::MAX
        &&& is_color_fn(self.color_fn())
    }

    open spec fn spec_value(&self, index: int, count: int) -> (u64, u64, u64) {
        (
            block_total(channel_values(self.color_fn(), self.data(), 0), index, count) as u64,
            block_total(channel_values(self.color_fn(), self.data(), 1), index, count) as u64,
            block_total(channel_values(self.color_fn(), self.data(), 2), index, count) as u64,
        )
    }

    open spec fn spec_combine(&self, values: Seq<(u64, u64, u64)>) -> (u64, u64, u64) {
        (
            seq_sum(channel_of(values, 0)) as u64,
            seq_sum(channel_of(values, 1)) as u64,
            seq_sum(channel_of(values, 2)) as u64,
        )
    }

    open spec fn bounded(&self, v: (u64, u64, u64), index: int, count: int) -> bool {
        let limit = 255 * covered(index, count, self.data().len() as int);
        v.0 <= limit && v.1 <= limit && v.2 <= limit
    }

    open spec fn combinable(&self, values: Seq<(u64, u64, u64)>) -> bool {
        &&& seq_sum(channel_of(values, 0)) <= u64::MAX
        &&& seq_sum(channel_of(values, 1)) <= u64::MAX
        &&& seq_sum(channel_of(values, 2)) <= u64::MAX
    }

    fn value(&self, index: u64, count: u64) -> (r: (u64, u64, u64)) {
        self.block_color_sum(index, count)
    }

    fn value_from_sub_blocks(&self, value: &[(u64, u64, u64)]) -> (r: (u64, u64, u64)) {
        let ghost v0 = channel_of(value@, 0);
        let ghost v1 = channel_of(value@, 1);
        let ghost v2 = channel_of(value@, 2);
        let mut sum_r: u64 = 0;
        let mut sum_g: u64 = 0;
        let mut sum_b: u64 = 0;
        let mut i: usize = 0;
        while i < value.len()
            invariant
                i <= value@.len(),
                v0 == channel_of(value@, 0),
                v1 == channel_of(value@, 1),
                v2 == channel_of(value@, 2),
                seq_sum(v0) <= u64::MAX,
                seq_sum(v1) <= u64::MAX,
                seq_sum(v2) <= u64::MAX,
                sum_r == seq_sum(v0.subrange(0, i as int)),
                sum_g == seq_sum(v1.subrange(0, i as int)),
                sum_b == seq_sum(v2.subrange(0, i as int)),
            decreases value.len() - i,
        {
            proof {
                assert(v0.subrange(0, i + 1).drop_last() =~= v0.subrange(0, i as int));
                assert(v1.subrange(0, i + 1).drop_last() =~= v1.subrange(0, i as int));
                assert(v2.subrange(0, i + 1).drop_last() =~= v2.subrange(0, i as int));
                assert forall|j: int| 0 <= j < v0.len() implies 0 <= #[trigger] v0[j] by {}
                assert forall|j: int| 0 <= j < v1.len() implies 0 <= #[trigger] v1[j] by {}
                assert forall|j: int| 0 <= j < v2.len() implies 0 <= #[trigger] v2[j] by {}
                lemma_seq_sum_prefix(v0, i + 1);
                lemma_seq_sum_prefix(v1, i + 1);
                lemma_seq_sum_prefix(v2, i + 1);
            }
            let (r, g, b) = value[i];
            sum_r = sum_r + r;
            sum_g = sum_g + g;
            sum_b = sum_b + b;
            i = i + 1;
        }
        proof {
            assert(v0.subrange(0, v0.len() as int) =~= v0);
            assert(v1.subrange(0, v1.len() as int) =~= v1);
            assert(v2.subrange(0, v2.len() as int) =~= v2);
        }
        (sum_r, sum_g, sum_b)
    }

    proof fn lemma_value_bounded(&self, index: int, count: int) {
        let f = self.color_fn();
        let data = self.data();
        let len = data.len() as int;
        assert forall|ch: int| 0 <= ch < 3 implies 0 <= #[trigger] block_total(
            channel_values(f, data, ch),
            index,
            count,
        ) <= 255 * covered(index, count, len) by {
            let vals = channel_values(f, data, ch);
            assert forall|k: int| 0 <= k < vals.len() implies 0 <= #[trigger] vals[k] <= 255 by {
                assert(color_of(f, data[k]).0 <= 255);
            }
            lemma_block_total_bounds(vals, index, count, 255);
        }
        assert(255 * covered(index, count, len) <= 255 * len) by (nonlinear_arith)
            requires
                covered(index, count, len) <= len,
        ;
        assert(0 <= block_total(channel_values(f, data, 0), index, count));
        assert(0 <= block_total(channel_values(f, data, 1), index, count));
        assert(0 <= block_total(channel_values(f, data, 2), index, count));
    }

    proof fn lemma_combine_bounded(
        &self,
        values: Seq<(u64, u64, u64)>,
        index: int,
        sub_count: int,
    ) {
        let len = self.data().len() as int;
        assert forall|ch: int| 0 <= ch < 3 implies 0 <= #[trigger] seq_sum(channel_of(values, ch))
            <= 255 * covered(index, values.len() * sub_count, len) by {
            let vals = channel_of(values, ch);
            assert forall|j: int| 0 <= j < vals.len() implies 0 <= #[trigger] vals[j] <= 255
                * covered(index + j * sub_count, sub_count, len) by {
                assert(self.bounded(values[j], index + j * sub_count, sub_count));
            }
            lemma_covered_sum(vals, index, sub_count, len, 255);
        }
        assert(covered(index, values.len() * sub_count, len) <= len);
        assert(255 * covered(index, values.len() * sub_count, len) <= 255 * len)
            by (nonlinear_arith)
            requires
                covered(index, values.len() * sub_count, len) <= len,
        ;
        assert(0 <= seq_sum(channel_of(values, 0)));
        assert(0 <= seq_sum(channel_of(values, 1)));
        assert(0 <= seq_sum(channel_of(values, 2)));
    }
}

/// Combining the color sums of the sub-blocks of a block (an aligned block in
/// particular) gives the block's color sum computed directly.
pub proof fn lemma_color_sum_sub_blocks<F: Fn(u8) -> (u64, u64, u64)>(
    agg: &RangeBlockColorSum<F>,
    index: int,
    level: nat,
    b: int,
)
    requires
        agg.wf(),
        b > 1,
        level >= 1,
        index >= 0,
    ensures
        agg.spec_combine(sub_block_values(agg, index, level, b)) == agg.spec_value(
            index,
            block_size(level, b),
        ),
{
    let sub = block_size((level - 1) as nat, b);
    lemma_block_size_monotone(0, (level - 1) as nat, b);
    let f = agg.color_fn();
    let data = agg.data();
    let len = data.len() as int;
    let k = b * b;
    let children = sub_block_values(agg, index, level, b);
    assert(k * sub == block_size(level, b)) by (nonlinear_arith)
        requires
            k == b * b,
            block_size(level, b) == b * b * sub,
    ;
    assert forall|ch: int| 0 <= ch < 3 implies #[trigger] seq_sum(channel_of(children, ch))
        == block_total(channel_values(f, data, ch), index, k * sub) by {
        let vals = channel_values(f, data, ch);
        assert forall|i: int| 0 <= i < vals.len() implies 0 <= #[trigger] vals[i] <= 255 by {
            assert(color_of(f, data[i]).0 <= 255);
        }
        let totals = Seq::new(k as nat, |j: int| block_total(vals, index + j * sub, sub));
        assert forall|j: int| 0 <= j < k implies #[trigger] channel_of(children, ch)[j]
            == totals[j] by {
            assert(0 <= j * sub) by (nonlinear_arith)
                requires
                    j >= 0,
                    sub >= 1,
            ;
            lemma_block_total_bounds(vals, index + j * sub, sub, 255);
            assert(255 * covered(index + j * sub, sub, len) <= 255 * len) by (nonlinear_arith)
                requires
                    covered(index + j * sub, sub, len) <= len,
            ;
        }
        assert(channel_of(children, ch) =~= totals);
        lemma_block_total_children(vals, index, sub, k);
    }
    assert forall|ch: int| 0 <= ch < 3 implies 0 <= #[trigger] block_total(
        channel_values(f, data, ch),
        index,
        k * sub,
    ) <= u64::MAX by {
        let vals = channel_values(f, data, ch);
        assert forall|i: int| 0 <= i < vals.len() implies 0 <= #[trigger] vals[i] <= 255 by {
            assert(color_of(f, data[i]).0 <= 255);
        }
        lemma_block_total_bounds(vals, index, k * sub, 255);
        assert(255 * covered(index, k * sub, len) <= 255 * len) by (nonlinear_arith)
            requires
                covered(index, k * sub, len) <= len,
        ;
    }
    assert(seq_sum(channel_of(children, 0)) == block_total(channel_values(f, data, 0), index, k * sub));
    assert(seq_sum(channel_of(children, 1)) == block_total(channel_values(f, data, 1), index, k * sub));
    assert(seq_sum(channel_of(children, 2)) == block_total(channel_values(f, data, 2), index, k * sub));
    assert(0 <= block_total(channel_values(f, data, 0), index, k * sub) <= u64::MAX);
    assert(0 <= block_total(channel_values(f, data, 1), index, k * sub) <= u64::MAX);
    assert(0 <= block_total(channel_values(f, data, 2), index, k * sub) <= u64::MAX);
}

/// One for each position, below the length of the shorter buffer, at which
/// the two buffers hold different bytes; zero for each at which they agree.
pub open spec fn diff_flags(data0: Seq<u8>, data1: Seq<u8>) -> Seq<int> {
    let n = if data0.len() < data1.len() {
        data0.len()
    } else {
        data1.len()
    };
    Seq::new(n, |k: int| if data0[k] != data1[k] { 1int } else { 0int })
}

/// The present counts of a sequence of optional counts, absent ones as zero.
pub open spec fn present_counts(values: Seq<Option<usize>>) -> Seq<int> {
    values.map_values(
        |v: Option<usize>|
            match v {
                Some(x) => x as int,
                None => 0int,
            },
    )
}

/// Some of the optional counts are present.
pub open spec fn any_present(values: Seq<Option<usize>>) -> bool {
    exists|j: int| 0 <= j < values.len() && values[j] is Some
}

/// `RangeBlockDiff` is a `Cacheable` implementor that allows cached access to the total
/// count of byte indices within a range block at which two buffers hold different byte
/// values.
pub struct RangeBlockDiff<'a> {
    data0: &'a [u8],
    data1: &'a [u8],
    overlap: usize,
}

impl<'a> RangeBlockDiff<'a> {
    /// The first buffer.
    pub closed spec fn data0(&self) -> Seq<u8> {
        self.data0@
    }

    /// The second buffer.
    pub closed spec fn data1(&self) -> Seq<u8> {
        self.data1@
    }

    /// The length that both buffers have.
    pub closed spec fn overlap(&self) -> usize {
        self.overlap
    }

    /// Compares `data0` with `data1`.
    pub fn new(data0: &'a [u8], data1: &'a [u8]) -> (r: Self)
        ensures
            r.data0() == data0@,
            r.data1() == data1@,
            r.wf(),
    {
        let overlap = if data0.len() < data1.len() {
            data0.len()
        } else {
            data1.len()
        };
        Self { data0, data1, overlap }
    }

    /// The number of positions in the block `(index, count)` at which both buffers
    /// have a byte and the bytes differ; `None` where the block starts at or past
    /// the end of the shorter buffer.
    pub fn block_diff(&self, index: u64, count: u64) -> (r: Option<usize>)
        requires
            self.wf(),
        ensures
            r == self.spec_value(index as int, count as int),
    {
        let ghost flags = diff_flags(self.data0@, self.data1@);
        let data_len = self.overlap;
        let end = index.saturating_add(count);
        let limit: usize = if (data_len as u64) < end {
            data_len
        } else {
            end as usize
        };
        if index < data_len as u64 {
            let start = index as usize;
            let mut differing: usize = 0;
            let mut i = start;
            while i < limit
                invariant
                    start <= i <= limit <= data_len,
                    data_len == flags.len(),
                    data_len <= self.data0@.len(),
                    data_len <= self.data1@.len(),
                    flags == diff_flags(self.data0@, self.data1@),
                    differing == seq_sum(flags.subrange(start as int, i as int)),
                    differing <= i - start,
                decreases limit - i,
            {
                proof {
                    assert(flags.subrange(start as int, i + 1).drop_last() =~= flags.subrange(
                        start as int,
                        i as int,
                    ));
                }
                if self.data0[i] != self.data1[i] {
                    differing = differing + 1;
                }
                i = i + 1;
            }
            Some(differing)
        } else {
            None
        }
    }
}

impl<'a> Cacheable<Option<usize>> for RangeBlockDiff<'a> {
    open spec fn wf(&self) -> bool {
        self.overlap() == diff_flags(self.data0(), self.data1()).len()
    }

    open spec fn spec_value(&self, index: int, count: int) -> Option<usize> {
        if index < self.overlap() {
            Some(block_total(diff_flags(self.data0(), self.data1()), index, count) as usize)
        } else {
            None
        }
    }

    open spec fn spec_combine(&self, values: Seq<Option<usize>>) -> Option<usize> {
        if any_present(values) {
            Some(seq_sum(present_counts(values)) as usize)
        } else {
            None
        }
    }

    open spec fn bounded(&self, v: Option<usize>, index: int, count: int) -> bool {
        match v {
            Some(x) => x <= covered(index, count, self.overlap() as int),
            None => true,
        }
    }

    open spec fn combinable(&self, values: Seq<Option<usize>>) -> bool {
        seq_sum(present_counts(values)) <= usize::MAX
    }

    fn value(&self, index: u64, count: u64) -> (r: Option<usize>) {
        self.block_diff(index, count)
    }

    fn value_from_sub_blocks(&self, value: &[Option<usize>]) -> (r: Option<usize>) {
        let ghost vals = present_counts(value@);
        proof {
            assert forall|j: int| 0 <= j < vals.len() implies 0 <= #[trigger] vals[j] by {}
        }
        let mut sum: usize = 0;
        let mut present = false;
        let mut i: usize = 0;
        while i < value.len()
            invariant
                i <= value@.len(),
                present == exists|j: int| 0 <= j < i && value@[j] is Some,
                vals == present_counts(value@),
                forall|j: int| 0 <= j < vals.len() ==> 0 <= #[trigger] vals[j],
                seq_sum(vals) <= usize::MAX,
                sum == seq_sum(vals.subrange(0, i as int)),
            decreases value.len() - i,
        {
            proof {
                assert(vals.subrange(0, i + 1).drop_last() =~= vals.subrange(0, i as int));
                lemma_seq_sum_prefix(vals, i + 1);
            }
            if let Some(x) = value[i] {
                sum = sum + x;
                present = true;
            }
            i = i + 1;
        }
        proof {
            assert(vals.subrange(0, vals.len() as int) =~= vals);
        }
        if present {
            Some(sum)
        } else {
            None
        }
    }

    proof fn lemma_value_bounded(&self, index: int, count: int) {
        let flags = diff_flags(self.data0(), self.data1());
        assert forall|k: int| 0 <= k < flags.len() implies 0 <= #[trigger] flags[k] <= 1 by {}
        lemma_block_total_bounds(flags, index, count, 1);
        assert(covered(index, count, flags.len() as int) <= self.overlap());
    }

    proof fn lemma_combine_bounded(&self, values: Seq<Option<usize>>, index: int, sub_count: int) {
        let len = self.overlap() as int;
        let vals = present_counts(values);
        assert forall|j: int| 0 <= j < vals.len() implies 0 <= #[trigger] vals[j] <= 1 * covered(
            index + j * sub_count,
            sub_count,
            len,
        ) by {
            assert(self.bounded(values[j], index + j * sub_count, sub_count));
            assert(0 <= j * sub_count) by (nonlinear_arith)
                requires
                    j >= 0,
                    sub_count >= 0,
            ;
        }
        lemma_covered_sum(vals, index, sub_count, len, 1);
        assert(covered(index, values.len() * sub_count, len) <= len);
    }
}

/// Combining the difference counts of the sub-blocks of a block (an aligned
/// block in particular) gives the block's count computed directly: absent
/// exactly where the block starts at or past the end of the shorter buffer.
pub proof fn lemma_diff_sub_blocks(agg: &RangeBlockDiff, index: int, level: nat, b: int)
    requires
        agg.wf(),
        b > 1,
        level >= 1,
        0 <= index,
    ensures
        agg.spec_combine(sub_block_values(agg, index, level, b)) == agg.spec_value(
            index,
            block_size(level, b),
        ),
{
    let sub = block_size((level - 1) as nat, b);
    lemma_block_size_monotone(0, (level - 1) as nat, b);
    let flags = diff_flags(agg.data0(), agg.data1());
    let len = agg.overlap() as int;
    let k = b * b;
    assert forall|i: int| 0 <= i < flags.len() implies 0 <= #[trigger] flags[i] <= 1 by {}
    let children = sub_block_values(agg, index, level, b);
    let totals = Seq::new(k as nat, |j: int| block_total(flags, index + j * sub, sub));
    assert(k * sub == block_size(level, b)) by (nonlinear_arith)
        requires
            k == b * b,
            block_size(level, b) == b * b * sub,
    ;
    assert forall|j: int| 0 <= j < k implies #[trigger] present_counts(children)[j] == totals[j] by {
        assert(0 <= j * sub) by (nonlinear_arith)
            requires
                j >= 0,
                sub >= 1,
        ;
        lemma_block_total_bounds(flags, index + j * sub, sub, 1);
    }
    assert(present_counts(children) =~= totals);
    lemma_block_total_children(flags, index, sub, k);
    lemma_block_total_bounds(flags, index, k * sub, 1);
    assert(k >= 4) by (nonlinear_arith)
        requires
            k == b * b,
            b > 1,
    ;
    if index < agg.overlap() {
        assert(index + 0 * sub == index);
        assert(children[0] is Some);
    } else {
        assert forall|j: int| 0 <= j < k implies !(#[trigger] children[j] is Some) by {
            assert(0 <= j * sub) by (nonlinear_arith)
                requires
                    j >= 0,
                    sub >= 1,
            ;
        }
    }
}

/// The value that the cache holds for the block at `level` that starts at
/// `index`: computed directly at or below `min_level`, else combined from the
/// values of its sub-blocks.
pub open spec fn cached_value<T, C: Cacheable<T>>(
    c: &C,
    index: int,
    level: nat,
    min_level: nat,
    n: int,
    b: int,
) -> T
    decreases level, 1nat,
{
    if level <= min_level {
        c.spec_value(index, block_size(level, b))
    } else {
        c.spec_combine(cached_sub_values(c, index, level, min_level, n, b))
    }
}

/// The sub-block values that the cache combines for a block above `min_level`:
/// each taken from the level below where the sub-block starts before `n`, and
/// computed directly where it does not.
pub open spec fn cached_sub_values<T, C: Cacheable<T>>(
    c: &C,
    index: int,
    level: nat,
    min_level: nat,
    n: int,
    b: int,
) -> Seq<T>
    decreases level, 0nat,
{
    let sub = block_size((level - 1) as nat, b);
    Seq::new(
        (b * b) as nat,
        |j: int|
            if level > 0 && index + j * sub < n {
                cached_value(c, index + j * sub, (level - 1) as nat, min_level, n, b)
            } else {
                c.spec_value(index + j * sub, sub)
            },
    )
}

/// One sub-block value that the cache combines.
pub proof fn lemma_cached_sub_value<T, C: Cacheable<T>>(
    c: &C,
    index: int,
    level: nat,
    min_level: nat,
    n: int,
    b: int,
    j: int,
)
    requires
        level > 0,
        0 <= j < b * b,
    ensures
        cached_sub_values(c, index, level, min_level, n, b)[j] == if index + j * block_size(
            (level - 1) as nat,
            b,
        ) < n {
            cached_value(
                c,
                index + j * block_size((level - 1) as nat, b),
                (level - 1) as nat,
                min_level,
                n,
                b,
            )
        } else {
            c.spec_value(
                index + j * block_size((level - 1) as nat, b),
                block_size((level - 1) as nat, b),
            )
        },
{
}

/// Whether the cache built for `n` bytes keeps the blocks of `level`: from
/// `min_level` up to the maximum recursion level for `n`.
pub open spec fn level_cached(level: nat, min_level: nat, n: int, b: int) -> bool {
    min_level <= level && (level == 0 || block_size((level - 1) as nat, b) < n)
}

/// Cached values are bounded by their blocks.
pub proof fn lemma_cached_bounded<T, C: Cacheable<T>>(
    c: &C,
    index: int,
    level: nat,
    min_level: nat,
    n: int,
    b: int,
)
    requires
        c.wf(),
        b > 1,
        index >= 0,
    ensures
        c.bounded(cached_value(c, index, level, min_level, n, b), index, block_size(level, b)),
    decreases level,
{
    lemma_block_size_monotone(0, level, b);
    if level <= min_level {
        c.lemma_value_bounded(index, block_size(level, b));
    } else {
        let sub = block_size((level - 1) as nat, b);
        lemma_block_size_monotone(0, (level - 1) as nat, b);
        let children = cached_sub_values(c, index, level, min_level, n, b);
        assert forall|j: int| 0 <= j < children.len() implies c.bounded(
            #[trigger] children[j],
            index + j * sub,
            sub,
        ) by {
            assert(0 <= j * sub) by (nonlinear_arith)
                requires
                    j >= 0,
                    sub >= 1,
            ;
            if index + j * sub < n {
                lemma_cached_bounded(c, index + j * sub, (level - 1) as nat, min_level, n, b);
            } else {
                c.lemma_value_bounded(index + j * sub, sub);
            }
        }
        c.lemma_combine_bounded(children, index, sub);
        assert(children.len() * sub == block_size(level, b)) by (nonlinear_arith)
            requires
                children.len() == b * b,
                block_size(level, b) == b * b * sub,
        ;
        assert(cached_value(c, index, level, min_level, n, b) == c.spec_combine(children));
    }
}

/// Uses `Cacheable` implementors to cache functions on range block contents:
/// the sum of byte values in a range block, the byte difference count between
/// the same range block in two buffers, and the like.
///
/// Level by level, from the finest cached level up, it holds one value for
/// each block of that level, in order of offset.
pub struct RangeBlockCache<T: Copy> {
    block_sizes: Vec<u64>,
    values: Vec<Vec<T>>,
}

impl<T: Copy> RangeBlockCache<T> {
    /// Block sizes grow strictly from level to level, one row of values each.
    pub closed spec fn wf(&self) -> bool {
        &&& self.block_sizes@.len() == self.values@.len()
        &&& forall|j: int| 0 <= j < self.block_sizes@.len() ==> #[trigger] self.block_sizes@[j] >= 1
        &&& forall|i: int, j: int|
            0 <= i < j < self.block_sizes@.len() ==> #[trigger] self.block_sizes@[i]
                < #[trigger] self.block_sizes@[j]
    }

    /// The value held for the block `(index, count)`, if any.
    pub closed spec fn spec_get(&self, index: int, count: int) -> Option<T> {
        if exists|j: int| 0 <= j < self.block_sizes@.len() && self.block_sizes@[j] == count {
            let j = choose|j: int| 0 <= j < self.block_sizes@.len() && self.block_sizes@[j] == count;
            if 0 <= index && index % count == 0 && index / count < self.values@[j]@.len() {
                Some(self.values@[j]@[index / count])
            } else {
                None
            }
        } else {
            None
        }
    }

    /// An empty cache.
    pub fn new() -> (r: Self)
        ensures
            r.wf(),
            forall|index: int, count: int| #[trigger] r.spec_get(index, count) is None,
    {
        Self { block_sizes: Vec::new(), values: Vec::new() }
    }

    /// The cached value of the block `(index, count)`, if the cache holds one.
    pub fn get(&self, index: u64, count: u64) -> (r: Option<T>)
        requires
            self.wf(),
        ensures
            r == self.spec_get(index as int, count as int),
    {
        let mut j: usize = 0;
        while j < self.block_sizes.len()
            invariant
                self.wf(),
                j <= self.block_sizes@.len(),
                forall|i: int| 0 <= i < j ==> self.block_sizes@[i] != count,
            decreases self.block_sizes.len() - j,
        {
            if self.block_sizes[j] == count {
                proof {
                    let k = choose|k: int|
                        0 <= k < self.block_sizes@.len() && self.block_sizes@[k] == count;
                    if k < j {
                    } else if k > j {
                        assert(self.block_sizes@[j as int] < self.block_sizes@[k]);
                    }
                    assert(k == j);
                }
                if index % count == 0 && ((index / count) as usize) < self.values[j].len()
                    && index / count <= usize::MAX as u64 {
                    return Some(self.values[j][(index / count) as usize]);
                }
                return None;
            }
            j = j + 1;
        }
        None
    }
}

impl<T: Copy> RangeBlockCache<T> {
    /// Generates a cache for `cacheable` over `data_len` bytes. The two lowest
    /// recursion levels are skipped to save storage space; they can be
    /// calculated quickly on demand.
    pub fn generate<C: Cacheable<T>>(cacheable: &C, data_len: usize, sub_block_sqrt: u64) -> (r:
        Self)
        requires
            cacheable.wf(),
            sub_block_sqrt > 1,
            data_len * (sub_block_sqrt * sub_block_sqrt + 1) <= u64::MAX,
        ensures
            r.wf(),
            forall|index: int, level: nat|
                level_cached(level, 2, data_len as int, sub_block_sqrt as int) && 0 <= index
                    < data_len && index % block_size(level, sub_block_sqrt as int) == 0
                    ==> #[trigger] r.spec_get(index, block_size(level, sub_block_sqrt as int))
                    == Some(
                    cached_value(cacheable, index, level, 2, data_len as int, sub_block_sqrt as int),
                ),
            forall|index: int, count: int| #[trigger]
                r.spec_get(index, count) is Some ==> exists|level: nat|
                    level_cached(level, 2, data_len as int, sub_block_sqrt as int) && count
                        == block_size(level, sub_block_sqrt as int) && 0 <= index < data_len
                        && index % count == 0,
    {
        Self::generate_from_level(cacheable, data_len, sub_block_sqrt, 2)
    }

    /// Generates a cache for `cacheable` over `data_len` bytes that holds the blocks
    /// of every level from `min_recursion_level` up to the maximum recursion level.
    /// At `min_recursion_level` each value is computed directly; above it, each is
    /// combined from the values of its sub-blocks at the level below, computed
    /// directly for sub-blocks that start at or past `data_len`.
    pub fn generate_from_level<C: Cacheable<T>>(
        cacheable: &C,
        data_len: usize,
        sub_block_sqrt: u64,
        min_recursion_level: u32,
    ) -> (r: Self)
        requires
            cacheable.wf(),
            sub_block_sqrt > 1,
            data_len * (sub_block_sqrt * sub_block_sqrt + 1) <= u64::MAX,
        ensures
            r.wf(),
            forall|index: int, level: nat|
                level_cached(level, min_recursion_level as nat, data_len as int, sub_block_sqrt as int)
                    && 0 <= index < data_len && index % block_size(level, sub_block_sqrt as int) == 0
                    ==> #[trigger] r.spec_get(index, block_size(level, sub_block_sqrt as int))
                    == Some(
                    cached_value(
                        cacheable,
                        index,
                        level,
                        min_recursion_level as nat,
                        data_len as int,
                        sub_block_sqrt as int,
                    ),
                ),
            forall|index: int, count: int| #[trigger]
                r.spec_get(index, count) is Some ==> exists|level: nat|
                    level_cached(
                        level,
                        min_recursion_level as nat,
                        data_len as int,
                        sub_block_sqrt as int,
                    ) && count == block_size(level, sub_block_sqrt as int) && 0 <= index < data_len
                        && index % count == 0,
    {
        let ghost n = data_len as int;
        let ghost b = sub_block_sqrt as int;
        let ghost min = min_recursion_level as nat;
        let n64 = data_len as u64;
        let max_level = max_recursion_level(n64, sub_block_sqrt);
        proof {
            if max_level > 0 {
                let below = (max_level - 1) as nat;
                if below >= 32 {
                    lemma_level_bound(below);
                    lemma_block_size_base(below, b);
                }
                lemma_block_size_monotone(0, below, b);
                let s = block_size(below, b);
                assert(b * b * s <= u64::MAX) by (nonlinear_arith)
                    requires
                        s < n,
                        n * (b * b + 1) <= u64::MAX,
                        b > 1,
                ;
            }
        }
        let mut block_sizes: Vec<u64> = Vec::new();
        let mut values: Vec<Vec<T>> = Vec::new();
        let mut level = min_recursion_level;
        while level <= max_level
            invariant
                cacheable.wf(),
                b == sub_block_sqrt,
                b > 1,
                n == data_len,
                n64 == data_len,
                min == min_recursion_level,
                n * (b * b + 1) <= u64::MAX,
                block_size(max_level as nat, b) >= n,
                max_level == 0 || block_size((max_level - 1) as nat, b) < n,
                max_level <= 32,
                block_size(max_level as nat, b) <= u64::MAX,
                min_recursion_level <= level,
                level <= max_level + 1 || level == min_recursion_level,
                block_sizes@.len() == level - min_recursion_level,
                values@.len() == level - min_recursion_level,
                forall|j: int|
                    0 <= j < block_sizes@.len() ==> #[trigger] block_sizes@[j] == block_size(
                        (min + j) as nat,
                        b,
                    ),
                forall|j: int|
                    0 <= j < values@.len() ==> #[trigger] values@[j]@.len() == blocks_needed(
                        n,
                        block_size((min + j) as nat, b),
                    ),
                forall|j: int, k: int|
                    0 <= j < values@.len() && 0 <= k < values@[j]@.len() ==> #[trigger] values@[j]@[k]
                        == cached_value(
                        cacheable,
                        k * block_size((min + j) as nat, b),
                        (min + j) as nat,
                        min,
                        n,
                        b,
                    ),
            decreases max_level + 1 - level,
        {
            proof {
                lemma_block_size_monotone(level as nat, max_level as nat, b);
                lemma_block_size_monotone(0, level as nat, b);
            }
            let size = range_block_size(level, sub_block_sqrt);
            let mut row: Vec<T> = Vec::new();
            let mut index: u64 = 0;
            let mut k: u64 = 0;
            while index < n64
                invariant
                    cacheable.wf(),
                    b == sub_block_sqrt,
                    b > 1,
                    n == data_len,
                    n64 == data_len,
                    min == min_recursion_level,
                    n * (b * b + 1) <= u64::MAX,
                    min_recursion_level <= level <= max_level,
                    max_level == 0 || block_size((max_level - 1) as nat, b) < n,
                    block_sizes@.len() == level - min_recursion_level,
                    values@.len() == level - min_recursion_level,
                    forall|j: int|
                        0 <= j < block_sizes@.len() ==> #[trigger] block_sizes@[j] == block_size(
                            (min + j) as nat,
                            b,
                        ),
                    forall|j: int|
                        0 <= j < values@.len() ==> #[trigger] values@[j]@.len() == blocks_needed(
                            n,
                            block_size((min + j) as nat, b),
                        ),
                    forall|j: int, k2: int|
                        0 <= j < values@.len() && 0 <= k2 < values@[j]@.len()
                            ==> #[trigger] values@[j]@[k2] == cached_value(
                            cacheable,
                            k2 * block_size((min + j) as nat, b),
                            (min + j) as nat,
                            min,
                            n,
                            b,
                        ),
                    size == block_size(level as nat, b),
                    size >= 1,
                    index == k * size,
                    k == 0 || (k - 1) * size < n,
                    row@.len() == k,
                    k <= index,
                    forall|i: int|
                        0 <= i < k ==> #[trigger] row@[i] == cached_value(
                            cacheable,
                            i * size,
                            level as nat,
                            min,
                            n,
                            b,
                        ),
                decreases u64::MAX - index,
            {
                proof {
                    // the block fits: index + size stays within u64
                    if level > 0 {
                        let s = block_size((level - 1) as nat, b);
                        lemma_block_size_monotone((level - 1) as nat, (max_level - 1) as nat, b);
                        assert(index + size <= u64::MAX) by (nonlinear_arith)
                            requires
                                index < n,
                                size == b * b * s,
                                s < n,
                                n * (b * b + 1) <= u64::MAX,
                        ;
                    }
                }
                let v = if level <= min_recursion_level {
                    cacheable.value(index, size)
                } else {
                    self_children_value(
                        cacheable,
                        &values,
                        &block_sizes,
                        index,
                        k,
                        size,
                        level,
                        data_len,
                        sub_block_sqrt,
                        min_recursion_level,
                    )
                };
                row.push(v);
                proof {
                    assert((k + 1) * size == k * size + size) by (nonlinear_arith);
                    assert(k + 1 <= index + size) by (nonlinear_arith)
                        requires
                            k <= index,
                            size >= 1,
                    ;
                }
                index = index + size;
                k = k + 1;
            }
            proof {
                lemma_blocks_needed(n, size as int, k as int);
                if k > 0 {
                    lemma_blocks_needed(n, size as int, k - 1);
                }
            }
            block_sizes.push(size);
            values.push(row);
            proof {
                assert forall|j: int| 0 <= j < values@.len() implies #[trigger] values@[j]@.len()
                    == blocks_needed(n, block_size((min + j) as nat, b)) by {}
            }
            level = level + 1;
        }
        let r = Self { block_sizes, values };
        proof {
            assert forall|i: int, j: int|
                0 <= i < j < r.block_sizes@.len() implies #[trigger] r.block_sizes@[i]
                < #[trigger] r.block_sizes@[j] by {
                lemma_block_size_strict((min + i) as nat, (min + j) as nat, b);
            }
            assert forall|j: int| 0 <= j < r.block_sizes@.len() implies #[trigger] r.block_sizes@[j]
                >= 1 by {
                lemma_block_size_monotone(0, (min + j) as nat, b);
            }
            assert forall|index: int, lv: nat|
                level_cached(lv, min, n, b) && 0 <= index < n && index % block_size(lv, b) == 0
                    implies #[trigger] r.spec_get(index, block_size(lv, b)) == Some(
                cached_value(cacheable, index, lv, min, n, b),
            ) by {
                let count = block_size(lv, b);
                lemma_block_size_monotone(0, lv, b);
                if lv > max_level {
                    lemma_block_size_monotone(max_level as nat, (lv - 1) as nat, b);
                }
                let j = lv - min;
                assert(r.block_sizes@[j] == count);
                let jj = choose|jj: int| 0 <= jj < r.block_sizes@.len() && r.block_sizes@[jj] == count;
                if jj < j {
                    assert(r.block_sizes@[jj] < r.block_sizes@[j]);
                } else if jj > j {
                    assert(r.block_sizes@[j] < r.block_sizes@[jj]);
                }
                vstd::arithmetic::div_mod::lemma_fundamental_div_mod(index, count);
                assert((index / count) * count == index) by (nonlinear_arith)
                    requires
                        index == count * (index / count) + index % count,
                        index % count == 0,
                ;
                assert(index / count >= 0) by (nonlinear_arith)
                    requires
                        index >= 0,
                        count >= 1,
                        index == count * (index / count) + index % count,
                        index % count == 0,
                ;
                lemma_blocks_needed(n, count, index / count);
            }
            assert forall|index: int, count: int| #[trigger]
                r.spec_get(index, count) is Some implies exists|lv: nat|
                level_cached(lv, min, n, b) && count == block_size(lv, b) && 0 <= index < n
                    && index % count == 0 by {
                let jj = choose|jj: int| 0 <= jj < r.block_sizes@.len() && r.block_sizes@[jj] == count;
                let lv = (min + jj) as nat;
                lemma_block_size_monotone(0, lv, b);
                if lv > 0 {
                    lemma_block_size_monotone((lv - 1) as nat, (max_level - 1) as nat, b);
                }
                vstd::arithmetic::div_mod::lemma_fundamental_div_mod(index, count);
                assert((index / count) * count == index) by (nonlinear_arith)
                    requires
                        index == count * (index / count) + index % count,
                        index % count == 0,
                ;
                assert(index / count >= 0) by (nonlinear_arith)
                    requires
                        index >= 0,
                        count >= 1,
                        index == count * (index / count) + index % count,
                        index % count == 0,
                ;
                lemma_blocks_needed(n, count, index / count);
                assert(level_cached(lv, min, n, b));
            }
        }
        r
    }
}

/// The value of the block `(index, size)` at `level`, above `min_recursion_level`,
/// combined from its sub-blocks: each taken from the row of the level below where
/// it starts before `data_len`, else computed directly.
fn self_children_value<T: Copy, C: Cacheable<T>>(
    cacheable: &C,
    values: &Vec<Vec<T>>,
    block_sizes: &Vec<u64>,
    index: u64,
    k: u64,
    size: u64,
    level: u32,
    data_len: usize,
    sub_block_sqrt: u64,
    min_recursion_level: u32,
) -> (r: T)
    requires
        cacheable.wf(),
        sub_block_sqrt > 1,
        min_recursion_level < level,
        values@.len() == level - min_recursion_level,
        block_sizes@.len() == values@.len(),
        block_sizes@[values@.len() - 1] == block_size((level - 1) as nat, sub_block_sqrt as int),
        values@[values@.len() - 1]@.len() == blocks_needed(
            data_len as int,
            block_size((level - 1) as nat, sub_block_sqrt as int),
        ),
        forall|k2: int|
            0 <= k2 < values@[values@.len() - 1]@.len() ==> #[trigger] values@[values@.len()
                - 1]@[k2] == cached_value(
                cacheable,
                k2 * block_size((level - 1) as nat, sub_block_sqrt as int),
                (level - 1) as nat,
                min_recursion_level as nat,
                data_len as int,
                sub_block_sqrt as int,
            ),
        size == block_size(level as nat, sub_block_sqrt as int),
        index == k * size,
        index + size <= u64::MAX,
    ensures
        r == cached_value(
            cacheable,
            index as int,
            level as nat,
            min_recursion_level as nat,
            data_len as int,
            sub_block_sqrt as int,
        ),
{
    let ghost n = data_len as int;
    let ghost b = sub_block_sqrt as int;
    let ghost min = min_recursion_level as nat;
    let ghost want = cached_sub_values(cacheable, index as int, level as nat, min, n, b);
    let last = values.len() - 1;
    let prev = &values[last];
    let sub = block_sizes[last];
    proof {
        lemma_block_size_monotone(0, (level - 1) as nat, b);
        assert(size == b * b * sub);
        assert(b * b <= size && b * b * k <= index) by (nonlinear_arith)
            requires
                size == b * b * sub,
                sub >= 1,
                index == k * size,
                k >= 0,
        ;
    }
    let bb = sub_block_sqrt * sub_block_sqrt;
    let mut children: Vec<T> = Vec::new();
    let mut j: u64 = 0;
    while j < bb
        invariant
            cacheable.wf(),
            b == sub_block_sqrt,
            b > 1,
            n == data_len,
            min == min_recursion_level,
            bb == b * b,
            size == bb * sub,
            sub == block_size((level - 1) as nat, b),
            sub >= 1,
            index == k * size,
            index + size <= u64::MAX,
            bb * k <= index,
            prev@.len() == blocks_needed(n, sub as int),
            forall|k2: int|
                0 <= k2 < prev@.len() ==> #[trigger] prev@[k2] == cached_value(
                    cacheable,
                    k2 * sub,
                    (level - 1) as nat,
                    min,
                    n,
                    b,
                ),
            want == cached_sub_values(cacheable, index as int, level as nat, min, n, b),
            min_recursion_level < level,
            j <= bb,
            children@.len() == j,
            forall|i: int| 0 <= i < j ==> #[trigger] children@[i] == want[i],
        decreases bb - j,
    {
        proof {
            assert(j * sub < size && index + j * sub < u64::MAX) by (nonlinear_arith)
                requires
                    j < bb,
                    size == bb * sub,
                    sub >= 1,
                    index + size <= u64::MAX,
            ;
        }
        let child = index + j * sub;
        if child < data_len as u64 {
            proof {
                assert((k * bb + j) * sub == child) by (nonlinear_arith)
                    requires
                        child == index + j * sub,
                        index == k * size,
                        size == bb * sub,
                ;
                assert(k * bb + j <= child) by (nonlinear_arith)
                    requires
                        (k * bb + j) * sub == child,
                        sub >= 1,
                        k >= 0,
                        j >= 0,
                ;
                lemma_blocks_needed(n, sub as int, k * bb + j);
            }
            let pos = k * bb + j;
            children.push(prev[pos as usize]);
            proof {
                assert(prev@[pos as int] == cached_value(
                    cacheable,
                    pos * sub,
                    (level - 1) as nat,
                    min,
                    n,
                    b,
                ));
                lemma_cached_sub_value(cacheable, index as int, level as nat, min, n, b, j as int);
                assert(want[j as int] == cached_value(
                    cacheable,
                    child as int,
                    (level - 1) as nat,
                    min,
                    n,
                    b,
                ));
            }
        } else {
            children.push(cacheable.value(child, sub));
            proof {
                lemma_cached_sub_value(cacheable, index as int, level as nat, min, n, b, j as int);
            }
        }
        j = j + 1;
    }
    proof {
        assert(children@ =~= want);
        assert forall|i: int| 0 <= i < want.len() implies cacheable.bounded(
            #[trigger] want[i],
            index + i * sub,
            sub as int,
        ) by {
            assert(0 <= i * sub) by (nonlinear_arith)
                requires
                    i >= 0,
                    sub >= 1,
            ;
            if index + i * sub < n {
                lemma_cached_bounded(cacheable, index + i * sub, (level - 1) as nat, min, n, b);
            } else {
                cacheable.lemma_value_bounded(index + i * sub, sub as int);
            }
        }
        cacheable.lemma_combine_bounded(want, index as int, sub as int);
    }
    cacheable.value_from_sub_blocks(children.as_slice())
}

/// Where combining the sub-block values of every block gives the block's direct
/// value, every value the cache holds equals the direct value of its block.
pub proof fn lemma_cache_exact<T, C: Cacheable<T>>(
    c: &C,
    index: int,
    level: nat,
    min_level: nat,
    n: int,
    b: int,
)
    requires
        b > 1,
        index >= 0,
        forall|i: int, l: nat|
            i >= 0 && l >= 1 ==> #[trigger] c.spec_combine(sub_block_values(c, i, l, b))
                == c.spec_value(i, block_size(l, b)),
    ensures
        cached_value(c, index, level, min_level, n, b) == c.spec_value(index, block_size(level, b)),
    decreases level,
{
    if level > min_level {
        let sub = block_size((level - 1) as nat, b);
        lemma_block_size_monotone(0, (level - 1) as nat, b);
        let cached = cached_sub_values(c, index, level, min_level, n, b);
        let direct = sub_block_values(c, index, level, b);
        assert forall|j: int| 0 <= j < b * b implies #[trigger] cached[j] == direct[j] by {
            lemma_cached_sub_value(c, index, level, min_level, n, b, j);
            assert(0 <= j * sub) by (nonlinear_arith)
                requires
                    j >= 0,
                    sub >= 1,
            ;
            if index + j * sub < n {
                lemma_cache_exact(c, index + j * sub, (level - 1) as nat, min_level, n, b);
            }
        }
        assert(cached =~= direct);
    }
}

/// Every byte sum that the cache holds equals the sum computed directly.
pub proof fn lemma_sum_cache_exact(
    agg: &RangeBlockSum,
    index: int,
    level: nat,
    min_level: nat,
    n: int,
    b: int,
)
    requires
        agg.wf(),
        b > 1,
        index >= 0,
    ensures
        cached_value(agg, index, level, min_level, n, b) == agg.spec_value(
            index,
            block_size(level, b),
        ),
{
    assert forall|i: int, l: nat| i >= 0 && l >= 1 implies #[trigger] agg.spec_combine(
        sub_block_values(agg, i, l, b),
    ) == agg.spec_value(i, block_size(l, b)) by {
        lemma_sum_sub_blocks(agg, i, l, b);
    }
    lemma_cache_exact(agg, index, level, min_level, n, b);
}

/// Every color sum that the cache holds equals the color sum computed directly.
pub proof fn lemma_color_sum_cache_exact<F: Fn(u8) -> (u64, u64, u64)>(
    agg: &RangeBlockColorSum<F>,
    index: int,
    level: nat,
    min_level: nat,
    n: int,
    b: int,
)
    requires
        agg.wf(),
        b > 1,
        index >= 0,
    ensures
        cached_value(agg, index, level, min_level, n, b) == agg.spec_value(
            index,
            block_size(level, b),
        ),
{
    assert forall|i: int, l: nat| i >= 0 && l >= 1 implies #[trigger] agg.spec_combine(
        sub_block_values(agg, i, l, b),
    ) == agg.spec_value(i, block_size(l, b)) by {
        lemma_color_sum_sub_blocks(agg, i, l, b);
    }
    lemma_cache_exact(agg, index, level, min_level, n, b);
}

/// Every difference count that the cache holds equals the count computed
/// directly, absent ones included.
pub proof fn lemma_diff_cache_exact(
    agg: &RangeBlockDiff,
    index: int,
    level: nat,
    min_level: nat,
    n: int,
    b: int,
)
    requires
        agg.wf(),
        b > 1,
        index >= 0,
    ensures
        cached_value(agg, index, level, min_level, n, b) == agg.spec_value(
            index,
            block_size(level, b),
        ),
{
    assert forall|i: int, l: nat| i >= 0 && l >= 1 implies #[trigger] agg.spec_combine(
        sub_block_values(agg, i, l, b),
    ) == agg.spec_value(i, block_size(l, b)) by {
        lemma_diff_sub_blocks(agg, i, l, b);
    }
    lemma_cache_exact(agg, index, level, min_level, n, b);
}

} // verus!
