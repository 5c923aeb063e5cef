//! Block decomposition: a sparse table over block minima, with tables for
//! the parts of a query that stick out of whole blocks.

use vstd::prelude::*;
use crate::arith::{floor_log2, is_floor_log2, floor_log2_spec, lemma_floor_log2_spec, lemma_pow2_exceeds};
use crate::minimum::{range_min, min2, min_u64, slice_min, block_minima, lemma_block_minima_range, lemma_range_min_bound};
use crate::rmq::Rmq;
use crate::sparse_array::SparseArray;

verus! {

/// Block length used over `n` values: the base-two logarithm of `n`.
pub open spec fn block_size(n: int) -> int {
    floor_log2_spec(n)
}

/// Index of the first block that starts at or after `l`.
pub open spec fn first_full_block(l: int, s: int) -> int {
    l / s + if l % s != 0 { 1int } else { 0int }
}

/// What a query `[l, r]` over `data` returns: the smaller of the value
/// mirrored at `n - 1 - l`, the minimum over the blocks from the first one
/// starting at or after `l` through the block holding `r` (whole blocks), and
/// `data[r]`. The tables built for the ends of a query hold the values
/// themselves (the running minimum is reset and never lowered), the table
/// read for the left end in reverse order.
pub open spec fn blocks_answer(data: Seq<u64>, l: int, r: int) -> u64 {
    let s = block_size(data.len() as int);
    let lb = first_full_block(l, s);
    let rb = r / s;
    min2(min2(data[data.len() - 1 - l], range_min(data, lb * s, (rb + 1) * s)), data[r])
}

/// For a query that starts at the start of a block and ends at the end of a
/// whole block, the answer is the range minimum, or the value mirrored at
/// `n - 1 - l` when that is smaller; so it is the range minimum whenever the
/// mirrored position lies inside the range.
pub proof fn lemma_blocks_aligned_answer(data: Seq<u64>, l: int, r: int)
    requires
        data.len() >= 2,
        0 <= l <= r < data.len(),
        l % block_size(data.len() as int) == 0,
        (r + 1) % block_size(data.len() as int) == 0,
    ensures
        blocks_answer(data, l, r) == min2(data[data.len() - 1 - l], range_min(data, l, r + 1)),
        l <= data.len() - 1 - l <= r ==> blocks_answer(data, l, r) == range_min(data, l, r + 1),
{
    let n = data.len() as int;
    let s = block_size(n);
    assert(s >= 1) by {
        assert(n / 2 >= 1);
        assert(crate::arith::floor_log2_spec(n) == 1 + crate::arith::floor_log2_spec(n / 2));
        crate::arith::lemma_floor_log2_spec_nonneg(n / 2);
    }
    let lb = first_full_block(l, s);
    let rb = r / s;
    assert(lb * s == l) by {
        vstd::arithmetic::div_mod::lemma_fundamental_div_mod(l, s);
        assert(lb == l / s);
        assert(s * (l / s) == l);
        assert(lb * s == s * lb) by (nonlinear_arith);
    }
    assert((rb + 1) * s == r + 1) by {
        vstd::arithmetic::div_mod::lemma_fundamental_div_mod(r + 1, s);
        vstd::arithmetic::div_mod::lemma_fundamental_div_mod(r, s);
        assert(r + 1 == s * ((r + 1) / s));
        assert(r == s * (r / s) + r % s);
        assert(r / s == (r + 1) / s - 1) by (nonlinear_arith)
            requires r + 1 == s * ((r + 1) / s), r == s * (r / s) + r % s, 0 <= r % s < s, s >= 1;
        assert((rb + 1) * s == s * (rb + 1)) by (nonlinear_arith);
    }
    crate::minimum::lemma_range_min_bound(data, l, r + 1);
    assert(range_min(data, l, r + 1) <= data[r]);
    if l <= n - 1 - l <= r {
        assert(range_min(data, l, r + 1) <= data[n - 1 - l]);
    }
}

/// Block decomposition of the data.
pub struct Blocks {
    segments: SparseArray,
    prefix_table: Vec<u64>,
    suffix_table: Vec<u64>,
    n: usize,
    s: usize,
    block_count: usize,
    data: Ghost<Seq<u64>>,
}

impl<'a> Rmq<'a> for Blocks {
    closed spec fn source(&self) -> Seq<u64> {
        self.data@
    }

    closed spec fn well_formed(&self) -> bool {
        &&& self.n == self.data@.len()
        &&& self.n >= 2
        &&& self.s == block_size(self.n as int)
        &&& is_floor_log2(self.n as int, self.s as int)
        &&& self.s >= 1
        &&& self.block_count == self.n / self.s
        &&& self.segments.well_formed()
        &&& self.segments.source() == block_minima(self.data@, self.s as int, self.block_count as int)
        &&& self.suffix_table@ == self.data@
        &&& self.prefix_table@ == self.data@.reverse()
    }

    /// Building divides by the logarithm of the length, which is zero for a
    /// single value.
    open spec fn buildable(data: Seq<u64>) -> bool {
        data.len() >= 2
    }

    /// The block holding `r` must be a whole block, and it may not come
    /// before the first block starting at or after `l`.
    open spec fn answerable(&self, l: int, r: int) -> bool {
        let n = self.source().len() as int;
        let s = block_size(n);
        &&& 0 <= l <= r < n
        &&& first_full_block(l, s) <= r / s < n / s
    }

    open spec fn answer(&self, l: int, r: int) -> u64 {
        blocks_answer(self.source(), l, r)
    }

    fn name() -> (s: String)
        ensures
            s@ == "Blocks"@,
    {
        "Blocks".to_string()
    }

    fn max_n() -> (n: usize)
        ensures
            n == 10_000,
    {
        10_000
    }

    fn can_build(data: &[u64]) -> (b: bool) {
        data.len() >= 2
    }

    fn build(data: &'a [u64]) -> (s: Self) {
        let n: usize = data.len();
        let block_size: usize = floor_log2(n);
        proof {
            lemma_floor_log2_spec(n as int, block_size as int);
            if block_size == 0 {
                assert(vstd::arithmetic::power2::pow2(1) == 2) by { vstd::arithmetic::power2::lemma2_to64(); }
            }
            lemma_pow2_exceeds(block_size as nat);
            assert(block_size <= n);
        }
        let block_count: usize = n / block_size;
        let mut block_minima_vec: Vec<u64> = Vec::with_capacity(block_count);
        let mut i: usize = 0;
        while i < block_count
            invariant
                n == data@.len(),
                block_size >= 1,
                block_count == n / block_size,
                i <= block_count,
                block_minima_vec@ == block_minima(data@, block_size as int, i as int),
            decreases block_count - i,
        {
            assert(i * block_size + block_size <= n) by (nonlinear_arith)
                requires i < block_count, block_count == n / block_size, block_size > 0;
            let start: usize = i * block_size;
            let m: u64 = slice_min(data, start, start + block_size);
            assert((i + 1) * block_size == start + block_size) by (nonlinear_arith)
                requires start == i * block_size;
            block_minima_vec.push(m);
            assert(block_minima_vec@ =~= block_minima(data@, block_size as int, (i + 1) as int));
            i = i + 1;
        }

        let mut prefix_table: Vec<u64> = Vec::with_capacity(n);
        let mut suffix_table: Vec<u64> = Vec::with_capacity(n);

        let mut minimum: u64 = u64::MAX;
        let mut i: usize = 0;
        while i < n
            invariant
                n == data@.len(),
                block_size >= 1,
                i <= n,
                minimum == u64::MAX,
                suffix_table@ == data@.take(i as int),
            decreases n - i,
        {
            if i % block_size == 0 {
                minimum = u64::MAX;
            }
            suffix_table.push(min_u64(data[i], minimum));
            assert(suffix_table@ =~= data@.take((i + 1) as int));
            i = i + 1;
        }
        assert(data@.take(n as int) =~= data@);

        let mut i: usize = n;
        while i > 0
            invariant
                n == data@.len(),
                block_size >= 1,
                i <= n,
                minimum == u64::MAX,
                prefix_table@ =~= data@.reverse().take((n - i) as int),
            decreases i,
        {
            i = i - 1;
            if i % block_size == 0 {
                minimum = u64::MAX;
            }
            prefix_table.push(min_u64(data[i], minimum));
            assert(prefix_table@ =~= data@.reverse().take((n - i) as int));
        }
        assert(data@.reverse().take(n as int) =~= data@.reverse());

        assert(block_count >= 1) by (nonlinear_arith)
            requires block_count == n / block_size, 1 <= block_size <= n;
        let segments: SparseArray = SparseArray::build(block_minima_vec.as_slice());
        Blocks {
            segments,
            prefix_table,
            suffix_table,
            n,
            s: block_size,
            block_count,
            data: Ghost(data@),
        }
    }

    fn space(&self) -> (bytes: usize)
        ensures
            bytes == vstd::layout::size_of::<Blocks>(),
    {
        core::mem::size_of::<Blocks>()
    }

    fn can_answer(&self, l: usize, r: usize) -> (b: bool) {
        if !(l <= r && r < self.n) {
            return false;
        }
        assert(l / self.s <= l) by (nonlinear_arith) requires self.s >= 1;
        let l_block: usize = l / self.s + if l % self.s != 0 { 1 } else { 0 };
        let r_block: usize = r / self.s;
        l_block <= r_block && r_block < self.block_count
    }

    fn query(&self, l: usize, r: usize) -> (m: u64) {
        assert(l / self.s <= l) by (nonlinear_arith) requires self.s >= 1;
        let l_block: usize = l / self.s + if l % self.s != 0 { 1 } else { 0 };
        let r_block: usize = r / self.s;
        proof {
            assert((r_block + 1) * self.s <= self.n) by (nonlinear_arith)
                requires r_block < self.block_count, self.block_count == self.n / self.s, self.s > 0;
            assert(self.block_count * self.s <= self.n) by (nonlinear_arith)
                requires self.block_count == self.n / self.s, self.s > 0;
            lemma_block_minima_range(self.data@, self.s as int, self.block_count as int, l_block as int, r_block + 1);
        }
        let pre_minimum: u64 = min_u64(self.prefix_table[l], self.segments.query(l_block, r_block));
        min_u64(pre_minimum, self.suffix_table[r])
    }
}

/// Every answer of the block structure, for every query it can answer, is
/// no larger than the value mirrored at `n - 1 - l`, than `data[r]`, and
/// than every value of the whole blocks from the first one starting at or
/// after `l` through the block holding `r`; and it is one of those values.
pub proof fn lemma_blocks_answer_bounds(b: &Blocks, l: int, r: int)
    requires
        b.well_formed(),
        b.answerable(l, r),
    ensures
        ({
            let data = b.source();
            let n = data.len() as int;
            let s = block_size(n);
            let lb = first_full_block(l, s);
            let rb = r / s;
            &&& 0 <= lb * s <= (rb + 1) * s <= n
            &&& b.answer(l, r) <= data[n - 1 - l]
            &&& b.answer(l, r) <= data[r]
            &&& forall|i: int| lb * s <= i < (rb + 1) * s ==> b.answer(l, r) <= #[trigger] data[i]
            &&& b.answer(l, r) == data[n - 1 - l] || b.answer(l, r) == data[r] || exists|i: int|
                lb * s <= i < (rb + 1) * s && b.answer(l, r) == #[trigger] data[i]
        }),
{
    let data = b.data@;
    let n = data.len() as int;
    let s = b.s as int;
    let lb = first_full_block(l, s);
    let rb = r / s;
    assert(0 <= lb * s) by (nonlinear_arith) requires lb >= 0, s >= 1;
    assert(lb * s <= (rb + 1) * s) by (nonlinear_arith) requires lb <= rb, s >= 1;
    assert((rb + 1) * s <= n) by (nonlinear_arith) requires rb < n / s, s >= 1;
    lemma_range_min_bound(data, lb * s, (rb + 1) * s);
    assert(lb * s < (rb + 1) * s) by (nonlinear_arith) requires lb <= rb, s >= 1;
}

} // verus!
