//! Segment tree stored level by level: level `lvl` holds the minima of the
//! aligned blocks of length `2^lvl`.

use vstd::prelude::*;
use vstd::arithmetic::power2::{pow2, lemma_pow2_unfold, lemma_pow2_pos};
use crate::arith::{floor_log2, is_floor_log2, lemma_pow2_le, floor_log2_spec, lemma_floor_log2_spec};
use crate::minimum::{range_min, min2, min_u64, slice_min, lemma_range_min_concat, lemma_range_min_bound};
use crate::rmq::Rmq;
use vstd::arithmetic::div_mod::{lemma_fundamental_div_mod, lemma_fundamental_div_mod_converse};
use crate::sparse_array::{rows_of, lemma_shl_pow2};
use crate::space::{table_space, table_space_reported, table_bytes, row_capacities, vec_capacity, table_space_plus_reported, table_plus_bytes};

verus! {

/// Row `lvl` of a segment tree over `data`: one entry per aligned block of
/// length `2^lvl` that lies wholly inside the data, holding its minimum.
pub open spec fn segment_row_ok(data: Seq<u64>, lvl: int, row: Seq<u64>) -> bool {
    let p = pow2(lvl as nat) as int;
    &&& p <= data.len()
    &&& row.len() == (data.len() as int) / p
    &&& forall|i: int| 0 <= i < row.len() ==> #[trigger] row[i] == range_min(data, i * p, (i + 1) * p)
}

/// Every row of a segment tree over `data` is correct.
pub open spec fn segment_rows_ok(data: Seq<u64>, rows: Seq<Seq<u64>>) -> bool {
    forall|lvl: int| 0 <= lvl < rows.len() ==> segment_row_ok(data, lvl, #[trigger] rows[lvl])
}

/// Appending a correct next row keeps a segment tree correct.
pub proof fn lemma_segment_rows_push(data: Seq<u64>, rows: Seq<Seq<u64>>, row: Seq<u64>)
    requires
        segment_rows_ok(data, rows),
        segment_row_ok(data, rows.len() as int, row),
    ensures
        segment_rows_ok(data, rows.push(row)),
{
    let r2 = rows.push(row);
    assert forall|lvl: int| 0 <= lvl < r2.len() implies segment_row_ok(data, lvl, #[trigger] r2[lvl]) by {
        if lvl < rows.len() {
            assert(r2[lvl] == rows[lvl]);
        } else {
            assert(r2[lvl] == row);
        }
    }
}

/// The segment tree: `segment_tree[lvl][i]` is the minimum of
/// `data[i * 2^lvl .. (i + 1) * 2^lvl]`.
pub struct SegmentTree {
    segment_tree: Vec<Vec<u64>>,
    k: usize,
    data: Ghost<Seq<u64>>,
}

/// Testing bit `lv` of `x` tells whether `x / 2^lv` is odd.
proof fn lemma_bit_test(x: usize, lv: usize)
    requires
        lv < usize::BITS,
    ensures
        ((x & (1usize << lv)) != 0) == ((x >> lv) % 2 == 1),
{
    assert(((x & (1usize << lv)) != 0) == ((x >> lv) % 2 == 1)) by (bit_vector)
        requires lv < usize::BITS;
}

/// A multiple `x` of `p` is a multiple of `2p` when `x / p` is even, and
/// lies halfway between two multiples of `2p` when `x / p` is odd.
proof fn lemma_even_odd_multiple(x: int, p: int)
    requires
        p > 0,
        x >= 0,
        x % p == 0,
    ensures
        (x / p) * p == x,
        (x / p) % 2 == 0 ==> x % (2 * p) == 0,
        (x / p) % 2 == 1 ==> x % (2 * p) == p && (x + p) % (2 * p) == 0 && (x - p) % (2 * p) == 0,
{
    let q = x / p;
    lemma_fundamental_div_mod(x, p);
    assert(x == q * p) by (nonlinear_arith) requires x == p * q + 0;
    let t = q / 2;
    lemma_fundamental_div_mod(q, 2);
    if q % 2 == 0 {
        assert(x == t * (2 * p) + 0) by (nonlinear_arith) requires x == q * p, q == 2 * t + 0;
        lemma_fundamental_div_mod_converse(x, 2 * p, t, 0);
    } else {
        assert(x == t * (2 * p) + p) by (nonlinear_arith) requires x == q * p, q == 2 * t + 1;
        lemma_fundamental_div_mod_converse(x, 2 * p, t, p);
        assert(x + p == (t + 1) * (2 * p) + 0) by (nonlinear_arith) requires x == t * (2 * p) + p;
        lemma_fundamental_div_mod_converse(x + p, 2 * p, t + 1, 0);
        assert(x - p == t * (2 * p) + 0) by (nonlinear_arith) requires x == t * (2 * p) + p;
        lemma_fundamental_div_mod_converse(x - p, 2 * p, t, 0);
    }
}

/// Two distinct multiples of `p` are at least `p` apart.
proof fn lemma_multiples_apart(x: int, y: int, p: int)
    requires
        p > 0,
        0 <= x < y,
        x % p == 0,
        y % p == 0,
    ensures
        x + p <= y,
{
    lemma_fundamental_div_mod(x, p);
    lemma_fundamental_div_mod(y, p);
    assert(x + p <= y) by (nonlinear_arith)
        requires x == p * (x / p), y == p * (y / p), x < y, p > 0;
}

impl SegmentTree {
    /// The rows as sequences.
    pub closed spec fn rows(&self) -> Seq<Seq<u64>> {
        rows_of(self.segment_tree@)
    }
}

impl<'a> Rmq<'a> for SegmentTree {
    closed spec fn source(&self) -> Seq<u64> {
        self.data@
    }

    closed spec fn well_formed(&self) -> bool {
        &&& self.data@.len() >= 2
        &&& self.data@.len() <= usize::MAX
        &&& self.k + 1 == self.segment_tree@.len()
        &&& is_floor_log2(self.data@.len() as int, self.k as int)
        &&& segment_rows_ok(self.data@, self.rows())
    }

    /// Building divides by the logarithm of the length, which is zero for a
    /// single value.
    open spec fn buildable(data: Seq<u64>) -> bool {
        data.len() >= 2
    }

    open spec fn answerable(&self, l: int, r: int) -> bool {
        0 <= l <= r < self.source().len()
    }

    open spec fn answer(&self, l: int, r: int) -> u64 {
        range_min(self.source(), l, r + 1)
    }

    fn name() -> (s: String)
        ensures
            s@ == "Segment tree"@,
    {
        "Segment tree".to_string()
    }

    fn max_n() -> (n: usize)
        ensures
            n == 10_000,
    {
        10_000
    }

    fn can_build(data: &[u64]) -> (b: bool) {
        data.len() >= 2
    }

    fn build(data: &'a [u64]) -> (s: Self) {
        let n: usize = data.len();
        let k: usize = floor_log2(n);
        proof {
            if k == 0 {
                assert(pow2(1) == 2) by { vstd::arithmetic::power2::lemma2_to64(); }
            }
        }
        let mut segment_tree: Vec<Vec<u64>> = Vec::with_capacity(k + 1);
        let mut l: usize = 0;
        while l <= k
            invariant
                n == data@.len(),
                n >= 2,
                k >= 1,
                is_floor_log2(n as int, k as int),
                k < usize::BITS,
                l <= k + 1,
                segment_tree@.len() == l,
                segment_rows_ok(data@, rows_of(segment_tree@)),
            decreases k + 1 - l,
        {
            proof {
                lemma_shl_pow2(l);
                lemma_pow2_pos(l as nat);
                lemma_pow2_le(l as nat, k as nat);
            }
            let interval_size: usize = 1usize << l;
            let mut interval_table: Vec<u64> = Vec::with_capacity(n / k);
            let count: usize = n / interval_size;
            let mut i: usize = 0;
            while i < count
                invariant
                    n == data@.len(),
                    interval_size == pow2(l as nat),
                    0 < interval_size <= n,
                    count == n / interval_size,
                    i <= count,
                    interval_table@.len() == i,
                    forall|j: int|
                        0 <= j < i ==> interval_table@[j] == range_min(
                            data@,
                            j * interval_size,
                            (j + 1) * interval_size,
                        ),
                decreases count - i,
            {
                assert(i * interval_size + interval_size <= n) by (nonlinear_arith)
                    requires i < count, count == n / interval_size, interval_size > 0;
                let block_index: usize = i * interval_size;
                interval_table.push(slice_min(data, block_index, block_index + interval_size));
                assert((i + 1) * interval_size == block_index + interval_size) by (nonlinear_arith)
                    requires block_index == i * interval_size;
                i = i + 1;
            }
            let ghost before = segment_tree@;
            let ghost new_row = interval_table@;
            segment_tree.push(interval_table);
            proof {
                assert(rows_of(segment_tree@) =~= rows_of(before).push(new_row));
                lemma_segment_rows_push(data@, rows_of(before), new_row);
            }
            l = l + 1;
        }
        SegmentTree { segment_tree, k, data: Ghost(data@) }
    }

    fn space(&self) -> (bytes: usize)
        ensures
            bytes == usize::MAX || table_space_reported(
                bytes - vstd::layout::size_of::<usize>(),
                vstd::layout::size_of::<Vec<Vec<u64>>>() as int,
                vstd::layout::size_of::<Vec<u64>>() as int,
                Seq::new(
                    (floor_log2_spec(self.source().len() as int) + 1) as nat,
                    |lvl: int| (self.source().len() as int) / (pow2(lvl as nat) as int),
                ),
            ),
            table_space_plus_reported(
                bytes as int,
                vstd::layout::size_of::<Vec<Vec<u64>>>() as int,
                vstd::layout::size_of::<Vec<u64>>() as int,
                vstd::layout::size_of::<usize>() as int,
                Seq::new(
                    (floor_log2_spec(self.source().len() as int) + 1) as nat,
                    |lvl: int| (self.source().len() as int) / (pow2(lvl as nat) as int),
                ),
            ),
    {
        let caps: Vec<usize> = row_capacities(&self.segment_tree);
        let outer: usize = vec_capacity(&self.segment_tree);
        let fixed: usize = core::mem::size_of::<Vec<Vec<u64>>>();
        let slot: usize = core::mem::size_of::<Vec<u64>>();
        let table: usize = table_space(fixed, slot, outer, &caps);
        proof {
            lemma_floor_log2_spec(self.data@.len() as int, self.k as int);
            let lens = Seq::new(
                (floor_log2_spec(self.data@.len() as int) + 1) as nat,
                |lvl: int| (self.data@.len() as int) / (pow2(lvl as nat) as int),
            );
            assert forall|i: int| 0 <= i < caps@.len() implies caps@[i] >= lens[i] by {
                assert(rows_of(self.segment_tree@)[i] == self.segment_tree@[i]@);
            }
            assert(table_bytes(fixed as int, slot as int, outer as int, caps@) == table);
        }
        let extra: usize = core::mem::size_of::<usize>();
        let bytes: usize = table.saturating_add(extra);
        proof {
            crate::space::lemma_sum_of_nonneg(caps@);
            assert(slot * outer >= 0) by (nonlinear_arith) requires slot >= 0, outer >= 0;
            assert(table_plus_bytes(fixed as int, slot as int, outer as int, caps@, extra as int) == bytes);
        }
        bytes
    }

    fn can_answer(&self, l: usize, r: usize) -> (b: bool) {
        proof { use_len(self); }
        l <= r && r < self.segment_tree[0].len()
    }

    fn query(&self, l: usize, r: usize) -> (m: u64) {
        let ghost data = self.data@;
        let ghost n = data.len();
        let ghost rows = self.rows();
        proof { use_len(self); }
        let ghost end = r + 1;
        let mut new_l: usize = l;
        let mut new_r: usize = r + 1;
        let mut total_minimum: u64 = u64::MAX;
        let mut level: usize = 0;
        proof {
            assert(pow2(0) == 1) by { vstd::arithmetic::power2::lemma2_to64(); }
            lemma_range_min_bound(data, l as int, l as int);
            lemma_range_min_bound(data, end, end);
        }
        while new_l != new_r
            invariant
                data == self.data@,
                n == data.len(),
                self.well_formed(),
                rows == self.rows(),
                l <= new_l <= new_r <= end <= n,
                end == r + 1,
                level <= usize::BITS,
                (new_l as int) % (pow2(level as nat) as int) == 0,
                (new_r as int) % (pow2(level as nat) as int) == 0,
                new_l < new_r ==> pow2(level as nat) <= n,
                total_minimum == min2(range_min(data, l as int, new_l as int), range_min(data, new_r as int, end)),
            decreases usize::BITS - level,
        {
            let ghost p = pow2(level as nat) as int;
            proof {
                lemma_pow2_pos(level as nat);
                lemma_multiples_apart(new_l as int, new_r as int, p);
                lemma_even_odd_multiple(new_l as int, p);
                lemma_even_odd_multiple(new_r as int, p);
                if level >= usize::BITS {
                    lemma_pow2_le(usize::BITS as nat, level as nat);
                    vstd::arithmetic::power2::lemma2_to64();
                    vstd::arithmetic::power2::lemma2_to64_rest();
                }
                if level > self.k {
                    lemma_pow2_le((self.k + 1) as nat, level as nat);
                }
                assert(rows[level as int] == self.segment_tree@[level as int]@);
                lemma_shl_pow2(level);
                lemma_bit_test(new_l, level);
                lemma_bit_test(new_r, level);
                vstd::bits::lemma_usize_shr_is_div(new_l, level);
                vstd::bits::lemma_usize_shr_is_div(new_r, level);
                lemma_pow2_unfold((level + 1) as nat);
            }
            let ghost l0 = new_l;
            let ghost r0 = new_r;
            if new_l & (1usize << level) != 0 {
                let row = &self.segment_tree[level];
                let j: usize = new_l >> level;
                proof {
                    assert(j * p == new_l);
                    assert((j + 1) * p <= n) by (nonlinear_arith)
                        requires j * p == new_l, new_l + p <= new_r, new_r <= n;
                    assert(j < (n as int) / p) by (nonlinear_arith)
                        requires (j + 1) * p <= n, p > 0, j >= 0;
                    assert(segment_row_ok(data, level as int, rows[level as int]));
                    assert(row@[j as int] == range_min(data, j * p, (j + 1) * p));
                    assert((j + 1) * p == new_l + p) by (nonlinear_arith) requires j * p == new_l;
                    lemma_range_min_concat(data, l as int, new_l as int, new_l + p);
                }
                total_minimum = min_u64(row[j], total_minimum);
                new_l += 1usize << level;
            }
            proof {
                assert((new_l as int) % (2 * p) == 0);
                assert(new_l <= new_r);
            }
            if new_r & (1usize << level) != 0 {
                let j: usize = new_r >> level;
                proof {
                    assert(j * p == new_r);
                    assert(new_l != new_r) by {
                        assert((new_r as int) % (2 * p) != 0) by (nonlinear_arith)
                            requires j * p == new_r, j % 2 == 1, p > 0;
                    }
                    assert(new_l + p <= new_r) by (nonlinear_arith)
                        requires (new_l as int) % (2 * p) == 0, (new_r as int) % (2 * p) == p, new_l < new_r, p > 0;
                    assert(j >= 1 && j <= (n as int) / p) by (nonlinear_arith)
                        requires j * p == new_r, new_r <= n, p > 0, new_r >= p;
                    assert((j - 1) * p == new_r - p) by (nonlinear_arith) requires j * p == new_r;
                    assert(segment_row_ok(data, level as int, rows[level as int]));
                    assert(self.segment_tree@[level as int]@[j - 1] == range_min(data, (j - 1) * p, j * p));
                    lemma_range_min_concat(data, new_r - p, new_r as int, end);
                }
                total_minimum = min_u64(self.segment_tree[level][j - 1], total_minimum);
                new_r -= 1usize << level;
            }
            proof {
                assert((new_l as int) % (2 * p) == 0);
                assert((new_r as int) % (2 * p) == 0);
                if new_l < new_r {
                    assert(2 * p <= new_r - new_l) by (nonlinear_arith)
                        requires (new_l as int) % (2 * p) == 0, (new_r as int) % (2 * p) == 0, new_l < new_r, p > 0;
                }
            }
            level += 1;
        }
        proof {
            lemma_range_min_concat(data, l as int, new_l as int, end);
        }
        total_minimum
    }
}

/// The length of the data is the length of the bottom row.
proof fn use_len(t: &SegmentTree)
    requires
        t.well_formed(),
    ensures
        t.segment_tree@.len() >= 1,
        t.segment_tree@[0]@.len() == t.data@.len(),
        t.data@.len() <= usize::MAX,
{
    assert(pow2(0) == 1) by { vstd::arithmetic::power2::lemma2_to64(); }
    assert(rows_of(t.segment_tree@)[0] == t.segment_tree@[0]@);
    assert(segment_row_ok(t.data@, 0, t.rows()[0]));
    assert((t.data@.len() as int) / 1 == t.data@.len());
}

} // verus!
