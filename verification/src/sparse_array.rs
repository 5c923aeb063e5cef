//! Sparse table: the minimum of every range whose length is a power of two.

use vstd::prelude::*;
use vstd::arithmetic::power2::{pow2, lemma_pow2_unfold, lemma_pow2_pos};
use crate::arith::{floor_log2, is_floor_log2, lemma_pow2_le, floor_log2_spec, lemma_floor_log2_spec};
use crate::space::{table_space, table_space_reported, table_bytes, row_capacities, vec_capacity};
use crate::minimum::{range_min, min_u64, slice_min, lemma_range_min_union};
use crate::rmq::Rmq;

verus! {

/// Level `lvl` of the table holds, at position `i`, the minimum of
/// `data[i .. i + 2^lvl]`, for every window that fits into the data.
pub struct SparseArray {
    sparse_table: Vec<Vec<u64>>,
    n: usize,
    data: Ghost<Seq<u64>>,
}

/// Row `lvl` of a sparse table over `data`: one entry per window of length
/// `2^lvl`, holding that window's minimum.
pub open spec fn sparse_row_ok(data: Seq<u64>, lvl: int, row: Seq<u64>) -> bool {
    &&& pow2(lvl as nat) <= data.len()
    &&& row.len() == data.len() + 1 - pow2(lvl as nat)
    &&& forall|i: int| 0 <= i < row.len() ==> #[trigger] row[i] == range_min(data, i, i + pow2(lvl as nat))
}

/// Every row of a sparse table over `data` is correct.
pub open spec fn sparse_rows_ok(data: Seq<u64>, rows: Seq<Seq<u64>>) -> bool {
    forall|lvl: int| 0 <= lvl < rows.len() ==> sparse_row_ok(data, lvl, #[trigger] rows[lvl])
}

/// The rows of a table of vectors, as sequences.
pub open spec fn rows_of(table: Seq<Vec<u64>>) -> Seq<Seq<u64>> {
    table.map_values(|row: Vec<u64>| row@)
}

/// Appending a correct next row keeps a sparse table correct.
pub proof fn lemma_rows_push(data: Seq<u64>, rows: Seq<Seq<u64>>, row: Seq<u64>)
    requires
        sparse_rows_ok(data, rows),
        sparse_row_ok(data, rows.len() as int, row),
    ensures
        sparse_rows_ok(data, rows.push(row)),
{
    let r2 = rows.push(row);
    assert forall|lvl: int| 0 <= lvl < r2.len() implies sparse_row_ok(data, lvl, #[trigger] r2[lvl]) by {
        if lvl < rows.len() {
            assert(r2[lvl] == rows[lvl]);
        } else {
            assert(r2[lvl] == row);
        }
    }
}

/// `1 << e` is `2^e` while it fits.
pub proof fn lemma_shl_pow2(e: usize)
    requires
        e < usize::BITS,
    ensures
        (1usize << e) == pow2(e as nat),
{
    vstd::bits::lemma_usize_pow2_no_overflow(e as nat);
    vstd::bits::lemma_usize_shl_is_mul(1, e);
}

impl SparseArray {
    /// The rows as sequences.
    pub closed spec fn rows(&self) -> Seq<Seq<u64>> {
        rows_of(self.sparse_table@)
    }
}

impl<'a> Rmq<'a> for SparseArray {
    closed spec fn source(&self) -> Seq<u64> {
        self.data@
    }

    closed spec fn well_formed(&self) -> bool {
        &&& self.n == self.data@.len()
        &&& self.n >= 1
        &&& is_floor_log2(self.n as int, self.sparse_table@.len() - 1)
        &&& sparse_rows_ok(self.data@, self.rows())
    }

    open spec fn buildable(data: Seq<u64>) -> bool {
        data.len() >= 1
    }

    open spec fn answerable(&self, l: int, r: int) -> bool {
        0 <= l <= r < self.source().len()
    }

    open spec fn answer(&self, l: int, r: int) -> u64 {
        range_min(self.source(), l, r + 1)
    }

    fn name() -> (s: String)
        ensures
            s@ == "Sparse Array"@,
    {
        "Sparse Array".to_string()
    }

    fn max_n() -> (n: usize)
        ensures
            n == 10_000,
    {
        10_000
    }

    fn can_build(data: &[u64]) -> (b: bool) {
        data.len() >= 1
    }

    fn build(data: &'a [u64]) -> (s: Self) {
        let n: usize = data.len();
        let k: usize = floor_log2(n);
        let mut sparse_table: Vec<Vec<u64>> = Vec::with_capacity(k + 1);
        let mut l: usize = 0;
        while l <= k
            invariant
                n == data@.len(),
                is_floor_log2(n as int, k as int),
                k < usize::BITS,
                l <= k + 1,
                sparse_table@.len() == l,
                sparse_rows_ok(data@, rows_of(sparse_table@)),
            decreases k + 1 - l,
        {
            proof {
                lemma_shl_pow2(l);
                lemma_pow2_pos(l as nat);
                lemma_pow2_le(l as nat, k as nat);
            }
            let interval_size: usize = 1usize << l;
            let count: usize = n - interval_size + 1;
            let mut interval_table: Vec<u64> = Vec::with_capacity(count);
            let mut i: usize = 0;
            while i < count
                invariant
                    n == data@.len(),
                    interval_size == pow2(l as nat),
                    interval_size <= n,
                    count == n + 1 - interval_size,
                    i <= count,
                    interval_table@.len() == i,
                    forall|j: int|
                        0 <= j < i ==> interval_table@[j] == range_min(
                            data@,
                            j,
                            j + interval_size,
                        ),
                decreases count - i,
            {
                interval_table.push(slice_min(data, i, i + interval_size));
                i = i + 1;
            }
            let ghost before = sparse_table@;
            let ghost new_row = interval_table@;
            sparse_table.push(interval_table);
            proof {
                assert(rows_of(sparse_table@) =~= rows_of(before).push(new_row));
                lemma_rows_push(data@, rows_of(before), new_row);
            }
            l = l + 1;
        }
        SparseArray { sparse_table, n, data: Ghost(data@) }
    }

    fn space(&self) -> (bytes: usize)
        ensures
            table_space_reported(
                bytes as int,
                vstd::layout::size_of::<Vec<Vec<u64>>>() as int,
                vstd::layout::size_of::<Vec<u64>>() as int,
                Seq::new(
                    (floor_log2_spec(self.source().len() as int) + 1) as nat,
                    |lvl: int| self.source().len() + 1 - pow2(lvl as nat),
                ),
            ),
    {
        let caps: Vec<usize> = row_capacities(&self.sparse_table);
        let outer: usize = vec_capacity(&self.sparse_table);
        let fixed: usize = core::mem::size_of::<Vec<Vec<u64>>>();
        let slot: usize = core::mem::size_of::<Vec<u64>>();
        let bytes: usize = table_space(fixed, slot, outer, &caps);
        proof {
            let k = self.sparse_table@.len() - 1;
            lemma_floor_log2_spec(self.n as int, k);
            let lens = Seq::new(
                (floor_log2_spec(self.data@.len() as int) + 1) as nat,
                |lvl: int| self.data@.len() + 1 - pow2(lvl as nat),
            );
            assert forall|i: int| 0 <= i < caps@.len() implies caps@[i] >= lens[i] by {
                assert(rows_of(self.sparse_table@)[i] == self.sparse_table@[i]@);
            }
            assert(table_bytes(fixed as int, slot as int, outer as int, caps@) == bytes);
        }
        bytes
    }

    fn can_answer(&self, l: usize, r: usize) -> (b: bool) {
        l <= r && r < self.n
    }

    fn query(&self, l: usize, r: usize) -> (m: u64) {
        let depth: usize = floor_log2((r + 1) - l);
        let ghost rows = self.rows();
        let ghost k = self.sparse_table@.len() - 1;
        proof {
            if depth > k {
                lemma_pow2_le((k + 1) as nat, depth as nat);
            }
            lemma_pow2_le(depth as nat, k as nat);
            lemma_shl_pow2(depth);
            lemma_pow2_unfold((depth + 1) as nat);
            assert(rows[depth as int] == self.sparse_table@[depth as int]@);
        }
        let width: usize = 1usize << depth;
        let l_min: u64 = self.sparse_table[depth][l];
        let r_min: u64 = self.sparse_table[depth][(r + 1) - width];
        proof {
            lemma_range_min_union(
                self.data@,
                l as int,
                l + width,
                r + 1 - width,
                r + 1,
            );
        }
        min_u64(l_min, r_min)
    }
}

} // verus!
