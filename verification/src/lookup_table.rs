//! Precomputed answers for every query, stored row by row in one array.

use vstd::prelude::*;
use crate::arith::{gauss_summation_interval, interval_sum, lemma_interval_sum_extend_left, lemma_interval_sum_monotone, lemma_interval_sum_closed};
use crate::minimum::{range_min, slice_min};
use crate::rmq::Rmq;

verus! {

/// Position of the answer for `[i, j]` in the table of a structure over `n`
/// values: the rows for left ends `0 .. i` come first, with lengths
/// `n, n - 1, ...`, then the offset of `j` in row `i`.
pub open spec fn lookup_index(n: int, i: int, j: int) -> int {
    interval_sum(n - i, n) + (j - i)
}

/// Every query `[a, b]` over `data` has its answer at `lookup_index`, when
/// `(a, b)` comes before `(i, j)` in row order.
pub open spec fn answers_stored_before(data: Seq<u64>, table: Seq<u64>, i: int, j: int) -> bool {
    forall|a: int, b: int|
        #![trigger lookup_index(data.len() as int, a, b)]
        0 <= a <= b < data.len() && (a < i || (a == i && b < j)) ==> {
            &&& 0 <= lookup_index(data.len() as int, a, b) < table.len()
            &&& table[lookup_index(data.len() as int, a, b)] == range_min(data, a, b + 1)
        }
}

/// The answer of every query, stored in one array.
pub struct LookupTable {
    table: Vec<u64>,
    array_size: usize,
    data: Ghost<Seq<u64>>,
}

impl<'a> Rmq<'a> for LookupTable {
    closed spec fn source(&self) -> Seq<u64> {
        self.data@
    }

    closed spec fn well_formed(&self) -> bool {
        &&& self.array_size == self.data@.len()
        &&& self.table@.len() == interval_sum(0, self.array_size as int)
        &&& interval_sum(0, self.array_size as int) <= usize::MAX
        &&& answers_stored_before(self.data@, self.table@, self.array_size as int, 0)
    }

    /// The table holds `n (n + 1) / 2` entries, which must fit in `usize`.
    open spec fn buildable(data: Seq<u64>) -> bool {
        interval_sum(0, data.len() as int) <= usize::MAX
    }

    open spec fn answerable(&self, l: int, r: int) -> bool {
        0 <= l <= r < self.source().len()
    }

    open spec fn answer(&self, l: int, r: int) -> u64 {
        range_min(self.source(), l, r + 1)
    }

    fn name() -> (s: String)
        ensures
            s@ == "Lookup table implementation"@,
    {
        "Lookup table implementation".to_string()
    }

    fn max_n() -> (n: usize)
        ensures
            n == 10_000,
    {
        10_000
    }

    fn can_build(data: &[u64]) -> (b: bool) {
        let n: usize = data.len();
        proof { lemma_interval_sum_closed(0, n as int); }
        if n % 2 == 0 {
            let half: usize = n / 2;
            assert(half * (n + 1) == interval_sum(0, n as int)) by (nonlinear_arith)
                requires n % 2 == 0, half == n / 2, 2 * interval_sum(0, n as int) == n * (n + 1);
            (n / 2).checked_mul(n + 1).is_some()
        } else {
            let half: usize = n / 2 + 1;
            assert(n * half == interval_sum(0, n as int)) by (nonlinear_arith)
                requires n % 2 == 1, half == n / 2 + 1, 2 * interval_sum(0, n as int) == n * (n + 1);
            n.checked_mul(n / 2 + 1).is_some()
        }
    }

    fn build(data: &'a [u64]) -> (s: Self) {
        let n: usize = data.len();
        let number_of_entries: usize = gauss_summation_interval(0, n);
        let mut table: Vec<u64> = Vec::with_capacity(number_of_entries);
        let mut i: usize = 0;
        proof {
            assert(interval_sum(n as int, n as int) == 0);
        }
        while i < n
            invariant
                n == data@.len(),
                number_of_entries == interval_sum(0, n as int),
                i <= n,
                table@.len() == lookup_index(n as int, i as int, i as int),
                answers_stored_before(data@, table@, i as int, i as int),
            decreases n - i,
        {
            let mut j: usize = i;
            while j < n
                invariant
                    n == data@.len(),
                    i < n,
                    i <= j <= n,
                    table@.len() == lookup_index(n as int, i as int, j as int),
                    answers_stored_before(data@, table@, i as int, j as int),
                decreases n - j,
            {
                let ghost before = table@;
                table.push(slice_min(data, i, j + 1));
                proof {
                    assert forall|a: int, b: int|
                        #![trigger lookup_index(data@.len() as int, a, b)]
                        0 <= a <= b < data@.len() && (a < i || (a == i && b < j + 1)) implies {
                            &&& 0 <= lookup_index(data@.len() as int, a, b) < table@.len()
                            &&& table@[lookup_index(data@.len() as int, a, b)] == range_min(data@, a, b + 1)
                        } by {
                        if a == i && b == j {
                        } else {
                            assert(before[lookup_index(n as int, a, b)] == table@[lookup_index(n as int, a, b)]);
                        }
                    }
                }
                j = j + 1;
            }
            proof {
                lemma_interval_sum_extend_left((n - i) as int, n as int);
                assert forall|a: int, b: int|
                    #![trigger lookup_index(data@.len() as int, a, b)]
                    0 <= a <= b < data@.len() && (a < i + 1 || (a == i + 1 && b < i + 1)) implies {
                        &&& 0 <= lookup_index(data@.len() as int, a, b) < table@.len()
                        &&& table@[lookup_index(data@.len() as int, a, b)] == range_min(data@, a, b + 1)
                    } by {
                    if a == i {
                        assert(b < n);
                    }
                }
            }
            i = i + 1;
        }
        LookupTable { table, array_size: n, data: Ghost(data@) }
    }

    fn space(&self) -> (bytes: usize)
        ensures
            bytes == 8 * interval_sum(0, self.source().len() as int),
    {
        broadcast use vstd::layout::layout_of_slices, vstd::layout::layout_of_primitives;
        core::mem::size_of_val(self.table.as_slice())
    }

    fn can_answer(&self, l: usize, r: usize) -> (b: bool) {
        l <= r && r < self.array_size
    }

    fn query(&self, l: usize, r: usize) -> (m: u64) {
        let n = self.array_size;
        proof {
            assert(0 <= lookup_index(n as int, l as int, r as int) < self.table@.len());
            lemma_interval_sum_monotone(0, (n - l) as int, n as int);
        }
        let index: usize = gauss_summation_interval(self.array_size - l, self.array_size) + (r - l);
        self.table[index]
    }
}

} // verus!
