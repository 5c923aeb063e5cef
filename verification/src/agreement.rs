//! The structures that answer exactly agree with each other.

use vstd::prelude::*;
use crate::lookup_table::LookupTable;
use crate::minimum::range_min;
use crate::naive::Naive;
use crate::rmq::Rmq;
use crate::segment_tree::SegmentTree;
use crate::sparse_array::SparseArray;

verus! {

/// Built over the same values, the trivial structure, the lookup table, the
/// sparse table and the segment tree give the same answer to every query
/// `[l, r]` with `l <= r` inside the data, and that answer is the minimum of
/// `data[l..=r]`.
pub proof fn lemma_exact_structures_agree<'a>(
    naive: Naive<'a>,
    table: LookupTable,
    sparse: SparseArray,
    segment: SegmentTree,
    l: int,
    r: int,
)
    requires
        table.source() == naive.source(),
        sparse.source() == naive.source(),
        segment.source() == naive.source(),
        0 <= l <= r < naive.source().len(),
    ensures
        naive.answerable(l, r),
        table.answerable(l, r),
        sparse.answerable(l, r),
        segment.answerable(l, r),
        naive.answer(l, r) == range_min(naive.source(), l, r + 1),
        table.answer(l, r) == naive.answer(l, r),
        sparse.answer(l, r) == naive.answer(l, r),
        segment.answer(l, r) == naive.answer(l, r),
{
}

} // verus!
