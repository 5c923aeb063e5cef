//! Byte counts for the space reports.

use vstd::prelude::*;

verus! {

/// `x`, or `usize::MAX` when it does not fit.
pub open spec fn capped(x: int) -> int {
    if x > usize::MAX { usize::MAX as int } else { x }
}

/// The sum of a sequence of counts.
pub open spec fn sum_of(s: Seq<usize>) -> int
    decreases s.len(),
{
    if s.len() == 0 { 0 } else { sum_of(s.drop_last()) + s.last() }
}

/// Bytes of a table with the given reserved capacities (see `table_space`).
pub open spec fn table_bytes(fixed: int, slot: int, outer_capacity: int, row_capacities: Seq<usize>) -> int {
    capped(fixed + slot * outer_capacity + 8 * sum_of(row_capacities))
}

/// `bytes` is what `table_space` reports for a table whose rows have the
/// given lengths, for some capacities at least as large as those lengths
/// (the capacities themselves are the allocator's choice).
pub open spec fn table_space_reported(bytes: int, fixed: int, slot: int, row_lens: Seq<int>) -> bool {
    exists|outer: int, caps: Seq<usize>|
        #![trigger table_bytes(fixed, slot, outer, caps)]
        {
            &&& outer >= row_lens.len()
            &&& caps.len() == row_lens.len()
            &&& forall|i: int| 0 <= i < caps.len() ==> caps[i] >= row_lens[i]
            &&& bytes == table_bytes(fixed, slot, outer, caps)
        }
}

/// Bytes of a table with the given reserved capacities plus `extra` bytes
/// of other fields; `usize::MAX` when the total does not fit.
pub open spec fn table_plus_bytes(fixed: int, slot: int, outer_capacity: int, row_capacities: Seq<usize>, extra: int) -> int {
    capped(fixed + slot * outer_capacity + 8 * sum_of(row_capacities) + extra)
}

/// `bytes` is the byte count of a table whose rows have the given lengths,
/// plus `extra` bytes, for some capacities at least as large as those
/// lengths (the capacities themselves are the allocator's choice);
/// `usize::MAX` only when that count does not fit.
pub open spec fn table_space_plus_reported(bytes: int, fixed: int, slot: int, extra: int, row_lens: Seq<int>) -> bool {
    exists|outer: int, caps: Seq<usize>|
        #![trigger table_plus_bytes(fixed, slot, outer, caps, extra)]
        {
            &&& outer >= row_lens.len()
            &&& caps.len() == row_lens.len()
            &&& forall|i: int| 0 <= i < caps.len() ==> caps[i] >= row_lens[i]
            &&& bytes == table_plus_bytes(fixed, slot, outer, caps, extra)
        }
}

/// The capacities of the rows of a table.
pub fn row_capacities(table: &Vec<Vec<u64>>) -> (caps: Vec<usize>)
    ensures
        caps@.len() == table@.len(),
        forall|i: int| 0 <= i < caps@.len() ==> caps@[i] >= table@[i]@.len(),
{
    let mut caps: Vec<usize> = Vec::new();
    let mut i: usize = 0;
    while i < table.len()
        invariant
            i <= table@.len(),
            caps@.len() == i,
            forall|j: int| 0 <= j < i ==> caps@[j] >= table@[j]@.len(),
        decreases table@.len() - i,
    {
        caps.push(vec_capacity(&table[i]));
        i = i + 1;
    }
    caps
}

/// `Vec::capacity`: the number of elements the vector can hold without
/// reallocating. Its documentation promises no less than the length; the
/// exact value is the allocator's choice and is not stated here.
#[verifier::external_body]
pub(crate) fn vec_capacity<T>(v: &Vec<T>) -> (c: usize)
    ensures
        c >= v@.len(),
{
    v.capacity()
}

/// `a * b`, or `usize::MAX` when the product does not fit.
fn capped_mul(a: usize, b: usize) -> (p: usize)
    ensures
        p == capped(a * b),
{
    match a.checked_mul(b) {
        Some(p) => p,
        None => usize::MAX,
    }
}

/// Bytes of a table made of an outer vector of row vectors: `fixed` bytes
/// for the table itself, `slot` bytes per reserved row slot, and eight bytes
/// per reserved entry of each row; `usize::MAX` when the total does not fit.
pub fn table_space(fixed: usize, slot: usize, outer_capacity: usize, row_capacities: &Vec<usize>) -> (bytes: usize)
    ensures
        bytes == table_bytes(fixed as int, slot as int, outer_capacity as int, row_capacities@),
{
    let mut total: usize = fixed.saturating_add(capped_mul(slot, outer_capacity));
    assert(total == capped(fixed + slot * outer_capacity)) by (nonlinear_arith)
        requires
            total == capped(fixed + capped(slot * outer_capacity)),
            fixed >= 0,
            slot * outer_capacity >= 0;
    let mut i: usize = 0;
    while i < row_capacities.len()
        invariant
            i <= row_capacities@.len(),
            total == capped(fixed + slot * outer_capacity + 8 * sum_of(row_capacities@.take(i as int))),
        decreases row_capacities@.len() - i,
    {
        let ghost before = sum_of(row_capacities@.take(i as int));
        assert(row_capacities@.take(i + 1).drop_last() =~= row_capacities@.take(i as int));
        let cap: usize = row_capacities[i];
        let add: usize = capped_mul(8, cap);
        assert(sum_of(row_capacities@.take(i + 1)) == before + cap);
        assert(before >= 0) by { lemma_sum_of_nonneg(row_capacities@.take(i as int)); }
        assert(slot * outer_capacity >= 0) by (nonlinear_arith) requires slot >= 0, outer_capacity >= 0;
        total = total.saturating_add(add);
        i = i + 1;
    }
    assert(row_capacities@.take(row_capacities@.len() as int) =~= row_capacities@);
    total
}

/// Counts add up to a non-negative sum.
pub proof fn lemma_sum_of_nonneg(s: Seq<usize>)
    ensures
        sum_of(s) >= 0,
    decreases s.len(),
{
    if s.len() > 0 {
        lemma_sum_of_nonneg(s.drop_last());
    }
}

} // verus!
