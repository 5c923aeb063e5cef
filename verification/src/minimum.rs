//! The minimum of a run of values, as a mathematical model and as code.

use vstd::prelude::*;

verus! {

/// The smaller of two values.
pub open spec fn min2(a: u64, b: u64) -> u64 {
    if a <= b { a } else { b }
}

/// The minimum of a sequence; `u64::MAX` for the empty sequence, which is
/// the neutral element of taking minima.
pub open spec fn seq_min(s: Seq<u64>) -> u64
    decreases s.len(),
{
    if s.len() == 0 {
        u64::MAX
    } else {
        min2(seq_min(s.drop_last()), s.last())
    }
}

/// The minimum of `s[lo..hi]` (half open).
pub open spec fn range_min(s: Seq<u64>, lo: int, hi: int) -> u64 {
    seq_min(s.subrange(lo, hi))
}

/// The minimum is a lower bound of every element, and of a non-empty
/// sequence it is one of the elements.
pub proof fn lemma_seq_min_bound(s: Seq<u64>)
    ensures
        forall|i: int| 0 <= i < s.len() ==> seq_min(s) <= #[trigger] s[i],
        s.len() > 0 ==> exists|i: int| 0 <= i < s.len() && s[i] == seq_min(s),
        s.len() == 0 ==> seq_min(s) == u64::MAX,
    decreases s.len(),
{
    if s.len() > 0 {
        let t = s.drop_last();
        lemma_seq_min_bound(t);
        assert forall|i: int| 0 <= i < s.len() implies seq_min(s) <= #[trigger] s[i] by {
            if i < s.len() - 1 {
                assert(s[i] == t[i]);
            }
        }
        if seq_min(s) == s.last() {
            assert(s[s.len() - 1] == seq_min(s));
        } else {
            let j = choose|j: int| 0 <= j < t.len() && t[j] == seq_min(t);
            assert(s[j] == t[j]);
        }
    }
}

/// A value that bounds every element from below and occurs in the sequence
/// is its minimum.
pub proof fn lemma_seq_min_unique(s: Seq<u64>, m: u64, k: int)
    requires
        0 <= k < s.len(),
        s[k] == m,
        forall|i: int| 0 <= i < s.len() ==> m <= #[trigger] s[i],
    ensures
        seq_min(s) == m,
{
    lemma_seq_min_bound(s);
    let j = choose|j: int| 0 <= j < s.len() && s[j] == seq_min(s);
    assert(m <= s[j]);
    assert(seq_min(s) <= s[k]);
}

/// Characterisation of `range_min` by the elements of the range.
pub proof fn lemma_range_min_bound(s: Seq<u64>, lo: int, hi: int)
    requires
        0 <= lo <= hi <= s.len(),
    ensures
        forall|i: int| lo <= i < hi ==> range_min(s, lo, hi) <= #[trigger] s[i],
        lo < hi ==> exists|i: int| lo <= i < hi && s[i] == range_min(s, lo, hi),
        lo == hi ==> range_min(s, lo, hi) == u64::MAX,
{
    let t = s.subrange(lo, hi);
    lemma_seq_min_bound(t);
    assert forall|i: int| lo <= i < hi implies range_min(s, lo, hi) <= #[trigger] s[i] by {
        assert(t[i - lo] == s[i]);
    }
    if lo < hi {
        let j = choose|j: int| 0 <= j < t.len() && t[j] == seq_min(t);
        assert(s[lo + j] == t[j]);
    }
}

/// The minimum over the union of two ranges that overlap or touch is the
/// smaller of the two minima.
pub proof fn lemma_range_min_union(s: Seq<u64>, a: int, b: int, c: int, d: int)
    requires
        0 <= a <= c <= b <= d <= s.len(),
        a < b,
        c < d,
    ensures
        range_min(s, a, d) == min2(range_min(s, a, b), range_min(s, c, d)),
{
    lemma_range_min_bound(s, a, b);
    lemma_range_min_bound(s, c, d);
    lemma_range_min_bound(s, a, d);
    let m = min2(range_min(s, a, b), range_min(s, c, d));
    let t = s.subrange(a, d);
    assert forall|i: int| 0 <= i < t.len() implies m <= #[trigger] t[i] by {
        assert(t[i] == s[a + i]);
        if a + i < b {
            assert(range_min(s, a, b) <= s[a + i]);
        } else {
            assert(range_min(s, c, d) <= s[a + i]);
        }
    }
    if m == range_min(s, a, b) {
        let j = choose|j: int| a <= j < b && s[j] == range_min(s, a, b);
        assert(t[j - a] == s[j]);
        lemma_seq_min_unique(t, m, j - a);
    } else {
        let j = choose|j: int| c <= j < d && s[j] == range_min(s, c, d);
        assert(t[j - a] == s[j]);
        lemma_seq_min_unique(t, m, j - a);
    }
}

/// Splitting a range at any point: the minimum of the whole is the smaller
/// of the minima of the two parts (either part may be empty).
pub proof fn lemma_range_min_concat(s: Seq<u64>, a: int, b: int, d: int)
    requires
        0 <= a <= b <= d <= s.len(),
    ensures
        range_min(s, a, d) == min2(range_min(s, a, b), range_min(s, b, d)),
{
    lemma_range_min_bound(s, a, b);
    lemma_range_min_bound(s, b, d);
    lemma_range_min_bound(s, a, d);
    if a == b {
        assert(s.subrange(a, d) =~= s.subrange(b, d));
    } else if b == d {
        assert(s.subrange(a, d) =~= s.subrange(a, b));
    } else {
        lemma_range_min_union(s, a, b, b, d);
    }
}

/// The minima of consecutive blocks of length `w` of `s`, one per block that
/// fits.
pub open spec fn block_minima(s: Seq<u64>, w: int, count: int) -> Seq<u64> {
    Seq::new(count as nat, |i: int| range_min(s, i * w, (i + 1) * w))
}

/// The minimum over a run of block minima is the minimum over the blocks'
/// union.
pub proof fn lemma_block_minima_range(s: Seq<u64>, w: int, count: int, a: int, b: int)
    requires
        w > 0,
        0 <= a <= b <= count,
        count * w <= s.len(),
    ensures
        range_min(block_minima(s, w, count), a, b) == range_min(s, a * w, b * w),
    decreases b - a,
{
    let m = block_minima(s, w, count);
    assert(0 <= a * w <= b * w <= count * w) by (nonlinear_arith)
        requires w > 0, 0 <= a <= b <= count;
    if a == b {
        lemma_range_min_bound(m, a, b);
        lemma_range_min_bound(s, a * w, b * w);
    } else {
        lemma_block_minima_range(s, w, count, a, b - 1);
        assert((b - 1) * w + w == b * w) by (nonlinear_arith);
        assert(a * w <= (b - 1) * w) by (nonlinear_arith) requires a <= b - 1, w > 0;
        lemma_range_min_extend(m, a, b - 1);
        lemma_range_min_concat(s, a * w, (b - 1) * w, b * w);
        lemma_range_min_bound(m, a, b - 1);
        lemma_range_min_bound(s, a * w, (b - 1) * w);
        assert(m[b - 1] == range_min(s, (b - 1) * w, b * w));
    }
}

/// Extending a range by one element on the right.
pub proof fn lemma_range_min_extend(s: Seq<u64>, lo: int, hi: int)
    requires
        0 <= lo <= hi < s.len(),
    ensures
        range_min(s, lo, hi + 1) == min2(range_min(s, lo, hi), s[hi]),
{
    assert(s.subrange(lo, hi + 1).drop_last() =~= s.subrange(lo, hi));
}

/// The smaller of two values.
pub fn min_u64(a: u64, b: u64) -> (m: u64)
    ensures
        m == min2(a, b),
{
    if a <= b { a } else { b }
}

/// The minimum of `data[lo..hi]`, `u64::MAX` when the range is empty.
pub fn slice_min(data: &[u64], lo: usize, hi: usize) -> (m: u64)
    requires
        lo <= hi <= data@.len(),
    ensures
        m == range_min(data@, lo as int, hi as int),
{
    let mut m: u64 = u64::MAX;
    let mut i: usize = lo;
    assert(data@.subrange(lo as int, lo as int) =~= Seq::<u64>::empty());
    while i < hi
        invariant
            lo <= i <= hi <= data@.len(),
            m == range_min(data@, lo as int, i as int),
        decreases hi - i,
    {
        proof { lemma_range_min_extend(data@, lo as int, i as int); }
        m = min_u64(m, data[i]);
        i = i + 1;
    }
    m
}

} // verus!
