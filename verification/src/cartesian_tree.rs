//! Cartesian-tree blocks: each block gets a code built from its Cartesian
//! tree, and blocks with equal codes share one table of in-block answers.

use vstd::prelude::*;
use std::collections::VecDeque;
use crate::arith::{floor_log2, floor_log2_spec, lemma_floor_log2_spec};
use crate::minimum::{seq_min, min2, lemma_seq_min_bound, lemma_range_min_bound, range_min};
use crate::rmq::Rmq;
use crate::code_value::{words_value, lemma_append_value};
use crate::tree_number::{TreeNumber, Code, append_code, dead_end_code, code_wf, lemma_append_wf, word_bits, lemma_append_single_word, lemma_dead_end_single_word};
use vstd::arithmetic::power2::{pow2, lemma_pow2_unfold};

verus! {

/// Position of the first occurrence of the minimum of a non-empty sequence
/// (0 for the empty sequence).
pub open spec fn first_min_index(s: Seq<u64>) -> int
    decreases s.len(),
{
    if s.len() <= 1 {
        0
    } else if s.last() < seq_min(s.drop_last()) {
        s.len() - 1
    } else {
        first_min_index(s.drop_last())
    }
}

/// `first_min_index` is the first position holding the minimum.
pub proof fn lemma_first_min_index(s: Seq<u64>)
    requires
        s.len() >= 1,
    ensures
        0 <= first_min_index(s) < s.len(),
        s[first_min_index(s)] == seq_min(s),
        forall|j: int| 0 <= j < first_min_index(s) ==> s[j] > seq_min(s),
    decreases s.len(),
{
    if s.len() == 1 {
        assert(s.drop_last().len() == 0);
    } else {
        let t = s.drop_last();
        lemma_first_min_index(t);
        lemma_seq_min_bound(t);
        if s.last() < seq_min(t) {
            assert forall|j: int| 0 <= j < s.len() - 1 implies s[j] > seq_min(s) by {
                assert(s[j] == t[j]);
            }
        } else {
            let k = first_min_index(t);
            assert(s[k] == t[k]);
            assert forall|j: int| 0 <= j < k implies s[j] > seq_min(s) by {
                assert(s[j] == t[j]);
            }
        }
    }
}

/// The code of a single node, before its children are appended.
pub open spec fn root_code() -> Code {
    (seq![1usize], 1nat)
}

/// The Cartesian-tree code of a non-empty block: the root (the first
/// minimum) is a set bit, followed by the code of the left part, then the
/// code of the right part; a missing child appends the code of an absent
/// child.
pub open spec fn tree_code(s: Seq<u64>) -> Code
    decreases s.len(),
{
    if s.len() == 0 {
        dead_end_code()
    } else {
        let m = first_min_index(s);
        let with_left = if 0 < m < s.len() {
            append_code(root_code(), tree_code(s.subrange(0, m)))
        } else {
            append_code(root_code(), dead_end_code())
        };
        if 0 <= m < s.len() - 1 {
            append_code(with_left, tree_code(s.subrange(m + 1, s.len() as int)))
        } else {
            append_code(with_left, dead_end_code())
        }
    }
}

/// The code of a non-empty block holds one bit per value and is well formed.
pub proof fn lemma_tree_code_wf(s: Seq<u64>)
    requires
        s.len() >= 1,
    ensures
        code_wf(tree_code(s)),
        tree_code(s).1 == s.len(),
    decreases s.len(),
{
    lemma_first_min_index(s);
    let m = first_min_index(s);
    assert(code_wf(root_code()));
    assert(code_wf(dead_end_code()));
    let left = if 0 < m { tree_code(s.subrange(0, m)) } else { dead_end_code() };
    if 0 < m {
        lemma_tree_code_wf(s.subrange(0, m));
    }
    lemma_append_wf(root_code(), left);
    let with_left = append_code(root_code(), left);
    let right = if m < s.len() - 1 { tree_code(s.subrange(m + 1, s.len() as int)) } else { dead_end_code() };
    if m < s.len() - 1 {
        lemma_tree_code_wf(s.subrange(m + 1, s.len() as int));
    }
    lemma_append_wf(with_left, right);
}

/// Two sequences of the same length whose values compare the same way at
/// every pair of positions.
pub open spec fn same_order(s: Seq<u64>, t: Seq<u64>) -> bool {
    &&& s.len() == t.len()
    &&& forall|i: int, j: int|
        0 <= i < s.len() && 0 <= j < s.len() ==> (#[trigger] s[i] < #[trigger] s[j] <==> t[i] < t[j])
}

/// The first minimum sits at the same position in sequences that compare
/// the same way.
pub proof fn lemma_first_min_index_same_order(s: Seq<u64>, t: Seq<u64>)
    requires
        same_order(s, t),
        s.len() >= 1,
    ensures
        first_min_index(s) == first_min_index(t),
{
    lemma_first_min_index(s);
    lemma_first_min_index(t);
    lemma_seq_min_bound(s);
    lemma_seq_min_bound(t);
    let ms = first_min_index(s);
    let mt = first_min_index(t);
    if mt < ms {
        assert(s[mt] > s[ms]);
        assert(t[mt] > t[ms]);
        assert(seq_min(t) <= t[ms]);
    } else if ms < mt {
        assert(t[ms] > t[mt]);
        assert(s[ms] > s[mt]);
        assert(seq_min(s) <= s[mt]);
    }
}

/// Blocks whose values compare the same way have the same Cartesian-tree
/// code, which is what lets such blocks share one table of answers.
pub proof fn lemma_tree_code_same_order(s: Seq<u64>, t: Seq<u64>)
    requires
        same_order(s, t),
    ensures
        tree_code(s) == tree_code(t),
    decreases s.len(),
{
    if s.len() > 0 {
        lemma_first_min_index_same_order(s, t);
        let m = first_min_index(s);
        lemma_first_min_index(s);
        let (sl, tl) = (s.subrange(0, m), t.subrange(0, m));
        assert forall|i: int, j: int| 0 <= i < sl.len() && 0 <= j < sl.len() implies (#[trigger] sl[i] < #[trigger] sl[j] <==> tl[i] < tl[j]) by {
            assert(sl[i] == s[i] && sl[j] == s[j] && tl[i] == t[i] && tl[j] == t[j]);
        }
        lemma_tree_code_same_order(sl, tl);
        let (sr, tr) = (s.subrange(m + 1, s.len() as int), t.subrange(m + 1, t.len() as int));
        assert forall|i: int, j: int| 0 <= i < sr.len() && 0 <= j < sr.len() implies (#[trigger] sr[i] < #[trigger] sr[j] <==> tr[i] < tr[j]) by {
            assert(sr[i] == s[m + 1 + i] && sr[j] == s[m + 1 + j] && tr[i] == t[m + 1 + i] && tr[j] == t[m + 1 + j]);
        }
        lemma_tree_code_same_order(sr, tr);
    }
}

/// The preorder bit string of the Cartesian tree of `s`, read as a number:
/// a set bit for the root (the first minimum), then the bits of the left
/// part's tree, then those of the right part's tree; an empty part adds no
/// bits.
pub open spec fn preorder_bits(s: Seq<u64>) -> nat
    decreases s.len(),
{
    if s.len() == 0 {
        0
    } else {
        let m = first_min_index(s);
        if 0 <= m < s.len() {
            let left = s.subrange(0, m);
            let right = s.subrange(m + 1, s.len() as int);
            (pow2(left.len()) + preorder_bits(left)) * pow2(right.len()) + preorder_bits(right)
        } else {
            0
        }
    }
}

/// An absent child adds no bits, so every value contributes exactly one set
/// bit: the preorder bit string of any block is all ones, one per value.
pub proof fn lemma_preorder_bits_all_ones(s: Seq<u64>)
    ensures
        preorder_bits(s) + 1 == pow2(s.len()),
    decreases s.len(),
{
    if s.len() == 0 {
        assert(pow2(0) == 1) by { vstd::arithmetic::power2::lemma2_to64(); }
    } else {
        lemma_first_min_index(s);
        let m = first_min_index(s);
        let left = s.subrange(0, m);
        let right = s.subrange(m + 1, s.len() as int);
        lemma_preorder_bits_all_ones(left);
        lemma_preorder_bits_all_ones(right);
        let pl = pow2(left.len());
        let pr = pow2(right.len());
        lemma_pow2_unfold((left.len() + 1) as nat);
        vstd::arithmetic::power2::lemma_pow2_adds((left.len() + 1) as nat, right.len());
        assert(((left.len() + 1) as nat + right.len()) == s.len());
        assert((pl + (pl - 1)) * pr + (pr - 1) + 1 == (2 * pl) * pr) by (nonlinear_arith);
    }
}

/// A block whose values never decrease gets, whatever its length, a code
/// that spells one set bit per value: the root bit followed by the code of
/// the rest, the number `2^n - 1` in `n` bits.
pub proof fn lemma_tree_code_sorted(s: Seq<u64>)
    requires
        1 <= s.len() <= usize::MAX,
        forall|i: int, j: int| 0 <= i <= j < s.len() ==> s[i] <= s[j],
    ensures
        words_value(tree_code(s).0) + 1 == pow2(s.len()),
        tree_code(s).1 == s.len(),
    decreases s.len(),
{
    lemma_first_min_index(s);
    lemma_seq_min_bound(s);
    lemma_tree_code_wf(s);
    let m = first_min_index(s);
    if m > 0 {
        assert(s[0] <= s[m]);
        assert(s[0] > seq_min(s));
    }
    assert(m == 0);
    assert(pow2(0) == 1 && pow2(1) == 2) by { vstd::arithmetic::power2::lemma2_to64(); }
    lemma_dead_end_single_word(1, 1);
    let with_left = append_code(root_code(), dead_end_code());
    assert(with_left == root_code());
    let one: Seq<usize> = seq![1usize];
    assert(one.drop_last().len() == 0);
    assert(words_value(one.drop_last()) == 0);
    assert(word_bits() * 0nat == 0) by (nonlinear_arith);
    assert(words_value(one) == 1);
    if s.len() == 1 {
        lemma_dead_end_single_word(1, 1);
        assert(tree_code(s) == append_code(with_left, dead_end_code()));
    } else {
        let right = s.subrange(1, s.len() as int);
        assert forall|i: int, j: int| 0 <= i <= j < right.len() implies right[i] <= right[j] by {
            assert(right[i] == s[i + 1] && right[j] == s[j + 1]);
        }
        lemma_tree_code_sorted(right);
        lemma_tree_code_wf(right);
        let rc = tree_code(right);
        lemma_append_wf(root_code(), rc);
        assert(word_bits() == 32 || word_bits() == 64);
        let glen = crate::tree_number::grown_words(root_code(), rc).len();
        assert(glen >= 1);
        assert(rc.1 % word_bits() < word_bits()) by (nonlinear_arith) requires word_bits() > 0;
        assert(1 + rc.1 % word_bits() <= word_bits() * glen) by (nonlinear_arith)
            requires glen >= 1, rc.1 % word_bits() < word_bits();
        lemma_append_value(root_code(), rc);
        assert(tree_code(s) == append_code(with_left, rc));
        vstd::arithmetic::power2::lemma_pow2_unfold(s.len());
        assert(((s.len() - 1) as nat) == right.len());
    }
}

/// For a block of at most one word of values, the code built for it is a
/// single word holding the preorder bit string of its Cartesian tree, one bit
/// per value.
pub proof fn lemma_tree_code_single_word(s: Seq<u64>)
    requires
        1 <= s.len() <= word_bits(),
    ensures
        preorder_bits(s) < pow2(s.len()),
        tree_code(s) == (seq![preorder_bits(s) as usize], s.len()),
    decreases s.len(),
{
    lemma_first_min_index(s);
    let m = first_min_index(s);
    let left = s.subrange(0, m);
    let right = s.subrange(m + 1, s.len() as int);
    assert(pow2(0) == 1 && pow2(1) == 2) by { vstd::arithmetic::power2::lemma2_to64(); }
    let a: nat = pow2(left.len()) + preorder_bits(left);
    if m > 0 {
        lemma_tree_code_single_word(left);
        lemma_append_single_word(1, 1, preorder_bits(left) as usize, left.len());
        assert(a == 1 * pow2(left.len()) + preorder_bits(left));
    } else {
        assert(left.len() == 0);
        lemma_dead_end_single_word(1, 1);
    }
    assert(append_code(root_code(), if m > 0 { tree_code(left) } else { dead_end_code() })
        == (seq![a as usize], (1 + left.len()) as nat));
    assert(a < pow2(1 + left.len())) by {
        lemma_pow2_unfold((1 + left.len()) as nat);
    }
    assert(1 + left.len() + right.len() == s.len());
    assert(a <= usize::MAX) by {
        crate::arith::lemma_pow2_le((1 + left.len()) as nat, word_bits());
        vstd::arithmetic::power2::lemma2_to64();
        vstd::arithmetic::power2::lemma2_to64_rest();
    }
    assert(preorder_bits(s) == a * pow2(right.len()) + preorder_bits(right));
    let with_left = append_code(root_code(), if m > 0 { tree_code(left) } else { dead_end_code() });
    if m < s.len() - 1 {
        lemma_tree_code_single_word(right);
        let b: nat = preorder_bits(right);
        assert(b <= usize::MAX) by {
            crate::arith::lemma_pow2_le(right.len(), word_bits());
            vstd::arithmetic::power2::lemma2_to64();
            vstd::arithmetic::power2::lemma2_to64_rest();
        }
        assert((a as usize) as nat == a);
        assert((b as usize) as nat == b);
        lemma_append_single_word(a as usize, (1 + left.len()) as nat, b as usize, right.len());
        assert(tree_code(s) == append_code(with_left, tree_code(right)));
        assert(((1 + left.len()) as nat + right.len()) == s.len());
    } else {
        assert(right.len() == 0);
        assert(preorder_bits(right) == 0);
        lemma_dead_end_single_word(a as usize, (1 + left.len()) as nat);
        assert(a * pow2(0) + 0 == a);
        assert(tree_code(s) == append_code(with_left, dead_end_code()));
        assert(pow2((1 + left.len()) as nat) == pow2(s.len()));
    }
}

/// Cartesian-tree block decomposition.
pub struct CartesianTree<'a> {
    data: &'a [u64],
    tree_blocks: Vec<VecDeque<usize>>,
    tree_lookup_tables: Vec<(VecDeque<usize>, Vec<Vec<usize>>)>,
    block_size: usize,
}

/// The first position `p` of `block[lo..hi]` (counted from `lo`) whose value
/// is no larger than any value of the range; `None` for an empty range.
pub fn first_min_position(block: &[u64], lo: usize, hi: usize) -> (p: Option<usize>)
    requires
        lo <= hi <= block@.len(),
    ensures
        lo == hi ==> p is None,
        lo < hi ==> p == Some((first_min_index(block@.subrange(lo as int, hi as int))) as usize),
{
    if lo == hi {
        return None;
    }
    let mut i: usize = lo;
    let mut found: Option<usize> = None;
    let ghost s = block@.subrange(lo as int, hi as int);
    let ghost m = seq_min(s);
    proof {
        lemma_first_min_index(s);
        lemma_range_min_bound(block@, lo as int, hi as int);
    }
    while i < hi
        invariant
            lo <= i <= hi <= block@.len(),
            lo < hi,
            s == block@.subrange(lo as int, hi as int),
            m == seq_min(s),
            m == range_min(block@, lo as int, hi as int),
            forall|t: int| lo <= t < hi ==> m <= #[trigger] block@[t],
            0 <= first_min_index(s) < s.len(),
            s[first_min_index(s)] == m,
            forall|j: int| 0 <= j < first_min_index(s) ==> s[j] > m,
            found is None ==> forall|j: int| lo <= j < i ==> #[trigger] block@[j] > m,
            found matches Some(q) ==> q == first_min_index(s),
        decreases hi - i,
    {
        if found.is_none() {
            let x: u64 = block[i];
            let mut all: bool = true;
            let mut k: usize = lo;
            while k < hi
                invariant
                    lo <= k <= hi <= block@.len(),
                    x == block@[i as int],
                    all <==> forall|t: int| lo <= t < k ==> x <= #[trigger] block@[t],
                decreases hi - k,
            {
                if !(x <= block[k]) {
                    all = false;
                }
                k = k + 1;
            }
            if all {
                proof {
                    let f = first_min_index(s);
                    assert(s[f] == block@[lo + f]);
                    assert(x <= block@[lo + f]);
                    assert(s[i - lo] == x);
                    if f > i - lo {
                        assert(s[i - lo] > m);
                    }
                    if f < i - lo {
                        assert(block@[lo + f] > m);
                    }
                }
                found = Some(i - lo);
            } else {
                proof {
                    let t = choose|t: int| lo <= t < k && !(x <= #[trigger] block@[t]);
                    assert(m <= block@[t]);
                }
            }
        }
        i = i + 1;
    }
    proof {
        if found is None {
            let f = first_min_index(s);
            assert(s[f] == block@[lo + f]);
        }
    }
    found
}

impl<'a> CartesianTree<'a> {
    /// Preorder bit encoding of the block's Cartesian tree, with absent
    /// children encoded as zeros.
    pub fn build_tree(block: &[u64]) -> (result: TreeNumber)
        requires
            block@.len() >= 1,
        ensures
            result@ == tree_code(block@),
            code_wf(result@),
            result.bit_count == block@.len(),
        decreases block@.len(),
    {
        let mut number: VecDeque<usize> = VecDeque::new();
        number.push_back(0b1);
        let mut result = TreeNumber { number, bit_count: 1 };
        assert(result@ =~= root_code());

        let len: usize = block.len();
        let mut min_index: usize = 0;
        let mut block_min: u64 = u64::MAX;
        let mut i: usize = 0;
        while i < len
            invariant
                len == block@.len(),
                i <= len,
                min_index < len,
                block_min == seq_min(block@.take(i as int)),
                i >= 1 ==> min_index == first_min_index(block@.take(i as int)),
                i == 0 ==> min_index == 0,
            decreases len - i,
        {
            proof {
                let t = block@.take((i + 1) as int);
                assert(t.drop_last() =~= block@.take(i as int));
                if i >= 1 {
                    lemma_first_min_index(block@.take(i as int));
                }
            }
            if block[i] < block_min {
                min_index = i;
                block_min = block[i];
            }
            i = i + 1;
        }
        assert(block@.take(len as int) =~= block@);
        proof {
            lemma_first_min_index(block@);
            lemma_tree_code_wf(block@);
        }

        if min_index > 0 {
            let left_child = CartesianTree::build_tree(&block[0..min_index]);
            proof { lemma_append_wf(result@, left_child@); }
            result.add_child_value(&left_child);
        } else {
            proof { lemma_append_wf(result@, dead_end_code()); }
            result.add_dead_end();
        }
        let ghost left_code = result@;
        proof {
            assert(code_wf(left_code));
            assert(left_code.1 == min_index + 1);
        }

        if min_index < block.len() - 1 {
            let right_child = CartesianTree::build_tree(&block[min_index + 1..block.len()]);
            proof { lemma_append_wf(result@, right_child@); }
            result.add_child_value(&right_child);
        } else {
            proof { lemma_append_wf(result@, dead_end_code()); }
            result.add_dead_end();
        }
        result
    }
}

/// Whether two word sequences are equal.
pub fn same_words(a: &VecDeque<usize>, b: &VecDeque<usize>) -> (same: bool)
    ensures
        same == (a@ == b@),
{
    if a.len() != b.len() {
        return false;
    }
    let mut i: usize = 0;
    while i < a.len()
        invariant
            a@.len() == b@.len(),
            i <= a@.len(),
            forall|j: int| 0 <= j < i ==> a@[j] == b@[j],
        decreases a@.len() - i,
    {
        if a[i] != b[i] {
            return false;
        }
        i = i + 1;
    }
    assert(a@ =~= b@);
    true
}

/// The tables of a structure: an association list from tree codes to the
/// tables of blocks of that shape.
pub type Tables = Vec<(VecDeque<usize>, Vec<Vec<usize>>)>;

/// No tree code occurs twice among the keys.
pub open spec fn keys_distinct(tables: Seq<(VecDeque<usize>, Vec<Vec<usize>>)>) -> bool {
    forall|i: int, j: int|
        0 <= i < j < tables.len() ==> #[trigger] tables[i].0@ != #[trigger] tables[j].0@
}

/// Position of the entry with key `key`, if any.
pub fn find_table(tables: &Tables, key: &VecDeque<usize>) -> (pos: Option<usize>)
    ensures
        match pos {
            Some(p) => p < tables@.len() && tables@[p as int].0@ == key@,
            None => forall|i: int| 0 <= i < tables@.len() ==> #[trigger] tables@[i].0@ != key@,
        },
{
    let mut i: usize = 0;
    while i < tables.len()
        invariant
            i <= tables@.len(),
            forall|j: int| 0 <= j < i ==> #[trigger] tables@[j].0@ != key@,
        decreases tables@.len() - i,
    {
        if same_words(&tables[i].0, key) {
            return Some(i);
        }
        i = i + 1;
    }
    None
}

/// Block length used over `n` values: a quarter of the base-two logarithm.
pub open spec fn cartesian_block_size(n: int) -> int {
    floor_log2_spec(n) / 4
}

/// The values of block `b` of length `w`.
pub open spec fn block_values(data: Seq<u64>, w: int, b: int) -> Seq<u64> {
    data.subrange(b * w, (b + 1) * w)
}

impl<'a> CartesianTree<'a> {
    /// Table of in-block answers: row `l` holds, for each `r` from `l` up to
    /// the block's end, the position of the first minimum of
    /// `block[l..r]`. The first entry of every row asks for the minimum of
    /// the empty range `block[l..l]`, which does not exist; so only an empty
    /// block has a table, and it is empty.
    pub fn build_lookup_table(block: &[u64]) -> (lookup_table: Vec<Vec<usize>>)
        requires
            block@.len() == 0,
        ensures
            lookup_table@.len() == 0,
    {
        let mut lookup_table: Vec<Vec<usize>> = Vec::with_capacity(block.len());
        let mut l: usize = 0;
        while l < block.len()
            invariant
                l <= block@.len(),
                block@.len() == 0,
                lookup_table@.len() == l,
            decreases block@.len() - l,
        {
            let mut row: Vec<usize> = Vec::with_capacity(block.len() - l);
            let mut r: usize = l;
            while r < block.len()
                invariant
                    l <= r <= block@.len(),
                    block@.len() == 0,
                decreases block@.len() - r,
            {
                row.push(first_min_position(block, l, r).unwrap());
                r = r + 1;
            }
            lookup_table.push(row);
            l = l + 1;
        }
        lookup_table
    }

    /// The table stored for the block `b`, by the block's tree code.
    pub closed spec fn table_of(&self, b: int) -> Seq<Vec<usize>> {
        let key = self.tree_blocks@[b]@;
        let t = choose|t: int| 0 <= t < self.tree_lookup_tables@.len() && self.tree_lookup_tables@[t].0@ == key;
        self.tree_lookup_tables@[t].1@
    }

    /// The table of block `b` has an entry at row `i`, column `j`, naming a
    /// position of the data.
    pub closed spec fn entry_ok(&self, b: int, i: int, j: int) -> bool {
        &&& 0 <= i < self.table_of(b).len()
        &&& 0 <= j < self.table_of(b)[i]@.len()
        &&& self.table_of(b)[i]@[j] < self.data@.len()
    }

    /// The value at the position stored at row `i`, column `j` of block `b`'s
    /// table.
    pub closed spec fn entry_value(&self, b: int, i: int, j: int) -> u64 {
        self.data@[self.table_of(b)[i]@[j] as int]
    }
}

impl<'a> Rmq<'a> for CartesianTree<'a> {
    closed spec fn source(&self) -> Seq<u64> {
        self.data@
    }

    closed spec fn well_formed(&self) -> bool {
        let n = self.data@.len() as int;
        let w = self.block_size as int;
        &&& w == cartesian_block_size(n)
        &&& w >= 1
        &&& self.tree_blocks@.len() == n / w
        &&& forall|b: int|
            0 <= b < self.tree_blocks@.len() ==> #[trigger] self.tree_blocks@[b]@ == tree_code(
                block_values(self.data@, w, b),
            ).0
        &&& keys_distinct(self.tree_lookup_tables@)
        &&& forall|b: int|
            0 <= b < self.tree_blocks@.len() ==> exists|t: int|
                0 <= t < self.tree_lookup_tables@.len() && #[trigger] self.tree_lookup_tables@[t].0@
                    == #[trigger] self.tree_blocks@[b]@
    }

    /// Building divides by the block length, which is zero below sixteen
    /// values, and builds the table of the first block, which only an empty
    /// block has; so only data without a whole block can be built.
    open spec fn buildable(data: Seq<u64>) -> bool {
        let w = cartesian_block_size(data.len() as int);
        &&& data.len() >= 1
        &&& w >= 1
        &&& (data.len() as int) / w == 0
    }

    /// Both ends in one block: the entry for the two in-block offsets must
    /// exist. Different blocks: the entry for the left offset and the block
    /// length in the left block's table, and the entry for row 0 and the
    /// right offset in the right block's table, must exist.
    closed spec fn answerable(&self, l: int, r: int) -> bool {
        let w = self.block_size as int;
        &&& 0 <= l <= r < self.data@.len()
        &&& l / w < self.tree_blocks@.len()
        &&& r / w < self.tree_blocks@.len()
        &&& l / w == r / w ==> self.entry_ok(l / w, l % w, r % w)
        &&& l / w != r / w ==> self.entry_ok(l / w, l % w, w) && self.entry_ok(r / w, 0, r % w)
    }

    closed spec fn answer(&self, l: int, r: int) -> u64 {
        let w = self.block_size as int;
        if l / w == r / w {
            self.entry_value(l / w, l % w, r % w)
        } else {
            min2(self.entry_value(l / w, l % w, w), self.entry_value(r / w, 0, r % w))
        }
    }

    fn name() -> (s: String)
        ensures
            s@ == "Cartesian Tree"@,
    {
        "Cartesian Tree".to_string()
    }

    fn max_n() -> (n: usize)
        ensures
            n == 10_000,
    {
        10_000
    }

    fn can_build(data: &[u64]) -> (b: bool) {
        let n: usize = data.len();
        if n == 0 {
            return false;
        }
        let log: usize = floor_log2(n);
        proof { lemma_floor_log2_spec(n as int, log as int); }
        let block_size: usize = log / 4;
        block_size >= 1 && n / block_size == 0
    }

    fn build(data: &'a [u64]) -> (s: Self) {
        let n: usize = data.len();
        let log: usize = floor_log2(n);
        let block_size: usize = log / 4;
        proof { lemma_floor_log2_spec(n as int, log as int); }
        let block_count: usize = data.len() / block_size;
        let mut tree_blocks: Vec<VecDeque<usize>> = Vec::with_capacity(block_count);
        let mut tree_lookup_tables: Tables = Vec::new();
        let mut block_index: usize = 0;
        while block_index < data.len() / block_size
            invariant
                n == data@.len(),
                block_size >= 1,
                n / block_size == 0,
                block_size == cartesian_block_size(n as int),
                block_index <= n / block_size,
                tree_blocks@.len() == block_index,
                forall|b: int|
                    0 <= b < block_index ==> #[trigger] tree_blocks@[b]@ == tree_code(
                        block_values(data@, block_size as int, b),
                    ).0,
                keys_distinct(tree_lookup_tables@),
                forall|b: int|
                    0 <= b < block_index ==> exists|t: int|
                        0 <= t < tree_lookup_tables@.len() && #[trigger] tree_lookup_tables@[t].0@
                            == #[trigger] tree_blocks@[b]@,
            decreases n / block_size - block_index,
        {
            assert((block_index + 1) * block_size <= n) by (nonlinear_arith)
                requires block_index < n / block_size, block_size > 0;
            let start: usize = block_index * block_size;
            let tree_block = CartesianTree::build_tree(&data[start..start + block_size]);
            tree_blocks.push(tree_block.get_number());
            if find_table(&tree_lookup_tables, &tree_block.get_number()).is_none() {
                let lookup_table = CartesianTree::build_lookup_table(&data[start..start + block_size]);
                tree_lookup_tables.push((tree_block.get_number(), lookup_table));
            }
            block_index = block_index + 1;
        }
        CartesianTree { data, tree_blocks, tree_lookup_tables, block_size }
    }

    fn space(&self) -> (bytes: usize)
        ensures
            bytes == vstd::layout::size_of::<CartesianTree<'a>>(),
    {
        core::mem::size_of::<CartesianTree<'a>>()
    }

    fn can_answer(&self, l: usize, r: usize) -> (b: bool) {
        if !(l <= r && r < self.data.len()) {
            return false;
        }
        let left_block: usize = l / self.block_size;
        let right_block: usize = r / self.block_size;
        if left_block >= self.tree_blocks.len() || right_block >= self.tree_blocks.len() {
            return false;
        }
        if left_block == right_block {
            self.has_entry(left_block, l % self.block_size, r % self.block_size)
        } else {
            self.has_entry(left_block, l % self.block_size, self.block_size)
                && self.has_entry(right_block, 0, r % self.block_size)
        }
    }

    fn query(&self, l: usize, r: usize) -> (m: u64) {
        let left_block: usize = l / self.block_size;
        let right_block: usize = r / self.block_size;
        let minimum: u64;

        if left_block == right_block {
            minimum = self.data[self.entry(left_block, l % self.block_size, r % self.block_size)];
        } else {
            let left_minimum: u64 = self.data[self.entry(left_block, l % self.block_size, self.block_size)];
            let right_minimum: u64 = self.data[self.entry(right_block, 0, r % self.block_size)];
            minimum = if left_minimum <= right_minimum { left_minimum } else { right_minimum };
        }
        minimum
    }
}

impl<'a> CartesianTree<'a> {
    /// The table stored for block `b` is found by its tree code.
    fn lookup(&self, b: usize) -> (t: usize)
        requires
            self.well_formed(),
            b < self.tree_blocks@.len(),
        ensures
            t < self.tree_lookup_tables@.len(),
            self.tree_lookup_tables@[t as int].1@ == self.table_of(b as int),
    {
        let found = find_table(&self.tree_lookup_tables, &self.tree_blocks[b]);
        proof {
            let key = self.tree_blocks@[b as int]@;
            let t = choose|t: int| 0 <= t < self.tree_lookup_tables@.len() && self.tree_lookup_tables@[t].0@ == key;
            assert(self.tree_lookup_tables@[t].0@ == key);
            match found {
                Some(p) => {
                    if p != t {
                        if p < t {
                            assert(self.tree_lookup_tables@[p as int].0@ != self.tree_lookup_tables@[t].0@);
                        } else {
                            assert(self.tree_lookup_tables@[t].0@ != self.tree_lookup_tables@[p as int].0@);
                        }
                    }
                },
                None => {},
            }
        }
        found.unwrap()
    }

    /// Whether block `b`'s table has an entry at row `i`, column `j` that
    /// names a position of the data.
    fn has_entry(&self, b: usize, i: usize, j: usize) -> (ok: bool)
        requires
            self.well_formed(),
            b < self.tree_blocks@.len(),
        ensures
            ok == self.entry_ok(b as int, i as int, j as int),
    {
        let t: usize = self.lookup(b);
        let table = &self.tree_lookup_tables[t].1;
        i < table.len() && j < table[i].len() && table[i][j] < self.data.len()
    }

    /// The position stored at row `i`, column `j` of block `b`'s table.
    fn entry(&self, b: usize, i: usize, j: usize) -> (pos: usize)
        requires
            self.well_formed(),
            b < self.tree_blocks@.len(),
            self.entry_ok(b as int, i as int, j as int),
        ensures
            pos == self.table_of(b as int)[i as int]@[j as int],
            pos < self.data@.len(),
    {
        let t: usize = self.lookup(b);
        self.tree_lookup_tables[t].1[i][j]
    }
}

} // verus!
