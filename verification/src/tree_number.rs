//! Bit strings of arbitrary length packed into machine words, used to encode
//! the shape of Cartesian trees.

use vstd::prelude::*;
use std::collections::VecDeque;
use vstd::arithmetic::power2::{pow2, lemma_pow2_pos, lemma_pow2_adds};

verus! {

/// Bits per word.
pub open spec fn word_bits() -> nat {
    usize::BITS as nat
}

/// A packed bit string: its words, least significant word first, and the
/// number of bits it holds.
pub type Code = (Seq<usize>, nat);

/// The high bits of `x` that leave the word when it is shifted left by
/// `lob` bits: `x >> (W - lob)`. For `lob == 0` the shift amount is the
/// whole word width, which the machine reduces modulo the width, so the word
/// is carried over whole.
pub open spec fn carry_out(x: usize, lob: nat) -> usize {
    x.wrapping_shr((word_bits() - lob) as u32)
}

/// Every word shifted left by `lob` bits, taking the bits carried out of the
/// word below.
pub open spec fn shift_words(ws: Seq<usize>, lob: nat) -> Seq<usize> {
    Seq::new(
        ws.len(),
        |i: int| (ws[i] << lob) | (if i == 0 { 0usize } else { carry_out(ws[i - 1], lob) }),
    )
}

/// `ws` with `child`'s words or-ed into its low words.
pub open spec fn or_words(ws: Seq<usize>, child: Seq<usize>) -> Seq<usize> {
    Seq::new(ws.len(), |i: int| if i < child.len() { ws[i] | child[i] } else { ws[i] })
}

/// The words of the parent once a top word has been added if the shifted
/// bits need one.
pub open spec fn grown_words(parent: Code, child: Code) -> Seq<usize> {
    let lob = child.1 % word_bits();
    if parent.1 % word_bits() + lob > word_bits() {
        parent.0.push(0usize)
    } else {
        parent.0
    }
}

/// Number of words of the result of appending `child` to `parent`.
pub open spec fn appended_len(parent: Code, child: Code) -> int {
    (grown_words(parent, child).len() + child.1 / word_bits()) as int
}

/// Appending `child` to `parent`: the parent's words are shifted left by the
/// child's bit count (by whole words, then by the remaining bits), and the
/// child's words are or-ed into the low words.
pub open spec fn append_code(parent: Code, child: Code) -> Code {
    let add = child.1 / word_bits();
    let lob = child.1 % word_bits();
    let shifted = shift_words(grown_words(parent, child), lob);
    let padded = Seq::new(add, |i: int| 0usize) + shifted;
    (or_words(padded, child.0), parent.1 + child.1)
}

/// The code of an absent child.
pub open spec fn dead_end_code() -> Code {
    (seq![0usize], 0nat)
}

/// Appending `child` to `parent` is defined: the bit count fits in a word
/// and the child's words fit under the result's words.
pub open spec fn can_append(parent: Code, child: Code) -> bool {
    &&& parent.1 + child.1 <= usize::MAX
    &&& child.0.len() <= appended_len(parent, child)
}

/// The code's words are no more than its bits need, plus one.
pub open spec fn code_wf(c: Code) -> bool {
    1 <= c.0.len() <= 1 + c.1 / word_bits()
}

/// A packed bit string.
pub struct TreeNumber {
    pub number: VecDeque<usize>,
    pub bit_count: usize,
}

impl View for TreeNumber {
    type V = Code;

    open spec fn view(&self) -> Code {
        (self.number@, self.bit_count as nat)
    }
}

/// Appending a well-formed child to a well-formed parent is defined (as
/// long as the bit count fits) and keeps the code well formed.
pub proof fn lemma_append_wf(parent: Code, child: Code)
    requires
        code_wf(parent),
        code_wf(child),
    ensures
        child.0.len() <= appended_len(parent, child),
        code_wf(append_code(parent, child)),
        append_code(parent, child).0.len() == appended_len(parent, child),
{
    let w = word_bits() as int;
    assert(w == 32 || w == 64);
    let b = parent.1 as int;
    let c = child.1 as int;
    let push: int = if b % w + c % w > w { 1 } else { 0 };
    assert(appended_len(parent, child) == parent.0.len() + push + c / w);
    vstd::arithmetic::div_mod::lemma_fundamental_div_mod(b, w);
    vstd::arithmetic::div_mod::lemma_fundamental_div_mod(c, w);
    let q = b / w + c / w + if b % w + c % w >= w { 1int } else { 0int };
    let rem = b % w + c % w - if b % w + c % w >= w { w } else { 0int };
    assert(b + c == w * q + rem) by (nonlinear_arith)
        requires
            b == w * (b / w) + b % w,
            c == w * (c / w) + c % w,
            q == b / w + c / w + if b % w + c % w >= w { 1int } else { 0int },
            rem == b % w + c % w - if b % w + c % w >= w { w } else { 0int };
    vstd::arithmetic::div_mod::lemma_fundamental_div_mod_converse(b + c, w, q, rem);
    let code = append_code(parent, child);
    assert(code.0.len() == appended_len(parent, child));
}

/// Or-ing a value below `2^k` into a word shifted left by `k` bits adds it.
pub(crate) proof fn lemma_shl_or_add(x: usize, c: usize, k: usize)
    requires
        k < usize::BITS,
        c < (1usize << k),
    ensures
        ((x << k) | c) == (x << k) + c,
{
    assert(((x << k) | c) == (x << k) + c) by (bit_vector)
        requires k < usize::BITS, c < (1usize << k);
}

/// Appending a child of `cb > 0` bits to a parent of `pb >= 1` bits, both
/// held in one word and together fitting in one word, shifts the parent left
/// by `cb` bits and adds the child: `p * 2^cb + c`.
pub proof fn lemma_append_single_word(p: usize, pb: nat, c: usize, cb: nat)
    requires
        pb >= 1,
        cb >= 1,
        pb + cb <= word_bits(),
        p < pow2(pb),
        c < pow2(cb),
    ensures
        p * pow2(cb) + c < pow2(pb + cb),
        p * pow2(cb) + c <= usize::MAX,
        append_code((seq![p], pb), (seq![c], cb)) == (seq![(p * pow2(cb) + c) as usize], pb + cb),
{
    let w = word_bits();
    assert(w == 32 || w == 64);
    let parent: Code = (seq![p], pb);
    let child: Code = (seq![c], cb);
    assert(cb / w == 0 && cb % w == cb) by (nonlinear_arith) requires cb < w, cb >= 0;
    assert(pb % w == pb) by (nonlinear_arith) requires pb < w, pb >= 0;
    assert(grown_words(parent, child) == seq![p]);
    lemma_pow2_pos(cb);
    lemma_pow2_adds(pb, cb);
    crate::arith::lemma_pow2_le(pb + cb, w);
    assert(pow2(w) == usize::MAX + 1) by {
        vstd::arithmetic::power2::lemma2_to64();
        vstd::arithmetic::power2::lemma2_to64_rest();
    }
    assert(p * pow2(cb) + c < pow2(pb) * pow2(cb)) by (nonlinear_arith)
        requires p < pow2(pb), c < pow2(cb), pow2(cb) > 0, p >= 0;
    let k = cb as usize;
    vstd::bits::lemma_usize_shl_is_mul(p, k);
    crate::sparse_array::lemma_shl_pow2(k);
    lemma_shl_or_add(p, c, k);
    let shifted = shift_words(seq![p], cb);
    assert(shifted[0] == (p << cb) | 0usize);
    assert((p << k) | 0usize == p << k) by (bit_vector);
    assert(shifted =~= seq![p << k]);
    let padded = Seq::new(0, |i: int| 0usize) + shifted;
    assert(padded =~= seq![p << k]);
    assert(or_words(padded, seq![c]) =~= seq![(p << k) | c]);
}

/// Appending an absent child leaves a one-word code as it is.
pub proof fn lemma_dead_end_single_word(p: usize, pb: nat)
    ensures
        append_code((seq![p], pb), dead_end_code()) == (seq![p], pb),
{
    let w = word_bits();
    assert(w == 32 || w == 64);
    let parent: Code = (seq![p], pb);
    assert(0nat / w == 0 && 0nat % w == 0) by (nonlinear_arith) requires w > 0;
    assert(pb % w < w) by (nonlinear_arith) requires w > 0;
    assert(grown_words(parent, dead_end_code()) == seq![p]);
    let shifted = shift_words(seq![p], 0);
    assert((p << 0usize) | 0usize == p) by (bit_vector);
    assert(shifted =~= seq![p]);
    let padded = Seq::new(0, |i: int| 0usize) + shifted;
    assert(padded =~= seq![p]);
    assert((p | 0usize) == p) by (bit_vector);
    assert(or_words(padded, seq![0usize]) =~= seq![p]);
}

impl TreeNumber {
    /// Append `child_number` below the bits already held: the held bits are
    /// shifted left by the child's bit count and the child's bits fill the
    /// low positions.
    pub fn add_child_value(&mut self, child_number: &Self)
        requires
            can_append(old(self)@, child_number@),
        ensures
            final(self)@ == append_code(old(self)@, child_number@),
    {
        let size_of_block: usize = usize::BITS as usize;
        let additional_blocks: usize = child_number.bit_count / size_of_block;
        let left_over_bits: usize = child_number.bit_count % size_of_block;
        if (self.bit_count % size_of_block + left_over_bits) > size_of_block {
            let len: usize = self.number.len();
            self.number.insert(len, 0);
        }
        let ghost grown = self.number@;
        assert(grown == grown_words(old(self)@, child_number@));

        let mut shifted: VecDeque<usize> = VecDeque::new();
        let mut buffer: usize;
        let mut prev_bits: usize = 0;
        let mut i: usize = 0;
        while i < self.number.len()
            invariant
                self.number@ == grown,
                self.bit_count == old(self).bit_count,
                size_of_block == word_bits(),
                left_over_bits < size_of_block,
                left_over_bits == (child_number.bit_count as nat) % word_bits(),
                i <= grown.len(),
                shifted@ == shift_words(grown, left_over_bits as nat).take(i as int),
                prev_bits == (if i == 0 { 0usize } else { carry_out(grown[i - 1], left_over_bits as nat) }),
            decreases grown.len() - i,
        {
            buffer = self.number[i];
            let word: usize = (buffer << left_over_bits) | prev_bits;
            shifted.push_back(word);
            prev_bits = buffer.wrapping_shr((size_of_block - left_over_bits) as u32);
            assert(shifted@ =~= shift_words(grown, left_over_bits as nat).take(i + 1));
            i = i + 1;
        }
        assert(shifted@ =~= shift_words(grown, left_over_bits as nat));
        self.number = shifted;

        let mut j: usize = 0;
        while j < additional_blocks
            invariant
                j <= additional_blocks,
                self.bit_count == old(self).bit_count,
                self.number@ == Seq::new(j as nat, |k: int| 0usize) + shift_words(grown, left_over_bits as nat),
            decreases additional_blocks - j,
        {
            self.number.insert(0, 0);
            assert(self.number@ =~= Seq::new((j + 1) as nat, |k: int| 0usize) + shift_words(grown, left_over_bits as nat));
            j = j + 1;
        }
        let ghost padded = self.number@;
        assert(padded =~= Seq::new(((child_number.bit_count as nat) / word_bits()) as nat, |k: int| 0usize)
            + shift_words(grown_words(old(self)@, child_number@), ((child_number.bit_count as nat) % word_bits()) as nat));

        let mut merged: VecDeque<usize> = VecDeque::new();
        let mut k: usize = 0;
        while k < self.number.len()
            invariant
                self.number@ == padded,
                self.bit_count == old(self).bit_count,
                k <= padded.len(),
                merged@ == or_words(padded, child_number.number@).take(k as int),
            decreases padded.len() - k,
        {
            let word: usize = if k < child_number.number.len() {
                self.number[k] | child_number.number[k]
            } else {
                self.number[k]
            };
            merged.push_back(word);
            assert(merged@ =~= or_words(padded, child_number.number@).take(k + 1));
            k = k + 1;
        }
        assert(merged@ =~= or_words(padded, child_number.number@));
        self.number = merged;
        self.bit_count += child_number.bit_count;
    }

    /// Append an absent child: a code of no bits made of one zero word.
    pub fn add_dead_end(&mut self)
        requires
            old(self)@.0.len() >= 1,
        ensures
            final(self)@ == append_code(old(self)@, dead_end_code()),
    {
        let mut number: VecDeque<usize> = VecDeque::new();
        number.push_back(0b0);
        let dead_end = TreeNumber { number, bit_count: 0 };
        assert(dead_end@ == dead_end_code());
        assert(can_append(self@, dead_end@)) by {
            assert(appended_len(self@, dead_end@) >= self@.0.len()) by {
                assert(0nat / word_bits() == 0) by (nonlinear_arith) requires word_bits() > 0;
            }
        }
        self.add_child_value(&dead_end);
    }

    /// A copy of the words.
    pub fn get_number(&self) -> (number: VecDeque<usize>)
        ensures
            number@ == self.number@,
    {
        let number = self.number.clone();
        assert(number@ =~= self.number@);
        number
    }
}

} // verus!
