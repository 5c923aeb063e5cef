//! What appending a child code means for the number the words spell.

use vstd::prelude::*;
use vstd::arithmetic::power2::{pow2, lemma_pow2_pos, lemma_pow2_adds};
use crate::tree_number::{word_bits, carry_out, shift_words, or_words, grown_words, append_code, Code, can_append};

verus! {

/// The number spelled by words, least significant word first.
pub open spec fn words_value(ws: Seq<usize>) -> nat
    decreases ws.len(),
{
    if ws.len() == 0 {
        0
    } else {
        words_value(ws.drop_last()) + (ws.last() as nat) * pow2(word_bits() * ((ws.len() - 1) as nat))
    }
}

/// `2^W` is one more than the largest word.
proof fn lemma_word_base()
    ensures
        pow2(word_bits()) == usize::MAX + 1,
        word_bits() == 32 || word_bits() == 64,
{
    vstd::arithmetic::power2::lemma2_to64();
    vstd::arithmetic::power2::lemma2_to64_rest();
}

/// Shifting a word left by `0 < k < W` bits splits `x * 2^k` into the word
/// that stays and the bits carried out above it.
proof fn lemma_word_shift(x: usize, k: usize)
    requires
        0 < k < usize::BITS,
    ensures
        x * pow2(k as nat) == (x << k) + carry_out(x, k as nat) * pow2(word_bits()),
        carry_out(x, k as nat) < pow2(k as nat),
{
    let w: usize = usize::BITS as usize;
    lemma_word_base();
    assert(carry_out(x, k as nat) == x >> ((w - k) as usize)) by {
        assert(((w - k) as u32) % (usize::BITS) == (w - k) as u32);
    }
    let m: usize = (w - k) as usize;
    let hi: usize = x >> m;
    let lo: usize = x << k;
    let r: usize = x & (((1usize << m) - 1) as usize);
    assert(lo == (r << k) && r < (1usize << m) && x == (hi << m) + r && hi < (1usize << k)) by (bit_vector)
        requires
            0 < k < usize::BITS,
            m == usize::BITS - k,
            hi == x >> m,
            lo == x << k,
            r == x & (((1usize << m) - 1) as usize),
    ;
    crate::sparse_array::lemma_shl_pow2(k);
    crate::sparse_array::lemma_shl_pow2(m);
    let p = pow2(m as nat);
    let q = pow2(k as nat);
    lemma_pow2_pos(m as nat);
    lemma_pow2_pos(k as nat);
    lemma_pow2_adds(m as nat, k as nat);
    assert(p * q == pow2(word_bits()));
    vstd::bits::lemma_usize_shr_is_div(x, m);
    vstd::arithmetic::div_mod::lemma_fundamental_div_mod(x as int, p as int);
    assert(hi * p <= x) by (nonlinear_arith)
        requires hi == x as int / p as int, x == p * (x as int / p as int) + x as int % p as int, x as int % p as int >= 0;
    vstd::bits::lemma_usize_shl_is_mul(hi, m);
    assert(r * q < p * q) by (nonlinear_arith) requires r < p, q > 0;
    vstd::bits::lemma_usize_shl_is_mul(r, k);
    assert(x * q == hi * (p * q) + r * q) by (nonlinear_arith)
        requires x == hi * p + r;
}

#[verifier::rlimit(30)]
/// Shifting words left by `0 < k < W` bits multiplies their number by
/// `2^k`, less the bits carried out of the top word.
pub proof fn lemma_shift_words_value(ws: Seq<usize>, k: nat)
    requires
        0 < k < word_bits(),
        ws.len() >= 1,
    ensures
        words_value(shift_words(ws, k)) + carry_out(ws.last(), k) * pow2(word_bits() * ws.len())
            == words_value(ws) * pow2(k),
    decreases ws.len(),
{
    let w = word_bits();
    let n = ws.len();
    let x = ws.last();
    lemma_word_shift(x, k as usize);
    let sh = shift_words(ws, k);
    if n == 1 {
        assert(sh[0] == (x << k) | 0usize);
        assert((x << k) | 0usize == x << k) by (bit_vector);
        assert(words_value(sh.drop_last()) == 0);
        assert(w * 0nat == 0 && w * 1nat == w) by (nonlinear_arith);
        assert(pow2(0) == 1) by { vstd::arithmetic::power2::lemma2_to64(); }
        assert(words_value(ws.drop_last()) == 0);
        assert(words_value(sh) == (x << k) as nat * pow2(w * 0nat));
        assert(words_value(ws) == x as nat * pow2(w * 0nat));
        assert(words_value(sh) == (x << k) as nat);
        assert(words_value(ws) == x as nat);
        assert(pow2(w * ws.len()) == pow2(w));
    } else {
        let prev = ws.drop_last();
        lemma_shift_words_value(prev, k);
        assert(sh.drop_last() =~= shift_words(prev, k));
        let c = carry_out(prev.last(), k);
        lemma_word_shift(prev.last(), k as usize);
        crate::sparse_array::lemma_shl_pow2(k as usize);
        crate::tree_number::lemma_shl_or_add(x, c, k as usize);
        assert(sh.last() == (x << k) + c);
        let bn = pow2(w * ((n - 1) as nat));
        lemma_pow2_adds(w * ((n - 1) as nat), w);
        assert(w * ((n - 1) as nat) + w == w * n) by (nonlinear_arith) requires n >= 1;
        let b = pow2(w);
        assert(words_value(sh) == words_value(shift_words(prev, k)) + ((x << k) + c) * bn);
        assert(words_value(ws) == words_value(prev) + x * bn);
        assert(words_value(shift_words(prev, k)) + c * bn == words_value(prev) * pow2(k));
        assert(x * pow2(k) == (x << k) + carry_out(x, k) * b);
        assert(words_value(sh) + carry_out(x, k) * (bn * b) == words_value(ws) * pow2(k)) by (nonlinear_arith)
            requires
                words_value(sh) == words_value(shift_words(prev, k)) + ((x << k) + c) * bn,
                words_value(ws) == words_value(prev) + x * bn,
                words_value(shift_words(prev, k)) + c * bn == words_value(prev) * pow2(k),
                x * pow2(k) == (x << k) + carry_out(x, k) * b;
        assert(pow2(w * n) == bn * b);
    }
}

/// Zero words spell zero.
proof fn lemma_zero_words_value(n: nat)
    ensures
        words_value(Seq::new(n, |i: int| 0usize)) == 0,
    decreases n,
{
    if n > 0 {
        let z = Seq::new(n, |i: int| 0usize);
        assert(z.drop_last() =~= Seq::new((n - 1) as nat, |i: int| 0usize));
        lemma_zero_words_value((n - 1) as nat);
        let p = pow2(word_bits() * ((n - 1) as nat));
        assert(z.last() == 0usize);
        assert((0usize as nat) * p == 0) by (nonlinear_arith);
    }
}

/// Putting `add` zero words below multiplies the number by `2^(W add)`.
proof fn lemma_pad_value(add: nat, ws: Seq<usize>)
    ensures
        words_value(Seq::new(add, |i: int| 0usize) + ws) == words_value(ws) * pow2(word_bits() * add),
    decreases ws.len(),
{
    let w = word_bits();
    let z = Seq::new(add, |i: int| 0usize);
    lemma_pow2_pos(w * add);
    if ws.len() == 0 {
        assert(z + ws =~= z);
        lemma_zero_words_value(add);
        assert(words_value(ws) == 0);
        assert(0 * pow2(w * add) == 0) by (nonlinear_arith);
    } else {
        let n = ws.len();
        lemma_pad_value(add, ws.drop_last());
        assert((z + ws).drop_last() =~= z + ws.drop_last());
        assert((z + ws).last() == ws.last());
        lemma_pow2_adds(w * add, w * ((n - 1) as nat));
        assert(w * add + w * ((n - 1) as nat) == w * ((add + n - 1) as nat)) by (nonlinear_arith) requires n >= 1;
        let x = ws.last() as nat;
        assert((z + ws).len() == add + n);
        assert(words_value(z + ws) == words_value(z + ws.drop_last()) + x * pow2(w * ((add + n - 1) as nat)));
        assert(words_value(z + ws) == words_value(ws.drop_last()) * pow2(w * add) + x * pow2(w * ((add + n - 1) as nat)));
        assert(words_value(z + ws) == words_value(ws) * pow2(w * add)) by (nonlinear_arith)
            requires
                words_value(z + ws) == words_value(ws.drop_last()) * pow2(w * add) + x * pow2(w * ((add + n - 1) as nat)),
                words_value(ws) == words_value(ws.drop_last()) + x * pow2(w * ((n - 1) as nat)),
                pow2(w * ((add + n - 1) as nat)) == pow2(w * add) * pow2(w * ((n - 1) as nat));
    }
}

/// Appending zero words on top leaves the number as it is.
proof fn lemma_top_zeros_value(ws: Seq<usize>, extra: nat)
    ensures
        words_value(ws + Seq::new(extra, |i: int| 0usize)) == words_value(ws),
    decreases extra,
{
    if extra > 0 {
        let z = Seq::new(extra, |i: int| 0usize);
        assert((ws + z).drop_last() =~= ws + Seq::new((extra - 1) as nat, |i: int| 0usize));
        lemma_top_zeros_value(ws, (extra - 1) as nat);
        assert((ws + z).last() == 0usize);
        let p = pow2(word_bits() * (((ws + z).len() - 1) as nat));
        assert((0usize as nat) * p == 0) by (nonlinear_arith);
    } else {
        assert(ws + Seq::new(extra, |i: int| 0usize) =~= ws);
    }
}

/// Or-ing words whose bits do not overlap adds their numbers.
proof fn lemma_or_value_same_len(a: Seq<usize>, b: Seq<usize>)
    requires
        a.len() == b.len(),
        forall|i: int| 0 <= i < a.len() ==> #[trigger] a[i] & b[i] == 0usize,
    ensures
        words_value(Seq::new(a.len(), |i: int| a[i] | b[i])) == words_value(a) + words_value(b),
    decreases a.len(),
{
    let n = a.len();
    let o = Seq::new(n, |i: int| a[i] | b[i]);
    if n > 0 {
        let (a2, b2) = (a.drop_last(), b.drop_last());
        assert forall|i: int| 0 <= i < a2.len() implies #[trigger] a2[i] & b2[i] == 0usize by {
            assert(a2[i] == a[i] && b2[i] == b[i]);
        }
        lemma_or_value_same_len(a2, b2);
        assert(o.drop_last() =~= Seq::new(a2.len(), |i: int| a2[i] | b2[i]));
        let (x, y) = (a.last(), b.last());
        assert(x & y == 0usize);
        assert((x | y) == x + y) by (bit_vector) requires x & y == 0usize;
        assert(o.last() == x | y);
        let p = pow2(word_bits() * ((n - 1) as nat));
        assert((x + y) * p == x * p + y * p) by (nonlinear_arith);
    }
}

/// Or-ing a shorter run of words whose bits do not overlap adds the numbers.
proof fn lemma_or_value(a: Seq<usize>, b: Seq<usize>)
    requires
        b.len() <= a.len(),
        forall|i: int| 0 <= i < b.len() ==> #[trigger] a[i] & b[i] == 0usize,
    ensures
        words_value(or_words(a, b)) == words_value(a) + words_value(b),
{
    let z = Seq::new((a.len() - b.len()) as nat, |i: int| 0usize);
    let b2 = b + z;
    lemma_top_zeros_value(b, (a.len() - b.len()) as nat);
    assert forall|i: int| 0 <= i < a.len() implies #[trigger] a[i] & b2[i] == 0usize by {
        if i < b.len() {
            assert(b2[i] == b[i]);
        } else {
            assert(b2[i] == 0usize);
            let y = a[i];
            assert(y & 0usize == 0usize) by (bit_vector);
        }
    }
    lemma_or_value_same_len(a, b2);
    assert forall|i: int| 0 <= i < a.len() implies #[trigger] or_words(a, b)[i] == (a[i] | b2[i]) by {
        if i >= b.len() {
            let y = a[i];
            assert((y | 0usize) == y) by (bit_vector);
        }
    }
    assert(or_words(a, b) =~= Seq::new(a.len(), |i: int| a[i] | b2[i]));
}

/// The number of a run of words is at least any one word's share of it.
proof fn lemma_words_value_term(ws: Seq<usize>, i: int)
    requires
        0 <= i < ws.len(),
    ensures
        words_value(ws) >= ws[i] * pow2(word_bits() * (i as nat)),
    decreases ws.len(),
{
    if i < ws.len() - 1 {
        lemma_words_value_term(ws.drop_last(), i);
        assert(ws.drop_last()[i] == ws[i]);
    }
}

/// A number below `2^(W k + j)` with `j < W` has no set word above word
/// `k`, and word `k` is below `2^j`.
proof fn lemma_high_words(ws: Seq<usize>, k: nat, j: nat)
    requires
        j < word_bits(),
        words_value(ws) < pow2(word_bits() * k + j),
    ensures
        forall|i: int| k < i < ws.len() ==> ws[i] == 0usize,
        k < ws.len() ==> ws[k as int] < pow2(j),
{
    let w = word_bits();
    assert forall|i: int| k < i < ws.len() implies ws[i] == 0usize by {
        lemma_words_value_term(ws, i);
        if ws[i] != 0usize {
            lemma_pow2_pos(w * (i as nat));
            assert(w * k + j < w * (i as nat)) by (nonlinear_arith) requires k < i, j < w;
            crate::arith::lemma_pow2_le(w * k + j, w * (i as nat));
            assert(ws[i] * pow2(w * (i as nat)) >= pow2(w * (i as nat))) by (nonlinear_arith)
                requires ws[i] >= 1, pow2(w * (i as nat)) > 0;
        }
    }
    if k < ws.len() {
        lemma_words_value_term(ws, k as int);
        lemma_pow2_adds(w * k, j);
        lemma_pow2_pos(w * k);
        if ws[k as int] >= pow2(j) {
            assert(ws[k as int] * pow2(w * k) >= pow2(w * k) * pow2(j)) by (nonlinear_arith)
                requires ws[k as int] >= pow2(j), pow2(w * k) > 0;
            assert(false);
        }
    }
}

/// Appending a child code concatenates the bit strings, when the child's bit
/// count is not a whole number of words or the parent is a single word:
/// when each code's number fits in its bit count and the parent's words
/// (with the word added for spilling bits) have room for the parent's bits
/// shifted by the child's bits beyond whole words, the result spells the
/// parent's number shifted left by the child's bit count, plus the child's
/// number. (A child of a whole number of words shifts a longer parent's
/// words by the full word width, which carries each word whole into the
/// next one instead.)
#[verifier::rlimit(40)]
pub proof fn lemma_append_value(parent: Code, child: Code)
    requires
        can_append(parent, child),
        child.1 % word_bits() != 0 || parent.0.len() == 1,
        words_value(parent.0) < pow2(parent.1),
        words_value(child.0) < pow2(child.1),
        parent.1 + child.1 % word_bits() <= word_bits() * grown_words(parent, child).len(),
    ensures
        words_value(append_code(parent, child).0) == words_value(parent.0) * pow2(child.1) + words_value(
            child.0,
        ),
        words_value(append_code(parent, child).0) < pow2(parent.1 + child.1),
{
    let w = word_bits();
    lemma_word_base();
    let add = child.1 / w;
    let lob = child.1 % w;
    assert(child.1 == w * add + lob && lob < w) by (nonlinear_arith) requires w > 0, add == child.1 / w, lob == child.1 % w;
    let grown = grown_words(parent, child);
    let vp = words_value(parent.0);
    let vc = words_value(child.0);
    // The added word is zero.
    if grown.len() > parent.0.len() {
        assert(grown.drop_last() =~= parent.0);
        assert(grown.last() == 0usize);
        assert((0usize as nat) * pow2(w * ((grown.len() - 1) as nat)) == 0) by (nonlinear_arith);
    }
    assert(words_value(grown) == vp);
    assert(grown.len() >= 1) by {
        if grown.len() == 0 {
            assert(w * 0nat == 0) by (nonlinear_arith);
        }
    }
    let shifted = shift_words(grown, lob);
    lemma_pow2_pos(lob);
    if lob == 0 {
        assert(pow2(0) == 1) by { vstd::arithmetic::power2::lemma2_to64(); }
        assert(parent.1 % w < w) by (nonlinear_arith) requires w > 0;
        assert(grown == parent.0);
        let g = grown[0];
        assert(shifted[0] == (g << 0nat) | 0usize);
        assert((g << 0usize) | 0usize == g) by (bit_vector);
        assert(shifted =~= seq![g]);
        assert(parent.0 =~= seq![g]);
        assert(shifted.drop_last().len() == 0);
        assert(grown.drop_last().len() == 0);
        assert(w * 0nat == 0) by (nonlinear_arith);
        assert(words_value(shifted.drop_last()) == 0);
        assert(shifted.last() == g);
        assert(w * ((shifted.len() - 1) as nat) == 0);
        assert(words_value(shifted) == g as nat * pow2(0));
        assert(words_value(grown.drop_last()) == 0);
        assert(vp == g as nat * pow2(0));
        assert(pow2(lob) == 1);
        let gv: nat = g as nat;
        assert(words_value(shifted) == vp * pow2(lob)) by (nonlinear_arith)
            requires
                words_value(shifted) == gv * pow2(0),
                vp == gv * pow2(0),
                pow2(lob) == 1,
                pow2(0) == 1;
    } else {
        lemma_shift_words_value(grown, lob);
        let top = carry_out(grown.last(), lob);
        let bg = pow2(w * grown.len());
        lemma_pow2_pos(w * grown.len());
        lemma_pow2_pos(parent.1);
        lemma_pow2_adds(parent.1, lob);
        crate::arith::lemma_pow2_le(parent.1 + lob, w * grown.len());
        assert(vp * pow2(lob) < pow2(parent.1 + lob)) by (nonlinear_arith)
            requires vp < pow2(parent.1), pow2(lob) > 0, pow2(parent.1 + lob) == pow2(parent.1) * pow2(lob);
        assert(top == 0) by {
            if top > 0 {
                assert(top * bg >= bg) by (nonlinear_arith) requires top >= 1, bg > 0;
            }
        }
        assert(words_value(shifted) == vp * pow2(lob)) by (nonlinear_arith)
            requires words_value(shifted) + top * bg == vp * pow2(lob), top == 0;
    }
    let padded = Seq::new(add, |i: int| 0usize) + shifted;
    lemma_pad_value(add, shifted);
    lemma_high_words(child.0, add, lob);
    assert forall|i: int| 0 <= i < child.0.len() implies #[trigger] padded[i] & child.0[i] == 0usize by {
        let y = child.0[i];
        if i < add {
            assert(padded[i] == 0usize);
            assert(0usize & y == 0usize) by (bit_vector);
        } else if i == add {
            let g = grown[0];
            assert(padded[i] == shifted[0]);
            assert(shifted[0] == (g << lob) | 0usize);
            crate::sparse_array::lemma_shl_pow2(lob as usize);
            let k = lob as usize;
            assert(y < (1usize << k));
            assert((((g << k) | 0usize) & y) == 0usize) by (bit_vector)
                requires k < usize::BITS, y < (1usize << k);
        } else {
            assert(y == 0usize);
            let x = padded[i];
            assert(x & 0usize == 0usize) by (bit_vector);
        }
    }
    lemma_or_value(padded, child.0);
    lemma_pow2_adds(w * add, lob);
    assert(words_value(append_code(parent, child).0) == words_value(padded) + vc);
    assert(words_value(padded) == vp * pow2(lob) * pow2(w * add));
    assert(pow2(child.1) == pow2(w * add) * pow2(lob));
    assert(vp * pow2(lob) * pow2(w * add) == vp * pow2(child.1)) by (nonlinear_arith)
        requires pow2(child.1) == pow2(w * add) * pow2(lob);
    lemma_pow2_adds(parent.1, child.1);
    lemma_pow2_pos(child.1);
    assert(vp * pow2(child.1) + vc < pow2(parent.1) * pow2(child.1)) by (nonlinear_arith)
        requires vp < pow2(parent.1), vc < pow2(child.1), pow2(child.1) > 0;
}

} // verus!
