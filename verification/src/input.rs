//! The input format: whitespace-separated decimal numbers `n q`, then `n`
//! values, then `q` queries `l r`.

use vstd::prelude::*;

verus! {

/// ASCII whitespace: space, tab, line feed, form feed, carriage return.
pub open spec fn is_ascii_ws(b: u8) -> bool {
    b == 0x20 || b == 0x09 || b == 0x0A || b == 0x0C || b == 0x0D
}

/// The maximal runs of non-whitespace bytes of `s`, in order.
pub open spec fn tokens(s: Seq<u8>) -> Seq<Seq<u8>>
    decreases s.len(),
{
    if s.len() == 0 {
        Seq::empty()
    } else {
        let t = tokens(s.drop_last());
        let b = s.last();
        if is_ascii_ws(b) {
            t
        } else if s.len() >= 2 && !is_ascii_ws(s[s.len() - 2]) {
            t.drop_last().push(t.last().push(b))
        } else {
            t.push(seq![b])
        }
    }
}

/// A decimal digit.
pub open spec fn is_digit(b: u8) -> bool {
    0x30 <= b <= 0x39
}

/// The number written by a run of decimal digits.
pub open spec fn digits_value(d: Seq<u8>) -> int
    decreases d.len(),
{
    if d.len() == 0 {
        0
    } else {
        digits_value(d.drop_last()) * 10 + (d.last() - 0x30)
    }
}

/// The digits of a token: without a leading `+`, if it has one.
pub open spec fn unsigned_digits(tok: Seq<u8>) -> Seq<u8> {
    if tok.len() > 0 && tok[0] == 0x2B { tok.drop_first() } else { tok }
}

/// The `u64` a token denotes: an optional `+` followed by at least one
/// decimal digit, with a value that fits.
pub open spec fn parse_u64(tok: Seq<u8>) -> Option<u64> {
    let d = unsigned_digits(tok);
    if d.len() > 0 && (forall|i: int| 0 <= i < d.len() ==> is_digit(#[trigger] d[i])) && digits_value(d)
        <= u64::MAX {
        Some(digits_value(d) as u64)
    } else {
        None
    }
}

/// Every token of `toks` denotes a `u64`.
pub open spec fn all_parse(toks: Seq<Seq<u8>>) -> bool {
    forall|i: int| 0 <= i < toks.len() ==> parse_u64(#[trigger] toks[i]) is Some
}

/// Number of values read: `n`, or fewer when the text ends first.
pub open spec fn values_read(toks: Seq<Seq<u8>>, n: u64) -> int {
    if (n as usize) < toks.len() - 2 { (n as usize) as int } else { toks.len() - 2 }
}

/// The content of a text, if it is well formed: the first two tokens give
/// `n` and `q`; then come up to `n` values (fewer if the text ends), then
/// `q` pairs `l r`. Every token read must denote a `u64`; tokens after the
/// last pair are not read.
pub open spec fn parsed_input(text: Seq<u8>) -> Option<(Seq<u64>, Seq<(usize, usize)>)> {
    let toks = tokens(text);
    if toks.len() < 2 || parse_u64(toks[0]) is None || parse_u64(toks[1]) is None {
        None
    } else {
        let n = parse_u64(toks[0]).unwrap();
        let q = parse_u64(toks[1]).unwrap() as usize;
        let dn = values_read(toks, n);
        let vals = toks.subrange(2, 2 + dn);
        let rest = toks.subrange(2 + dn, toks.len() as int);
        if all_parse(vals) && 2 * q <= rest.len() && all_parse(rest.take(2 * q)) {
            Some(
                (
                    Seq::new(dn as nat, |i: int| parse_u64(vals[i]).unwrap()),
                    Seq::new(
                        q as nat,
                        |j: int|
                            (
                                parse_u64(rest[2 * j]).unwrap() as usize,
                                parse_u64(rest[2 * j + 1]).unwrap() as usize,
                            ),
                    ),
                ),
            )
        } else {
            None
        }
    }
}

/// The input data.
pub struct Input {
    pub data: Vec<u64>,
    pub queries: Vec<(usize, usize)>,
}

/// The byte runs named by spans.
pub open spec fn span_tokens(text: Seq<u8>, spans: Seq<(usize, usize)>) -> Seq<Seq<u8>> {
    Seq::new(spans.len(), |k: int| text.subrange(spans[k].0 as int, spans[k].1 as int))
}

/// Every span is a range of positions below `bound`.
pub open spec fn spans_within(spans: Seq<(usize, usize)>, bound: int) -> bool {
    forall|k: int| 0 <= k < spans.len() ==> #[trigger] spans[k].0 <= spans[k].1 && spans[k].1 <= bound
}

/// Start and end of every token of `text`.
pub fn token_spans(text: &[u8]) -> (spans: Vec<(usize, usize)>)
    ensures
        span_tokens(text@, spans@) == tokens(text@),
        spans_within(spans@, text@.len() as int),
{
    let mut spans: Vec<(usize, usize)> = Vec::new();
    let mut in_token: bool = false;
    let mut start: usize = 0;
    let mut i: usize = 0;
    while i < text.len()
        invariant
            i <= text@.len(),
            in_token <==> (i >= 1 && !is_ascii_ws(text@[i - 1])),
            in_token ==> start < i,
            spans_within(spans@, i as int),
            tokens(text@.take(i as int)) == span_tokens(text@, spans@) + (if in_token {
                seq![text@.subrange(start as int, i as int)]
            } else {
                Seq::empty()
            }),
        decreases text@.len() - i,
    {
        let b: u8 = text[i];
        let ws: bool = b == 0x20 || b == 0x09 || b == 0x0A || b == 0x0C || b == 0x0D;
        let ghost prefix = text@.take((i + 1) as int);
        proof {
            assert(prefix.drop_last() =~= text@.take(i as int));
            assert(prefix.last() == b);
            if i >= 1 {
                assert(prefix[prefix.len() - 2] == text@[i - 1]);
            }
        }
        let ghost before = spans@;
        if ws {
            if in_token {
                spans.push((start, i));
                assert(span_tokens(text@, spans@) =~= span_tokens(text@, before).push(text@.subrange(start as int, i as int)));
                assert forall|k: int| 0 <= k < spans@.len() implies #[trigger] spans@[k].0 <= spans@[k].1 && spans@[k].1 <= i + 1 by {
                    if k < before.len() {
                        assert(spans@[k] == before[k]);
                    }
                }
            }
            in_token = false;
            assert(tokens(prefix) =~= span_tokens(text@, spans@));
        } else {
            if !in_token {
                start = i;
                in_token = true;
                assert(text@.subrange(start as int, i + 1) =~= seq![b]);
            } else {
                assert(text@.subrange(start as int, i as int).push(b) =~= text@.subrange(start as int, i + 1));
            }
            assert(tokens(prefix) =~= span_tokens(text@, spans@) + seq![text@.subrange(start as int, i + 1)]);
        }
        i = i + 1;
    }
    let ghost before = spans@;
    if in_token {
        spans.push((start, i));
        assert(span_tokens(text@, spans@) =~= span_tokens(text@, before).push(text@.subrange(start as int, i as int)));
        assert forall|k: int| 0 <= k < spans@.len() implies #[trigger] spans@[k].0 <= spans@[k].1 && spans@[k].1 <= i by {
            if k < before.len() {
                assert(spans@[k] == before[k]);
            }
        }
    }
    assert(text@.take(i as int) =~= text@);
    assert(span_tokens(text@, spans@) =~= tokens(text@));
    spans
}

/// A prefix of digits is worth no more than the whole run.
proof fn lemma_digits_value_prefix(d: Seq<u8>, k: int)
    requires
        0 <= k <= d.len(),
        forall|i: int| 0 <= i < d.len() ==> is_digit(#[trigger] d[i]),
    ensures
        0 <= digits_value(d.take(k)) <= digits_value(d),
    decreases d.len() - k,
{
    if k < d.len() {
        lemma_digits_value_prefix(d, k + 1);
        assert(d.take(k + 1).drop_last() =~= d.take(k));
        assert(d.take(k + 1).last() == d[k]);
    } else {
        assert(d.take(k) =~= d);
        lemma_digits_value_nonneg(d);
    }
}

proof fn lemma_digits_value_nonneg(d: Seq<u8>)
    requires
        forall|i: int| 0 <= i < d.len() ==> is_digit(#[trigger] d[i]),
    ensures
        digits_value(d) >= 0,
    decreases d.len(),
{
    if d.len() > 0 {
        assert forall|i: int| 0 <= i < d.drop_last().len() implies is_digit(#[trigger] d.drop_last()[i]) by {
            assert(d.drop_last()[i] == d[i]);
        }
        lemma_digits_value_nonneg(d.drop_last());
    }
}

/// The `u64` denoted by the token `text[lo..hi]`, if any.
pub fn parse_token(text: &[u8], lo: usize, hi: usize) -> (value: Option<u64>)
    requires
        lo <= hi <= text@.len(),
    ensures
        value == parse_u64(text@.subrange(lo as int, hi as int)),
{
    let ghost tok = text@.subrange(lo as int, hi as int);
    let mut start: usize = lo;
    if lo < hi && text[lo] == 0x2B {
        start = lo + 1;
    }
    let ghost d = unsigned_digits(tok);
    assert(d =~= text@.subrange(start as int, hi as int));
    if start == hi {
        assert(d.len() == 0);
        return None;
    }
    let mut i: usize = start;
    while i < hi
        invariant
            start <= i <= hi <= text@.len(),
            tok == text@.subrange(lo as int, hi as int),
            d == unsigned_digits(tok),
            d == text@.subrange(start as int, hi as int),
            forall|j: int| start <= j < i ==> is_digit(#[trigger] text@[j]),
        decreases hi - i,
    {
        let b: u8 = text[i];
        if !(0x30 <= b && b <= 0x39) {
            assert(d[i - start] == b);
            return None;
        }
        i = i + 1;
    }
    assert forall|j: int| 0 <= j < d.len() implies is_digit(#[trigger] d[j]) by {
        assert(d[j] == text@[start + j]);
    }
    let mut value: u64 = 0;
    let mut i: usize = start;
    assert(d.take(0) =~= Seq::<u8>::empty());
    while i < hi
        invariant
            start <= i <= hi <= text@.len(),
            tok == text@.subrange(lo as int, hi as int),
            d == unsigned_digits(tok),
            d == text@.subrange(start as int, hi as int),
            forall|j: int| 0 <= j < d.len() ==> is_digit(#[trigger] d[j]),
            value == digits_value(d.take(i - start)),
        decreases hi - i,
    {
        assert(d[i - start] == text@[i as int]);
        assert(is_digit(text@[i as int]));
        let digit: u64 = (text[i] - 0x30) as u64;
        proof {
            assert(d.take(i - start + 1).drop_last() =~= d.take(i - start));
            assert(d.take(i - start + 1).last() == text@[i as int]);
            assert(d[i - start] == text@[i as int]);
        }
        match value.checked_mul(10) {
            Some(tens) => match tens.checked_add(digit) {
                Some(next) => {
                    value = next;
                },
                None => {
                    proof {
                        lemma_digits_value_prefix(d, i - start + 1);
                        assert(digits_value(d) > u64::MAX);
                    }
                    return None;
                },
            },
            None => {
                proof {
                    lemma_digits_value_prefix(d, i - start + 1);
                    lemma_digits_value_nonneg(d.take(i - start));
                    assert(digits_value(d) > u64::MAX);
                }
                return None;
            },
        }
        i = i + 1;
    }
    assert(d.take(d.len() as int) =~= d);
    Some(value)
}

/// Parse the content of an input file; `None` when it is not well formed
/// (see `parsed_input`).
pub fn parse_input(text: &[u8]) -> (input: Option<Input>)
    ensures
        match input {
            Some(inp) => parsed_input(text@) == Some((inp.data@, inp.queries@)),
            None => parsed_input(text@) is None,
        },
{
    let spans: Vec<(usize, usize)> = token_spans(text);
    let ghost toks = tokens(text@);
    proof {
        assert forall|k: int| 0 <= k < spans@.len() implies toks[k] == text@.subrange(#[trigger] spans@[k].0 as int, spans@[k].1 as int) by {
            assert(span_tokens(text@, spans@)[k] == text@.subrange(spans@[k].0 as int, spans@[k].1 as int));
        }
    }
    let count: usize = spans.len();
    assert(span_tokens(text@, spans@).len() == spans@.len());
    if count < 2 {
        return None;
    }
    let n: u64 = match parse_token(text, spans[0].0, spans[0].1) {
        Some(v) => v,
        None => return None,
    };
    let q: u64 = match parse_token(text, spans[1].0, spans[1].1) {
        Some(v) => v,
        None => return None,
    };
    let n_usize: usize = n as usize;
    let q_usize: usize = q as usize;
    let available: usize = count - 2;
    let dn: usize = if n_usize < available { n_usize } else { available };
    let ghost vals = toks.subrange(2, 2 + dn);
    let ghost rest = toks.subrange(2 + dn, toks.len() as int);
    assert(dn == values_read(toks, n));

    let mut data: Vec<u64> = Vec::new();
    let mut k: usize = 0;
    while k < dn
        invariant
            toks == tokens(text@),
            parse_u64(toks[0]) == Some(n),
            parse_u64(toks[1]) == Some(q),
            q_usize == q as usize,
            dn == values_read(toks, n),
            vals == toks.subrange(2, 2 + dn),
            rest == toks.subrange(2 + dn, toks.len() as int),
            count == toks.len(),
            count == spans@.len(),
            dn <= count - 2,
            k <= dn,
            vals == toks.subrange(2, 2 + dn),
            forall|t: int| 0 <= t < spans@.len() ==> toks[t] == text@.subrange(#[trigger] spans@[t].0 as int, spans@[t].1 as int),
            spans_within(spans@, text@.len() as int),
            forall|t: int| 0 <= t < k ==> parse_u64(#[trigger] vals[t]) is Some,
            data@ == Seq::new(k as nat, |i: int| parse_u64(vals[i]).unwrap()),
        decreases dn - k,
    {
        let (lo, hi) = spans[2 + k];
        assert(vals[k as int] == toks[2 + k]);
        match parse_token(text, lo, hi) {
            Some(v) => {
                data.push(v);
                assert(data@ =~= Seq::new((k + 1) as nat, |i: int| parse_u64(vals[i]).unwrap()));
            },
            None => {
                assert(!all_parse(vals));
                return None;
            },
        }
        k = k + 1;
    }
    let rest_len: usize = count - 2 - dn;
    if q_usize > rest_len / 2 {
        proof {
            assert(2 * q_usize > rest.len()) by (nonlinear_arith)
                requires q_usize > rest_len / 2, rest_len == rest.len();
        }
        return None;
    }
    let mut queries: Vec<(usize, usize)> = Vec::new();
    let mut j: usize = 0;
    while j < q_usize
        invariant
            toks == tokens(text@),
            parse_u64(toks[0]) == Some(n),
            parse_u64(toks[1]) == Some(q),
            q_usize == q as usize,
            dn == values_read(toks, n),
            vals == toks.subrange(2, 2 + dn),
            rest == toks.subrange(2 + dn, toks.len() as int),
            count == toks.len(),
            count == spans@.len(),
            dn <= count - 2,
            all_parse(vals),
            data@ == Seq::new(dn as nat, |i: int| parse_u64(vals[i]).unwrap()),
            rest == toks.subrange(2 + dn, toks.len() as int),
            2 * q_usize <= rest.len(),
            j <= q_usize,
            forall|t: int| 0 <= t < spans@.len() ==> toks[t] == text@.subrange(#[trigger] spans@[t].0 as int, spans@[t].1 as int),
            spans_within(spans@, text@.len() as int),
            forall|t: int| 0 <= t < 2 * j ==> parse_u64(#[trigger] rest[t]) is Some,
            queries@ == Seq::new(
                j as nat,
                |i: int| (parse_u64(rest[2 * i]).unwrap() as usize, parse_u64(rest[2 * i + 1]).unwrap() as usize),
            ),
        decreases q_usize - j,
    {
        let at: usize = 2 + dn + 2 * j;
        let (lo1, hi1) = spans[at];
        let (lo2, hi2) = spans[at + 1];
        assert(rest[2 * j as int] == toks[at as int]);
        assert(rest[2 * j + 1] == toks[at + 1]);
        let left: u64 = match parse_token(text, lo1, hi1) {
            Some(v) => v,
            None => {
                assert(!all_parse(rest.take(2 * q_usize))) by {
                    assert(rest.take(2 * q_usize)[2 * j as int] == rest[2 * j as int]);
                }
                return None;
            },
        };
        let right: u64 = match parse_token(text, lo2, hi2) {
            Some(v) => v,
            None => {
                assert(!all_parse(rest.take(2 * q_usize))) by {
                    assert(rest.take(2 * q_usize)[2 * j + 1] == rest[2 * j + 1]);
                }
                return None;
            },
        };
        queries.push((left as usize, right as usize));
        assert(queries@ =~= Seq::new(
            (j + 1) as nat,
            |i: int| (parse_u64(rest[2 * i]).unwrap() as usize, parse_u64(rest[2 * i + 1]).unwrap() as usize),
        ));
        j = j + 1;
    }
    proof {
        assert(all_parse(vals));
        assert forall|t: int| 0 <= t < rest.take(2 * q_usize).len() implies parse_u64(#[trigger] rest.take(2 * q_usize)[t]) is Some by {
            assert(rest.take(2 * q_usize)[t] == rest[t]);
        }
        assert(data@ =~= Seq::new(dn as nat, |i: int| parse_u64(vals[i]).unwrap()));
    }
    Some(Input { data, queries })
}

/// Position at which an input of `k` values goes into `t`: before the first
/// input with more than `k` values (at the end if there is none).
pub open spec fn insert_position(t: Seq<Input>, k: nat) -> int
    decreases t.len(),
{
    if t.len() == 0 {
        0
    } else if t[0].data@.len() > k {
        0
    } else {
        1 + insert_position(t.drop_first(), k)
    }
}

/// The inputs ordered by their number of values, inputs with the same
/// number of values keeping their order (each input is inserted after all
/// earlier ones that are no larger).
pub open spec fn ordered_by_size(s: Seq<Input>) -> Seq<Input>
    decreases s.len(),
{
    if s.len() == 0 {
        Seq::empty()
    } else {
        let t = ordered_by_size(s.drop_last());
        t.insert(insert_position(t, s.last().data@.len()), s.last())
    }
}

/// Every input has no more values than the next one.
pub open spec fn sorted_by_size(s: Seq<Input>) -> bool {
    forall|i: int, j: int| 0 <= i <= j < s.len() ==> s[i].data@.len() <= s[j].data@.len()
}

proof fn lemma_insert_position(t: Seq<Input>, k: nat)
    ensures
        0 <= insert_position(t, k) <= t.len(),
        forall|i: int| 0 <= i < insert_position(t, k) ==> t[i].data@.len() <= k,
        insert_position(t, k) < t.len() ==> t[insert_position(t, k)].data@.len() > k,
    decreases t.len(),
{
    if t.len() > 0 && t[0].data@.len() <= k {
        lemma_insert_position(t.drop_first(), k);
        assert forall|i: int| 0 <= i < insert_position(t, k) implies t[i].data@.len() <= k by {
            if i > 0 {
                assert(t[i] == t.drop_first()[i - 1]);
            }
        }
    }
}

/// Inputs ordered by their number of values come out sorted, and as many
/// as went in.
pub proof fn lemma_ordered_by_size_sorted(s: Seq<Input>)
    ensures
        sorted_by_size(ordered_by_size(s)),
        ordered_by_size(s).len() == s.len(),
    decreases s.len(),
{
    if s.len() > 0 {
        let t = ordered_by_size(s.drop_last());
        lemma_ordered_by_size_sorted(s.drop_last());
        let x = s.last();
        let k = x.data@.len();
        lemma_insert_position(t, k);
        let p = insert_position(t, k);
        let u = t.insert(p, x);
        assert forall|i: int, j: int| 0 <= i <= j < u.len() implies u[i].data@.len() <= u[j].data@.len() by {
            if i < p && j > p {
                assert(u[i] == t[i]);
                assert(u[j] == t[j - 1]);
            } else if i < p && j == p {
                assert(u[i] == t[i]);
            } else if i == p && j > p {
                assert(u[j] == t[j - 1]);
                assert(t[p].data@.len() > k);
                assert(t[p].data@.len() <= t[j - 1].data@.len());
            } else if i > p {
                assert(u[i] == t[i - 1]);
                assert(u[j] == t[j - 1]);
            } else if j < p {
                assert(u[i] == t[i]);
                assert(u[j] == t[j]);
            }
        }
    }
}

/// Order inputs by their number of values, keeping the order of inputs of
/// equal size.
pub fn sort_by_size(inputs: Vec<Input>) -> (sorted: Vec<Input>)
    ensures
        sorted@ == ordered_by_size(inputs@),
{
    let mut rest: Vec<Input> = inputs;
    let ghost all = rest@;
    let mut sorted: Vec<Input> = Vec::new();
    let mut taken: usize = 0;
    let total: usize = rest.len();
    assert(all.take(0) =~= Seq::<Input>::empty());
    while rest.len() > 0
        invariant
            total == all.len(),
            taken <= all.len(),
            rest@ == all.subrange(taken as int, all.len() as int),
            sorted@ == ordered_by_size(all.take(taken as int)),
        decreases rest@.len(),
    {
        let x: Input = rest.remove(0);
        let k: usize = x.data.len();
        let mut p: usize = 0;
        assert(sorted@.subrange(0, sorted@.len() as int) =~= sorted@);
        while p < sorted.len() && sorted[p].data.len() <= k
            invariant
                p <= sorted@.len(),
                insert_position(sorted@, k as nat) == p + insert_position(sorted@.subrange(p as int, sorted@.len() as int), k as nat),
            decreases sorted@.len() - p,
        {
            assert(sorted@.subrange(p as int, sorted@.len() as int).drop_first() =~= sorted@.subrange(p + 1, sorted@.len() as int));
            p = p + 1;
        }
        assert(insert_position(sorted@.subrange(p as int, sorted@.len() as int), k as nat) == 0);
        sorted.insert(p, x);
        assert(all.take(taken + 1).drop_last() =~= all.take(taken as int));
        assert(all.take(taken + 1).last() == x);
        taken = taken + 1;
    }
    assert(all.take(all.len() as int) =~= all);
    sorted
}

/// Decimal notation of `x` in ASCII digits, most significant first.
pub open spec fn decimal_bytes(x: nat) -> Seq<u8>
    decreases x,
{
    if x < 10 {
        seq![(0x30 + x) as u8]
    } else {
        decimal_bytes(x / 10).push((0x30 + x % 10) as u8)
    }
}

/// Each token followed by its separator.
pub open spec fn join_tokens(toks: Seq<Seq<u8>>, seps: Seq<u8>) -> Seq<u8>
    decreases toks.len(),
{
    if toks.len() == 0 {
        Seq::empty()
    } else {
        join_tokens(toks.drop_last(), seps) + toks.last() + seq![seps[toks.len() - 1]]
    }
}

/// The tokens of an input file holding `data` and `queries`: `n`, `q`, the
/// values, then each query's two ends.
pub open spec fn input_tokens(data: Seq<u64>, queries: Seq<(usize, usize)>) -> Seq<Seq<u8>> {
    seq![decimal_bytes(data.len()), decimal_bytes(queries.len())]
        + Seq::new(data.len(), |i: int| decimal_bytes(data[i] as nat))
        + Seq::new(
            2 * queries.len(),
            |k: int| if k % 2 == 0 { decimal_bytes(queries[k / 2].0 as nat) } else { decimal_bytes(queries[k / 2].1 as nat) },
        )
}

/// The separators of an input file: a space after `n` and after the left end
/// of each query, a line break after every other token.
pub open spec fn input_separators(data: Seq<u64>, queries: Seq<(usize, usize)>) -> Seq<u8> {
    Seq::new(
        2 + data.len() + 2 * queries.len(),
        |k: int|
            if k == 0 || (k >= 2 + data.len() && (k - 2 - data.len()) % 2 == 0) {
                0x20u8
            } else {
                0x0Au8
            },
    )
}

/// The text of an input file: `n q` on the first line, then one value per
/// line, then one query `l r` per line.
pub open spec fn input_text(data: Seq<u64>, queries: Seq<(usize, usize)>) -> Seq<u8> {
    join_tokens(input_tokens(data, queries), input_separators(data, queries))
}

/// A token: at least one byte, none of them whitespace.
pub open spec fn is_token(t: Seq<u8>) -> bool {
    t.len() >= 1 && forall|i: int| 0 <= i < t.len() ==> !is_ascii_ws(#[trigger] t[i])
}

proof fn lemma_decimal_bytes(x: nat)
    ensures
        decimal_bytes(x).len() >= 1,
        forall|i: int| 0 <= i < decimal_bytes(x).len() ==> is_digit(#[trigger] decimal_bytes(x)[i]),
        digits_value(decimal_bytes(x)) == x,
    decreases x,
{
    if x < 10 {
        let d = decimal_bytes(x);
        assert(d.last() == 0x30 + x);
        assert(d.drop_last().len() == 0);
        assert(digits_value(d) == digits_value(d.drop_last()) * 10 + (d.last() - 0x30));
    } else {
        lemma_decimal_bytes(x / 10);
        let d = decimal_bytes(x);
        assert(d.drop_last() =~= decimal_bytes(x / 10));
        assert(d.last() == 0x30 + x % 10);
        assert(digits_value(d) == digits_value(d.drop_last()) * 10 + (d.last() - 0x30));
        assert forall|i: int| 0 <= i < d.len() implies is_digit(#[trigger] d[i]) by {
            if i < d.len() - 1 {
                assert(d[i] == decimal_bytes(x / 10)[i]);
            }
        }
    }
}

/// Decimal notation reads back as the number it writes.
pub proof fn lemma_parse_decimal(x: nat)
    requires
        x <= u64::MAX,
    ensures
        parse_u64(decimal_bytes(x)) == Some(x as u64),
        is_token(decimal_bytes(x)),
{
    lemma_decimal_bytes(x);
    let d = decimal_bytes(x);
    assert(d[0] != 0x2B);
    assert(unsigned_digits(d) == d);
    assert forall|i: int| 0 <= i < d.len() implies !is_ascii_ws(#[trigger] d[i]) by {
        assert(is_digit(d[i]));
    }
}

/// A whitespace byte ends what came before without adding a token.
proof fn lemma_tokens_push_ws(s: Seq<u8>, b: u8)
    requires
        is_ascii_ws(b),
    ensures
        tokens(s.push(b)) == tokens(s),
{
    assert(s.push(b).drop_last() =~= s);
}

/// A token written after whitespace (or at the start) is one more token.
proof fn lemma_tokens_push_token(s: Seq<u8>, t: Seq<u8>)
    requires
        s.len() == 0 || is_ascii_ws(s.last()),
        is_token(t),
    ensures
        tokens(s + t) == tokens(s).push(t),
    decreases t.len(),
{
    let u = s + t;
    assert(u.drop_last() =~= s + t.drop_last());
    assert(u.last() == t.last());
    assert(!is_ascii_ws(t.last()));
    if t.len() == 1 {
        assert(t.drop_last().len() == 0);
        assert(s + t.drop_last() =~= s);
        if s.len() >= 1 {
            assert(u[u.len() - 2] == s.last());
        }
        assert(t =~= seq![t.last()]);
    } else {
        let t2 = t.drop_last();
        assert forall|i: int| 0 <= i < t2.len() implies !is_ascii_ws(#[trigger] t2[i]) by {
            assert(t2[i] == t[i]);
        }
        lemma_tokens_push_token(s, t2);
        assert(u[u.len() - 2] == t[t.len() - 2]);
        assert(tokens(s + t2).drop_last() =~= tokens(s));
        assert(t2.push(t.last()) =~= t);
        assert(tokens(s + t2).last() == t2);
    }
}

/// Tokens each followed by whitespace are split back into the same tokens.
pub proof fn lemma_tokens_join(toks: Seq<Seq<u8>>, seps: Seq<u8>)
    requires
        toks.len() <= seps.len(),
        forall|i: int| 0 <= i < toks.len() ==> is_token(#[trigger] toks[i]),
        forall|i: int| 0 <= i < seps.len() ==> is_ascii_ws(#[trigger] seps[i]),
    ensures
        tokens(join_tokens(toks, seps)) == toks,
        toks.len() > 0 ==> join_tokens(toks, seps).len() > 0 && is_ascii_ws(join_tokens(toks, seps).last()),
    decreases toks.len(),
{
    if toks.len() == 0 {
        assert(tokens(Seq::<u8>::empty()) =~= Seq::<Seq<u8>>::empty());
    } else {
        let prev = toks.drop_last();
        assert forall|i: int| 0 <= i < prev.len() implies is_token(#[trigger] prev[i]) by {
            assert(prev[i] == toks[i]);
        }
        lemma_tokens_join(prev, seps);
        let j = join_tokens(prev, seps);
        let t = toks.last();
        assert(is_token(toks[toks.len() - 1]));
        lemma_tokens_push_token(j, t);
        let sep = seps[toks.len() - 1];
        lemma_tokens_push_ws(j + t, sep);
        assert(join_tokens(toks, seps) =~= (j + t).push(sep));
        assert(prev.push(t) =~= toks);
    }
}

/// The tokens of an input file's text are its tokens.
proof fn lemma_input_text_tokens(data: Seq<u64>, queries: Seq<(usize, usize)>)
    requires
        data.len() <= usize::MAX,
        queries.len() <= usize::MAX,
    ensures
        tokens(input_text(data, queries)) == input_tokens(data, queries),
{
    let toks = input_tokens(data, queries);
    let seps = input_separators(data, queries);
    let n = data.len();
    let q = queries.len();
    assert forall|i: int| 0 <= i < toks.len() implies is_token(#[trigger] toks[i]) by {
        if i == 0 {
            lemma_parse_decimal(n);
        } else if i == 1 {
            lemma_parse_decimal(q);
        } else if i < 2 + n {
            lemma_parse_decimal(data[i - 2] as nat);
        } else {
            let k = i - 2 - n;
            if k % 2 == 0 {
                lemma_parse_decimal(queries[k / 2].0 as nat);
            } else {
                lemma_parse_decimal(queries[k / 2].1 as nat);
            }
        }
    }
    assert forall|i: int| 0 <= i < seps.len() implies is_ascii_ws(#[trigger] seps[i]) by {}
    lemma_tokens_join(toks, seps);
}

/// The text of an input file reads back as its values and queries.
#[verifier::rlimit(40)]
pub proof fn lemma_input_text_parses(data: Seq<u64>, queries: Seq<(usize, usize)>)
    requires
        data.len() <= usize::MAX,
        queries.len() <= usize::MAX,
    ensures
        parsed_input(input_text(data, queries)) == Some((data, queries)),
{
    let toks = input_tokens(data, queries);
    let n = data.len();
    let q = queries.len();
    lemma_input_text_tokens(data, queries);
    lemma_parse_decimal(n);
    lemma_parse_decimal(q);
    assert(toks[0] == decimal_bytes(n));
    assert(toks[1] == decimal_bytes(q));
    let nn = parse_u64(toks[0]).unwrap();
    assert(nn as usize == n);
    assert(values_read(toks, nn) == n);
    let vals = toks.subrange(2, 2 + n as int);
    let rest = toks.subrange(2 + n as int, toks.len() as int);
    assert forall|i: int| 0 <= i < vals.len() implies parse_u64(#[trigger] vals[i]) == Some(data[i]) by {
        assert(vals[i] == toks[2 + i]);
        lemma_parse_decimal(data[i] as nat);
    }
    assert forall|k: int| 0 <= k < rest.len() implies parse_u64(#[trigger] rest[k]) == Some(
        if k % 2 == 0 { queries[k / 2].0 as u64 } else { queries[k / 2].1 as u64 },
    ) by {
        assert(rest[k] == toks[2 + n + k]);
        if k % 2 == 0 {
            lemma_parse_decimal(queries[k / 2].0 as nat);
        } else {
            lemma_parse_decimal(queries[k / 2].1 as nat);
        }
    }
    assert(rest.take((2 * q) as int) =~= rest);
    assert(Seq::new(n as nat, |i: int| parse_u64(vals[i]).unwrap()) =~= data);
    assert forall|j: int| 0 <= j < q implies (parse_u64(rest[2 * j]).unwrap() as usize, parse_u64(rest[2 * j + 1]).unwrap() as usize) == #[trigger] queries[j] by {
        assert((2 * j) % 2 == 0 && (2 * j) / 2 == j);
        assert((2 * j + 1) % 2 == 1 && (2 * j + 1) / 2 == j);
    }
    assert(Seq::new(
        q as nat,
        |j: int| (parse_u64(rest[2 * j]).unwrap() as usize, parse_u64(rest[2 * j + 1]).unwrap() as usize),
    ) =~= queries);
}

} // verus!
