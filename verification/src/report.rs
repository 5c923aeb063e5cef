//! The log of queries kept for a report, and its text.

use vstd::prelude::*;
use vstd::string::StringExecFns;

verus! {

/// The character of a decimal digit.
pub open spec fn digit_char(d: int) -> char {
    seq!['0', '1', '2', '3', '4', '5', '6', '7', '8', '9'][d]
}

/// Decimal notation of `x`, most significant digit first, without leading
/// zeros.
pub open spec fn decimal(x: nat) -> Seq<char>
    decreases x,
{
    if x < 10 {
        seq![digit_char(x as int)]
    } else {
        decimal(x / 10).push(digit_char((x % 10) as int))
    }
}

/// One line of the report: `l:{left}\tr:{right}\t{minimum}\n`.
pub open spec fn query_line(q: (usize, usize, u64)) -> Seq<char> {
    seq!['l', ':'] + decimal(q.0 as nat) + seq!['\t', 'r', ':'] + decimal(q.1 as nat) + seq!['\t']
        + decimal(q.2 as nat) + seq!['\n']
}

/// The lines of the report, one per query in order.
pub open spec fn query_lines(qs: Seq<(usize, usize, u64)>) -> Seq<char>
    decreases qs.len(),
{
    if qs.len() == 0 {
        Seq::empty()
    } else {
        query_lines(qs.drop_last()) + query_line(qs.last())
    }
}

/// The report: the name on a line of its own, then the queries.
pub open spec fn report_text(name: Seq<char>, qs: Seq<(usize, usize, u64)>) -> Seq<char> {
    name + seq!['\n'] + query_lines(qs)
}

/// The one-character string of a decimal digit.
fn digit_str(d: u64) -> (s: &'static str)
    requires
        d < 10,
    ensures
        s@ == seq![digit_char(d as int)],
{
    proof {
        reveal_strlit("0");
        reveal_strlit("1");
        reveal_strlit("2");
        reveal_strlit("3");
        reveal_strlit("4");
        reveal_strlit("5");
        reveal_strlit("6");
        reveal_strlit("7");
        reveal_strlit("8");
        reveal_strlit("9");
    }
    if d == 0 {
        "0"
    } else if d == 1 {
        "1"
    } else if d == 2 {
        "2"
    } else if d == 3 {
        "3"
    } else if d == 4 {
        "4"
    } else if d == 5 {
        "5"
    } else if d == 6 {
        "6"
    } else if d == 7 {
        "7"
    } else if d == 8 {
        "8"
    } else {
        "9"
    }
}

/// The decimal digits of `x`, least significant first.
spec fn digits_reversed(x: nat) -> Seq<u64>
    decreases x,
{
    if x < 10 {
        seq![x as u64]
    } else {
        seq![(x % 10) as u64] + digits_reversed(x / 10)
    }
}

/// Appends the decimal notation of `x` to `out`.
pub fn push_decimal(out: &mut String, x: u64)
    ensures
        final(out)@ == old(out)@ + decimal(x as nat),
{
    let mut digits: Vec<u64> = Vec::new();
    let mut rest: u64 = x;
    while rest >= 10
        invariant
            digits@ + digits_reversed(rest as nat) == digits_reversed(x as nat),
            forall|i: int| 0 <= i < digits@.len() ==> digits@[i] < 10,
        decreases rest,
    {
        let ghost before = digits@;
        digits.push(rest % 10);
        assert(digits@ + digits_reversed((rest / 10) as nat) =~= before + digits_reversed(rest as nat));
        rest = rest / 10;
    }
    digits.push(rest);
    assert(digits@ =~= digits_reversed(x as nat));
    let ghost all = digits@;
    let mut i: usize = digits.len();
    assert(decimal_of_reversed(all.subrange(i as int, all.len() as int)) == Seq::<char>::empty());
    assert(out@ =~= old(out)@ + Seq::<char>::empty());
    while i > 0
        invariant
            i <= all.len(),
            digits@ == all,
            forall|j: int| 0 <= j < all.len() ==> all[j] < 10,
            out@ == old(out)@ + decimal_of_reversed(all.subrange(i as int, all.len() as int)),
        decreases i,
    {
        i = i - 1;
        out.append(digit_str(digits[i]));
        proof {
            lemma_decimal_step(all, i as int);
        }
    }
    proof {
        assert(all.subrange(0, all.len() as int) =~= all);
        lemma_decimal_of_digits(x as nat);
    }
}

/// The characters of digits given least significant first, written most
/// significant first.
spec fn decimal_of_reversed(ds: Seq<u64>) -> Seq<char>
    decreases ds.len(),
{
    if ds.len() == 0 {
        Seq::empty()
    } else {
        decimal_of_reversed(ds.drop_first()) + seq![digit_char(ds[0] as int)]
    }
}

proof fn lemma_decimal_step(all: Seq<u64>, i: int)
    requires
        0 <= i < all.len(),
    ensures
        decimal_of_reversed(all.subrange(i, all.len() as int))
            == decimal_of_reversed(all.subrange(i + 1, all.len() as int)) + seq![digit_char(all[i] as int)],
{
    assert(all.subrange(i, all.len() as int).drop_first() =~= all.subrange(i + 1, all.len() as int));
}

proof fn lemma_decimal_of_digits(x: nat)
    ensures
        decimal_of_reversed(digits_reversed(x)) == decimal(x),
    decreases x,
{
    if x < 10 {
        assert(digits_reversed(x).drop_first() =~= Seq::<u64>::empty());
        assert(decimal_of_reversed(Seq::<u64>::empty()) == Seq::<char>::empty());
        assert(decimal_of_reversed(digits_reversed(x)) =~= decimal(x));
    } else {
        lemma_decimal_of_digits(x / 10);
        assert(digits_reversed(x).drop_first() =~= digits_reversed(x / 10));
        assert(decimal_of_reversed(digits_reversed(x)) =~= decimal(x));
    }
}

/// Monitor the queries during a benchmark.
#[allow(non_camel_case_types)]
pub struct Query_Monitor {
    pub name: String,
    pub queries: Vec<(usize, usize, u64)>,
}

impl Query_Monitor {
    /// An empty log under the given name.
    pub fn build(name: String) -> (monitor: Self)
        ensures
            monitor.name@ == name@,
            monitor.queries@ == Seq::<(usize, usize, u64)>::empty(),
    {
        Self { name: name, queries: Vec::new() }
    }

    /// Log one query and its answer.
    pub fn add_query(&mut self, left: usize, right: usize, minimum: u64)
        ensures
            final(self).name@ == old(self).name@,
            final(self).queries@ == old(self).queries@.push((left, right, minimum)),
    {
        self.queries.push((left, right, minimum));
    }

    /// The text of the report: the name, then one line per logged query.
    pub fn report(&self) -> (data: String)
        ensures
            data@ == report_text(self.name@, self.queries@),
    {
        let mut data: String = String::new();
        data.append(self.name.as_str());
        proof { reveal_strlit("\n"); reveal_strlit("l:"); reveal_strlit("\tr:"); reveal_strlit("\t"); }
        data.append("\n");
        let mut i: usize = 0;
        while i < self.queries.len()
            invariant
                i <= self.queries@.len(),
                data@ == self.name@ + seq!['\n'] + query_lines(self.queries@.take(i as int)),
            decreases self.queries@.len() - i,
        {
            let (l, r, m) = self.queries[i];
            proof { reveal_strlit("\n"); reveal_strlit("l:"); reveal_strlit("\tr:"); reveal_strlit("\t"); }
            data.append("l:");
            push_decimal(&mut data, l as u64);
            data.append("\tr:");
            push_decimal(&mut data, r as u64);
            data.append("\t");
            push_decimal(&mut data, m);
            data.append("\n");
            assert(self.queries@.take(i + 1).drop_last() =~= self.queries@.take(i as int));
            assert(data@ =~= self.name@ + seq!['\n'] + query_lines(self.queries@.take(i + 1)));
            i = i + 1;
        }
        assert(self.queries@.take(self.queries@.len() as int) =~= self.queries@);
        data
    }
}

} // verus!
