# rmq

Range-minimum-query structures over `u64` values, verified with Verus, and a
benchmark driver around them.

`src/` is the verified library:

- `rmq` — the `Rmq` trait: build over a slice, report space, answer `[l, r]`.
- `naive`, `lookup_table`, `sparse_array`, `segment_tree` — structures whose
  answer is proved to be the minimum of `data[l..=r]`; `agreement` states that
  they agree with each other.
- `blocks` — block decomposition; its contract states exactly what it
  answers, which is not always the range minimum.
- `tree_number`, `code_value`, `cartesian_tree` — packed bit strings, the
  Cartesian-tree codes of blocks and the Cartesian-tree structure.
- `minimum`, `arith`, `space` — the minimum of a range, interval sums and
  base-two logarithms, and byte counts.
- `input` — the input format (`n q`, `n` values, `q` pairs) and ordering
  inputs by size; `monitor` — running queries and cross-checking answers;
  `report` — the query log and its text.

`app/main.rs` reads input files, times the queries and prints the results.
