# reftable

Reading git's reftable reference storage, with its behaviour stated in
contracts and proved by Verus.

## Layout

- `src/reftable/`: the file format. `mod.rs` holds block types, errors and
  the varint, key and string codecs; `record.rs` the record kinds and their
  decoding; `block.rs` blocks and the iterator over their records;
  `table.rs` table headers and footers and the iterator over a table;
  `merged.rs` a stack of tables read as one, newer tables shadowing older
  ones; `keys.rs` the order of keys; `stack.rs` the decisions of loading a
  stack (parsing `tables.list`, which open tables a reload keeps, retry
  delays); `blocksource.rs` the bytes of a table.
- `src/find/`, `src/iter.rs`, `src/refs.rs`: looking references up by name
  and iterating them (all, under a prefix, or the pseudo references).
- `src/peel.rs`: following symbolic references to their object and
  peeling tags, one decision at a time, with a depth limit and cycle
  detection; the lookups are made by the caller (`app/peel.rs`).
- `src/fuzzy.rs`: fuzzy search over reference names with `nucleo-matcher`,
  keeping the best scored hits.
- `src/branch.rs`: the lines of a branch listing.
- `app/`: what runs around the library: mapping table files, the reload
  loop with its sleeps, a reference store holding a stack, error types with
  messages, writing listings.
- `tests/`: tests of the library on concrete tables and references.

Each function that yields or positions an iterator states its result
through a spec function of the iterator's state; proof functions named
`lemma_*` state laws over them, such as that a seek followed by `next`
yields a key not less than the one sought, and the sought record itself
where a table holds it among strictly increasing keys; that each `next`
takes from what an iterator has left; that of records of equal key in
several tables, the one from the newest table is returned and the others
are consumed with it; that over a whole run a merged iterator whose
tables hold strictly increasing keys yields each key once, in increasing
order; that once a table iterator reports its end it keeps doing so; and
that a lookup finds a reference only under its own name.
