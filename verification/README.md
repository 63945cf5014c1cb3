# bom_parser

A bill-of-materials (BOM) service: it reads BOMs from CSV files and Excel
workbooks, checks them, keeps a version history per BOM, builds the BOM as a
forest of parts, manages alternative materials, and prices a BOM by quantity
tiers.

The library in `src/` is written in Verus and verified: each public function
states what it returns in its `ensures`, over mathematical models (`Seq`,
`Map`, spec functions), and the proofs are checked by Verus.

## Layout

- `src/number.rs` — `Number`, the library's stand-in for an `f64`: its bit
  pattern and its renderings. The library compares numbers (IEEE-754 order,
  computed on the bits) but does no floating-point arithmetic.
- `src/text.rs` — string helpers and the std string operations used, with
  their documented behaviour stated.
- `src/bom.rs`, `src/bom/parser.rs`, `src/bom/numeral.rs` — items, kinds and
  errors; reading CSV (through `csv`) and the sheet names and cells of
  workbooks into records whose number texts follow Rust's float syntax.
- `src/validation.rs`, `src/validation/cycles.rs` — the checks of a BOM and
  the search for circular parent references.
- `src/tree.rs` — building the forest from parent references, flattening it,
  and queries (depth, counts, lookups, raw materials, traversal).
- `src/version.rs` — the changes between two BOMs, version histories and the
  manager of all histories.
- `src/alt.rs` — alternative materials, their order of preference and the
  switching between them.
- `src/calc.rs` — price tiers and surcharge settings, and the choice of tier.
- `src/batch.rs` — the bookkeeping of batch imports.
- `app/` — the HTTP server (actix-web): request handling, shared state
  behind locks, JSON forms of the library's types, the floating-point
  cost arithmetic, and the reading of workbooks with `calamine` (whose
  `.xls` reader can panic on malformed files).
- `tests/` — tests of the library.

## Laws proved

Among the properties proved in `src/` (beyond each function's contract):

- a BOM without a cycle in its parent references builds into a finite
  forest, and so does any BOM whose check found no error, and any BOM whose
  material numbers are distinct;
- flattening a forest gives one item per node, in pre-order, and the forest
  built from items with distinct material numbers and no circular reference
  holds each of them exactly once, so flattening gives every item back, with
  its data and the parent it keeps (its own where that names an item), so
  when every parent names an item the items come back exactly;
- the check for circular parent references reports only genuine cycles,
  none twice (from any starting point), and meets every cycle; a BOM whose
  parent references hold a single cycle gets exactly one such finding;
- the label of a kind or a source reads back as that kind or source;
- comparing a BOM with itself finds no change (distinct material numbers,
  no NaN numbers);
- adding versions or rolling back keeps a history numbered 1, 2, … with only
  the last version current, and a rollback makes the target's data current;
- the order of preference of alternatives is the active ones, each once, in
  non-decreasing priority number, those with equal numbers in their given
  order;
- the price multiplier and the tier name of a quantity come from the same
  tier: the first whose band holds it, else the last.
