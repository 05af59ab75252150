# remap

Reordering and splicing of row-based data, such as CSV records, verified with Verus.

- `src/map.rs`: `ColumnMap`, which sends each source column to a destination column
  (or drops it); its constructors `new`, `identity`, `sequential`, `splice`; `MapError`.
- `src/row.rs`: `Row`, and `reorder`, `reorder_ref`, `combine`, `combine_ref`,
  `into_owned`; `CombinationError`.
- `src/text.rs`: decimal numerals and joined lists, for the text of maps, rows and errors.
- `src/laws.rs`: properties that relate the operations (identity and sequential
  reorderings, splicing two rows).
- `app/lib.rs`: `Display` and `std::error::Error` wrappers around the library's types.
