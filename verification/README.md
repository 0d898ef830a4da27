# struct_compression_analyzer

Analyzes how well bit-packed structures compress. A YAML schema describes the
fields of each entry; every field's bits are gathered into a stream of their
own, counted bit by bit and value by value, and rearranged into alternative
layouts (splits of fields, arrays of a field's values, structs that interleave
values, skips and padding) whose compressed sizes can then be compared.

## Layout

- `src/` is the library, verified with Verus:
  - `bits` — bit streams in either bit order: a reader and a writer over
    bytes, specified over sequences of bits.
  - `schema` — the schema model: groups, fields, conditions, comparisons, and
    the passing down of bit orders.
  - `offset_evaluator` — conditional offsets: which one a file's header picks.
  - `analyzer` — the walk of an entry over the schema, and the per-field
    statistics it updates.
  - `comparison` — the custom layouts (`compare_groups::generate_bytes`:
    arrays and structs, with their round-trip and termination laws), the bytes
    of split groups, and the whole-number measurements of groups (estimated
    LZ matches, zstandard size), their differences and averages (`sizes`).
  - `results` — per-field metrics, their merging over many files (per-field
    LZ averages among them), and sorted value counts.
  - `csv`, `utils` — file names for reports, bit reversal, zstandard sizes and
    LZ match estimates.
- `app/` is the command-line tool around it: reading files and schemas,
  entropy and size estimates (floating point), merging and printing results,
  CSV reports, plots and the brute-force search of estimator coefficients.
- `tests/` holds the tests of the library.
