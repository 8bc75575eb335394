# michael_visualizer

Bookkeeping for a visualizer of measurement files, verified with Verus.

A measurement file is a text table: a header line, four rows that describe
the columns (label, lower bound, upper bound, description) and rows of
numbers. Each column belongs to a limit; a row is filtered out by every limit
whose bounds it leaves.

## Layout

- `src/` — the verified library.
  - `center.rs`: `DataCenter`, which takes file and limit events, keeps files
    and limits in order, counts per row how many limits filter it out, and
    says which views to redraw; its model `CenterModel` and the laws of the
    events.
  - `ordered_map.rs`: a map that keeps the order in which keys arrived.
  - `file.rs`: `FileWrapper`, the traits `FileTrait` and `LimitTrait`, and the
    counting of filtered rows.
  - `simple_file.rs`: files of whole numbers with simple bounded limits.
  - `keys.rs`, `labels.rs`, `event.rs`: keys and their generators, labels,
    events.
  - `text.rs`, `number_text.rs`, `table.rs`: lines, cells and numbers of a
    measurement file, `parse_table`, which splits and checks one, and
    `to_csv`, which writes one.
  - `limit_kind.rs`: what kind of data a limit's column holds and how kinds
    merge.
  - `filtering.rs`, `grid.rs`, `lockable_key.rs`, `tabs.rs`,
    `confirm_exit.rs`, `localization.rs`: the smaller decisions of the
    application.
- `app/` — a command-line front end: reads files in threads, turns the
  checked cells into floating-point numbers, keeps the files and limits in
  `indexmap` containers, and prints the counts.
- `tests/` — tests of the library on concrete values.
