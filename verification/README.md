# weirdgungamecalc

A build calculator for the Roblox game Weird Gun Game, with its core written
in Verus and proved against its contracts.

- `src/` is the verified library: reading the community spreadsheet (CSV
  exports of its parts and cores tabs) into typed records, ranking builds and
  keeping the best of them, joining the searches of the cores, checking the
  category table and penalty matrix read from a database, and ordering the
  file and network steps that refresh the data.
- `app/` is the command-line program `wggcalc` around it: argument handling,
  SQLite and JSON loading, downloads, and the floating-point damage and
  time-to-kill formulas, which the library does not hold.
- `tests/` exercises the library on concrete inputs.

## Design notes

The category table (`table::CategoryTable`) keeps its names in a `Vec` of
pairs with a ghost `Map` as its model rather than in a `HashMap<String, usize>`.
With `String` keys Verus proves next to nothing about a std `HashMap` (not
even its length after one insert), so the lookups, the "later entry wins" rule
and the index checks could not be stated over it; the table is small (one
entry per weapon category), so a scan costs nothing.
