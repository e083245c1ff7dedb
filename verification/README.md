# drift

Diff two tabular datasets, keyed rather than positional: rows are matched on
one or more key columns, so a row that only moved is unchanged and only a row
whose fields differ is reported. Schema changes, added and removed rows,
changed fields and duplicate keys are reported, as text or as JSON.

The library under `src/` is verified with Verus:

- `csv` — the reader (quotes, doubled quotes, embedded delimiters and line
  breaks, `\r\n`, `\n` and bare `\r`, ragged rows, one leading byte-order
  mark, no trailing newline), specified as a character-level state machine.
- `keyed`, `order` — the keys of a table, the row each key is compared by,
  and the order keys are reported in.
- `diff` — the comparison, with its result characterised exactly by
  `is_report_of`, and the application of a tolerance's verdicts.
- `render`, `json` — the report as text for a person and as JSON.
- `json_reading` — what an RFC 8259 reader makes of the JSON report: one
  object, its members in order, every string read back as written.
- `options`, `args`, `command` — column lists, the delimiter argument, the
  key and ignore conflict, the command line, what is printed and the exit
  status.
- `laws` — properties of every comparison: determinism, keyed rather than
  positional matching, symmetry, what a tolerance may do, JSON escaping
  round trips, how a tolerance's verdicts decide a change, the counting of
  shared keys, long lists that say how many more there are, and the CSV
  reader: quoting every field reads back, when it refuses, blank lines,
  byte-order marks and a missing final line break.

`app/main.rs` is the command around it: reading the arguments, the
environment and the files, the numeric tolerance (floating point), and
printing.
