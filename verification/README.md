# profiler (verified symbol resolution)

- `src/text.rs`: hexadecimal parsing and formatting, Unicode white space,
  and the line structure of a text, each with the specification it is
  proved against.
- `src/jitsym.rs`: the perf-map symbol table (`/tmp/perf-<pid>.map`):
  parsing, a stable merge sort by start, lookup (binary search, then a
  walk back bounded by the running maximum of ends), and the
  laws that relate lookup to the lines of the file.
- `src/symbolize.rs`: frames and their labels.
- `app/lib.rs`: reading the map file from disk.
