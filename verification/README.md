# pi_dates

Counts the eight-character sequences of a large text, such as the first
billion digits of pi, that may be dates written `YYYYMMDD`, and finds which
days from 1900-01-01 to 2099-12-31 occur.

The library in `src/` is written in Verus: every function carries a contract
that Verus proves. The program in `app/` maps the input file, hands chunks to
worker threads, prints results and writes JSON; it runs:

- with no argument: a sliding window of text over 10 MiB chunks, counting
  each eight-byte sequence without a `.` in a shared table;
- `presence`: a rolling eight-digit number over overlapping 16 MiB chunks,
  marking which dates occur, then counting them;
- `histogram`: the same rolling number counted in a table, with the number of
  distinct dates, the most frequent one, and the counts of real days written
  to `date_counts.json`;
- `blocks`, `rebuild`, `subtract`, `subtract-parallel`: other readings of the
  digits into date numbers;
- `findmissing <file.json>`: the days that a JSON file of counts lacks.

The outside crates: `memmap` and `rayon` serve the program; `chrono` decides
which numbers name days of the calendar, behind one trusted wrapper in
`src/dates.rs`; `serde_json` reads the table of counts behind another
trusted wrapper there, and writes the counts from the program.
