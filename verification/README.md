# fast_csv

Converts CSV to XLSX: a stream of CSV on standard input, or several CSV files merged into one
workbook; and compares a workbook, cell by cell, with the CSV files that it was made of.

- `src/` is the library, verified with Verus. It decides what goes into the archive: the types of
  the columns, cells, rows, chunks, sheets and the parts that list them. Reading and writing are
  actions that it asks for.
- `app/` reads CSV, writes and reads ZIP files, and carries these actions out.
- `tests/` runs the library on concrete values.

What a written workbook guarantees is stated as public proof functions:

- every record is in the workbook once, in order (`pipe::stream_keeps_every_row`,
  `pipe_writer::streamed_workbook_holds_records`, `merge::merge_keeps_every_row`,
  `merge_writer::merged_workbook_holds_rows`);
- no sheet holds more rows than a sheet may, and the parts list exactly the sheets that are there
  (`pipe_writer::sheets_stay_in_limit` and the two workbook laws);
- no character that XML does not allow is written, and nothing but a finite number as a number
  (`legal_laws`);
- what was written is read back (`row_laws`, `escape_laws`), and matches its records exactly where
  the fields allow it (`roundtrip_laws`).
