# empire_porter

A verified library for Stellaris empire design files (`user_empire_designs_*.txt`):
it splits a file into its empire design blocks, summarizes each design, writes
export bundles and imports designs into an existing file with a chosen policy for
duplicates (skip, replace or append).

Layout:

- `src/text.rs`: UTF-8 facts, Unicode whitespace trimming, string slicing, decimals.
- `src/scan.rs`: the lexical layer: blanks, quoted strings, braces, assignments.
- `src/summary.rs`: the line-by-line summary of a design block and its key.
- `src/parser.rs`: design blocks, parse errors and their messages.
- `src/io_ops.rs`: selection, export bundles, imports and the written layout.
- `src/preview.rs`: what is shown of designs: the preview of a selection, summary
  chips, duplicate marks and the import report.
- `src/laws.rs`: properties that span functions (exact slices, clean line breaks,
  what each duplicate policy keeps).
- `src/roundtrip.rs`: written files read back as the designs that were written,
  and writing them again changes nothing: in the line break the file already used,
  or in either line break for files without a lone carriage return; for any file
  whose design names stay on one line, at least the names and the written texts
  come back, unless the written text cannot be read at all.
- `app/main.rs`: a command-line front end (list, preview, export, import) that
  reads and writes the files.
- `tests/`: the behaviour on concrete files.
