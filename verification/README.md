# duperr

A duplicate file finder whose decisions are proved with Verus.

Files are scanned, grouped by size, then by a BLAKE3 digest of their first
4096 bytes, then by a digest of their whole content, and optionally compared
byte by byte. In each group of duplicates one file is kept by a strategy
(first, oldest, newest, shortest path, longest path); the others can be
reported, backed up (keeping the directory structure) and deleted.

## Layout

- `src/` — the verified library:
  - `cli/` — the command line as plain values, size parsing, and the checks
    that turn it into a run's configuration;
  - `scanner/` — file entries, the file filter, and the collection of scanned
    entries (each physical file once);
  - `grouper/` — duplicate groups and the keeper strategies, grouping by size,
    by digest and by byte comparison;
  - `hasher/` — partial and full digests, byte comparison;
  - `pipeline.rs` — the passes of a run as a state machine, the ordering of
    the result, and the actions that follow it;
  - `actions/` — backup destinations and checks, the deletion session, dry-run
    totals;
  - `output.rs` — what the reports show (keeper marks, CSV rows);
  - `paths.rs`, `text.rs`, `glob.rs`, `error.rs` — path logic on raw bytes,
    text helpers, glob sets, errors.
- `app/` — the program around it: argument parsing, directory walks, file
  reading, progress bars, report printing, prompts and file operations.
- `tests/` — tests of the library.
