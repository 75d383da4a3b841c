# dupe_killer

A duplicate file finder with a four-layer progressive check: file size, BLAKE3
hash of the first 8 KiB, BLAKE3 hash of the whole file, byte-by-byte comparison.

The library (`src/`) is written in Verus and holds every decision of the search
with its contract: grouping by size and by digest, the chunk-by-chunk comparison
verdicts, the group verdict, the totals of a scan, the size-argument parser and
the hexadecimal form of digests. Reading files, walking directories, hashing in
parallel and printing live in the command (`app/`), which hands the bytes it
reads to the library.

- `src/types.rs` – shared records and the hexadecimal text of digests
- `src/cli.rs` – the record of a run's options and the size parser (`1MB`, `500KB`, `1.5GiB`)
- `src/text.rs` – character helpers: whitespace trimming, first-match search
- `src/hasher.rs` – BLAKE3 digests, chunk comparison, group verdicts
- `src/grouping.rs` – grouping items by key, with its laws
- `src/duplicates.rs` – the layers of the search and the scan totals
- `src/search.rs` – the four layers run as one search: which group goes through
  which layer next, and its laws. Whatever BLAKE3 returns, collisions included,
  every reported group holds byte-identical files of one size under the digest
  of its first file, and the reported groups and totals do not depend on the
  order of the entries or on entries that cannot be read. That no two equal
  files are parted is stated for files with distinct digests only: under a
  collision a whole candidate group can fail the byte-by-byte check.
- `src/report.rs` – counts with thousands separators, paths quoted for the
  deletion script
- `src/scanner.rs` – which scanned files are kept, and that a higher
  threshold keeps a subset
- `app/` – `main`, argument parsing (clap), directory walk (walkdir),
  file reading with rayon, table / JSON / deletion-script output
