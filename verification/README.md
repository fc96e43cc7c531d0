# libpgs

Extraction, encoding and transformation of PGS (Blu-ray) subtitles in Matroska,
M2TS/TS and raw `.sup` files, verified with Verus.

`src/` is the library. Every function states what it returns or changes over
byte sequences and display sets, and those that read a file how many of its bytes
they read:

- `pgs`: segments, payloads, run-length encoding, display sets
- `ebml`, `mkv`: Matroska files, with or without an index
- `m2ts`: transport streams and clip information
- `sup`: raw PGS files
- `extractor`, `collect`, `filtering`, `restriction`, `range`, `ranged`: extraction
  from any of these, of some tracks and within a time range
- `reading`, `mkv/reading`: how little of a file with an index is read
- `ndjson`: display sets as JSON lines, and back
- `io`, `bytes`, `text`, `lang`, `lists`, `listing`, `track`, `error`: the rest

`tests/` holds the tests and `app/` the command line, which reads and writes
files and does what takes floating-point numbers.
