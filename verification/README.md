# kvnode

A key-value node: an in-memory string store served over HTTP, with every
change first appended to a write-ahead log that is replayed at start-up.

- `src/` is the verified library (Verus):
  - `storage` — the store and its laws (a get returns the last put; a
    delete removes; other keys are untouched);
  - `actor` — the commands the store serves, the step that logs a change
    before applying it, and the laws over whole histories (reads see the
    last write; the log holds the changes in order; replaying the logged
    commands restores the store; a faithful replay rewrites the log);
  - `persistence` — the write-ahead log as a sequence of records with
    rising sequence numbers, the writer that appends them (fresh or
    continuing an existing log), and recovery,
    which keeps the valid records and truncates at the first torn or
    damaged one;
  - `record` — the checksummed record format (`len | type | version | seq |
    data | crc32`, big-endian, `len` counting the whole record), with the
    laws that a written record reads back as itself, that a torn record is
    never read back, and that any one changed byte after the length field
    fails the CRC-32 check;
  - `node`, `kvnode`, `client`, `dummy` — the HTTP answers, start-up
    decisions (including the SHA-256 comparison of the replayed log with
    the one it was replayed from), client URLs, and a small arithmetic
    helper.
- `app/` is the unverified shell: the server binary (tokio, axum, rkyv,
  file I/O) and the HTTP client (`app/cli.rs`, reqwest), run as
  `kvnode cli <get|put|delete> ...`.
- `tests/` runs the library on concrete values.
