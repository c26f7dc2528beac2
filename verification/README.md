# NovaDB storage and intelligence core, verified with Verus

`src/` is a Verus library: every executable function carries a `requires` /
`ensures` contract over mathematical models (sequences, maps, byte strings)
and is proved against it. `app/` holds the parts that read and write files or
handle 64-bit floats, built on the library.

## Layout of `src/`

- Formats: `bytes`, `checksum`, `varint`, `nbf` (NBF reader primitives and
  limits), `page` (checksummed slotted pages), `wal` (write-ahead log records,
  recovery plan), `index_file` (B+ tree snapshot files), `catalog` (index
  definitions), `protocol` (wire frames).
- Structures: `index` (persistent B+ tree), `index_check` (structural check
  of a tree read from a file), `catalog` (named indexes), `buffer` (LRU page
  buffer with pins), `storage` (page-file bookkeeping, document directory),
  `transaction` (transaction states and strict two-phase collection locks).
- Data model pieces: `nova_id`, `nova_timestamp`, `error`, `version`, `text`.
- Query front end: `lexer` (total, span-exact NovaQL lexer).
- Nova Intelligence Engine: `telemetry`, `analysis`, `advisor`, `lifecycle`,
  `assistant`; `auth` (users, roles, sessions, Argon2 password hashes).
- Outside calls stand behind small trusted wrappers whose contracts say what
  the called function does: Argon2, `getrandom`, the system clock and a few
  `char`/`String` functions of std.

## Layout of `app/`

File-backed services: page manager, document store, WAL file and recovery,
locked transaction coordinator, buffered page file, index directory, logging,
the error type with `Display`, and typed documents with their NBF encoding.
