# lsm_tree

A log-structured merge tree storage engine, verified with Verus: write-ahead
log records, memory tables, bloom filters and sorted string table blocks,
with their binary encodings.

- `src/` is the verified library.
  - `encoding`, `keys`, `entries`, `text`: big-endian integers, the byte
    order of keys, sorted entry sequences and the maps they stand for, UTF-8
    decoding.
  - `bytes_reader`, `types`: byte cursors and the key/value encoding.
  - `mem_table`: the `MemTable` trait, an ordered vector table and an arena
    skip list.
  - `sst`: blocks, the bloom filter and the table file layout.
  - `wal`: log records, the log file header, the choice of the file to
    continue.
  - `storage`, `file_names`: the engine's counters and data file names.
- `app/` is the program around it: files on disk and the floating-point
  sizing of bloom filters.
- `tests/` runs the library on concrete values.
