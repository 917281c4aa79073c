# GrumpyDB

A document store with verified storage logic: slotted pages and overflow
chains, B+Trees, a buffer pool, a binary document codec, a write-ahead log with
hybrid logical clocks and vector clocks, crash recovery, collections with
secondary indexes, databases with snapshot reads, and clients and servers that
keep their databases apart.

- `src/` is the library. It works on the contents of files: whoever uses it
  reads the files in and writes changed pages and log records out. All of it is
  verified with Verus. Contracts speak of models: the bytes of a page, the
  entries of a tree, the documents of a collection, the records of a log. What
  relates several functions stands in proof functions whose names start with
  `law_`.
- `tests/` runs the library.
- `app/` is the library on disk: files, JSON state, locks for many threads.

## Modules

| Module | What it holds |
|---|---|
| `page` | pages, the free-list, slotted pages, overflow chains |
| `btree` | B+Trees over fixed and variable-length keys, cursors |
| `buffer` | the buffer pool |
| `document` | values, the codec, merging of CRDT payloads |
| `index` | sortable encodings and secondary indexes |
| `wal` | clocks, log records, the log writer, recovery, durability |
| `collection` | documents in a data file with a primary and secondary indexes |
| `engine` | one collection with a log |
| `database` | named collections with a log, histories and references |
| `server` | clients and servers |
