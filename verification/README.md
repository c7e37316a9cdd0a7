# mini_mito

A small storage engine for time series, built as a log-structured merge tree.
Rows are keyed by tags and a timestamp. Writes go to a log and to a columnar
memtable; full memtables are frozen and flushed to sorted Parquet tables; tables
whose rows share a time window are compacted. Reads merge all layers by sequence
number, drop deleted and expired rows, and offer snapshot transactions.

The library under `src/` is verified with Verus. It computes; it does no input
or output. Methods that change what is stored return the bytes to append or the
batches to write, and methods that read say which row groups they need.

- `types`, `order`, `entries`, `names`, `counters`, `fnv`, `little_endian`:
  keys, values, their order, versions of rows, file names, small tools
- `schema`, `cells`, `batch`, `run`: table schemas, the encoding of cells, keys
  and rows, column batches
- `memtable`: the log format, the memtables, versions, transactions, regions,
  compaction, recovery, and what holds of them across operations (`wal_laws`,
  `batch_laws`, `source_laws`, `region_laws`, `restart_laws`)
- `sstable`: bloom filter, table index, tables, the cache of row groups, and what
  is read back of a written table (`table_laws`)
- `query`: merging batches, time ranges from predicates, streams

The program under `app/` adds files, threads, Arrow and Parquet conversion, and
SQL. `tests/` runs the library on concrete values.

What is taken on trust is marked `#[verifier::external_body]` or
`external_type_specification`: the skip list of `crossbeam_skiplist`, the
checksum of `crc32fast`, the encoding of `base64` and the random seed of `rand`.
