# bund_blobstore

An embedded blob store for retrieval, observability and distributed data,
whose logic is written in Verus and proved against its contracts.

## Layout

- `src/` is the verified library. Each module states its behaviour over
  mathematical models (`Seq`, `Map`, `Set`, spec functions) and proves it:
  - `chunking`, `advanced_chunking`, `chunk_keys`: cutting documents into
    chunks and laying them out over shards;
  - `distribution`, `routing`, `routing_index`, `ring`: choosing shards for
    keys and keeping the routing table;
  - `fulltext`, `phrase`, `fuzzy`, `trie`, `docsearch`, `facets`,
    `similarity`: text indexing and search;
  - `telemetry`, `time_bucket`, `multidim`, `ingest`, `grok`, `bloom`,
    `rca`: telemetry records, log ingestion and root cause analysis;
  - `graph`, `traversal`: graph algorithms over numbered nodes;
  - `vfs`, `vpath`, `glob`, `blob`, `lru`, `strmap`, `keyed`, `json`,
    `docinfo`, `language`, `text`: the filesystem layer, blob metadata and
    supporting data structures.
  Calls into outside crates (regex, chrono, strsim, rust-stemmers,
  murmurhash3) and into parts of std that vstd does not specify stand behind
  small trusted wrappers, each with a doc comment saying what its contract
  claims.
- `tests/` exercises the library on concrete values.
- `app/` holds what cannot be verified: storage on redb, serialization,
  file and network I/O, clocks and identifiers, and the floating-point
  scoring of search results.
