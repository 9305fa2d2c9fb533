# basic_db

A simple write-ahead-log key-value store, verified with Verus.

- `src/record.rs`: the record format of a log segment (key length and value
  length as big-endian `u32`, key, value), reading a segment back, and the
  proofs that a written log reads back record by record and that a record
  torn by a crash is discarded.
- `src/index.rs`: the in-memory index from keys to value locations, its
  rebuild from the segment files, compaction, and the proofs that recovery
  gives back the index built while serving and that compaction keeps every
  value.
- `src/writer.rs`: the log writer's decisions, as steps: where each record
  lands, when to move on to a new segment, when to sync; and the proof that a
  segment never outgrows the maximal size unless one record alone is larger.
- `src/paths.rs`: the names of the segment files and the directory scan.
- `src/serving.rs`: the store over runs of SETs from any state between
  requests (start-up on existing segments, after compaction, while serving):
  the writer's offset is the segment's length, every GET reads the value last
  SET, compaction keeps what every GET reads, and rebuilding the index from
  clean files gives back the live index.
- `src/protocol.rs`: the request and response bytes, what the server does
  for each request, the end of a SET (`complete_set`), the response for each
  outcome, and what compaction writes and removes.
- `app/`: the TCP server, the command line client (`client ...`) and the load
  generator (`stress ...`), which do the file and network work.
