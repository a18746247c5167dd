# kvs

A log-structured key/value store, verified with Verus.

- `src/` is the verified library. `store` keeps the bookkeeping of the store
  (`KvStore`): for each key, the generation and byte range of its live
  command in the logs, the count of stale bytes, when compaction is due and
  how it relocates the live commands; `model` states that bookkeeping
  mathematically and `laws` proves what holds across operations (a read
  gives back the last write, removal forgets, compaction keeps the contents,
  replaying the written logs restores the index, the two engines hold the
  same map). The reopening law covers compactions only where each live
  command is copied exactly; the store's own positions keep the end offset
  in their `len` field, so the copies it asks for can take more bytes than
  the command, and then reopening can find other answers. `index` is the key-ordered
  index, `keys` the order of keys, `files` the naming of log files,
  `sled_engine` the engine backed by `sled`, `protocol` the client's handling
  of server answers, `server` the choice of engine.
- `app/` holds the programs: the `kvs` command line, the file-backed store
  that reads and writes the logs and asks `KvStore` what to do, the network
  client, the server's start-up, and small demos.
