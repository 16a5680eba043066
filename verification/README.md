# kvs

A key-value store with two engines, a line protocol between a client and a
server, and the command-line programs around them.

- `src/` is the verified library (Verus):
  - `codec`: length-prefixed records (a big-endian `u32` length, then the
    payload) and the scan that splits a log file into them;
  - `store`: the `kvs` engine's logic: the index of live keys over a log of
    immutable files and one active file, recovery from the log, and the
    freezing of the active file;
  - `index`, `wal`, `command`, `error`, `decimal`: its parts;
  - `protocol` and `server`: the requests and replies of the line protocol,
    how the server hands a request to the engine, and the reply to the
    engine's answer;
  - `engine`: the engine interface and the tag that records which engine
    last used a working directory;
  - `sled_engine`: the engine over an embedded `sled` database.
- `app/` is ordinary Rust: the program (it runs as `kvs`, `kvs-client` or
  `kvs-server` by the name it is started under), file and socket I/O, JSON
  encoding of records, the thread pools and logging.
- `tests/` holds the tests of the library.
