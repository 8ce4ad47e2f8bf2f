# kvstore

A persistent key-value store over TCP, verified with Verus. Values are kept in
memory, every change is appended to a log, and the log is compacted into a
snapshot from time to time.

| Where | What |
|---|---|
| `src/text.rs`, `src/lines.rs` | trimming, splitting, letter case, decimals; lines of bytes |
| `src/command.rs`, `src/reply.rs` | what clients send and what they are answered |
| `src/glob.rs` | the patterns of `KEYS` |
| `src/table.rs` | the keys and their values |
| `src/journal.rs` | the formats of the log and the snapshot |
| `src/config.rs` | where the files are |
| `src/store.rs` | commands as steps; file operations are asked for, not done |
| `src/server.rs` | clients, their input, and how each request is served |
| `src/recovery.rs` | laws of the file formats |
| `src/behaviour.rs` | laws of the commands |
| `src/durability.rs`, `src/history.rs` | laws of what is on disk at every step and after a restart |
| `src/framing.rs` | laws of what clients can rely on |
| `app/` | arguments, signals, sockets and files |
