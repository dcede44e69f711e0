# arachne

The deterministic core of a replicated, strongly consistent key-value store, verified
with Verus.

- `src/` is the library. Every function carries a contract, and every contract is
  proved but for those of the few calls into outside code that the last paragraph
  names. Nothing in it performs input or output: the log answers with the file
  operations to perform, a node with the messages, proposals and answers to send.
- `app/` performs what the library decides: files, threads, channels, clocks, and the
  raft core.
- `tests/` runs the library on concrete values. `tests/wal.rs` performs the log's file
  operations on a directory in memory.

## Modules of the library

| module | what it is |
|---|---|
| `storage` | records, segments, META, membership and snapshot files, and the log (`wal`) |
| `state_machine` | the key-value state machine with its session table |
| `consensus` | how a node is set up, membership changes, and the cycle that persists before it sends |
| `runtime` | what a node does with requests, committed work, reads, sessions and snapshots |
| `client` | errors, and the handle that follows the leader |
| `profile`, `metrics`, `fault_injection` | tuning presets, metrics, crash points |
| `types`, `ids`, `bytes`, `text` | shared values, sorted id lists, integers as bytes, numbers as text |

## How contracts are stated

Each type has a mathematical view. `storage::wal_model` describes the log as a value and
each operation as a function from log to log and file operations; the executable
functions are proved to compute exactly those. What holds of several operations
together stands in public proof functions whose names begin with `law_`:
`storage::wal_laws` holds those of the log, such as that reopening the files gives
back what was written.

The library calls outside code in a few places: UTF-8 decoding, decoding messages and
membership changes, and validating the raft core's configuration. Each such call stands
behind a small function marked `external_body`, whose comment says what is claimed of it.
