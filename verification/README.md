# mini_raft

A Raft node in Rust, verified with Verus: leader election, log replication, a key-value store as
the replicated state machine, length-prefixed framing, and the bookkeeping of connections.

## Layout

- `src/` is the library. A node is a value. Each event is a call, and what the node wants to have
  sent is left in its outbox.
  - `model.rs` says what every event does to a node; `log.rs` how logs are merged; `laws.rs` what
    holds across events.
  - `server.rs`, `follower.rs`, `candidate.rs`, `leader.rs` are the node, `driver.rs` runs it turn
    by turn, `admission.rs` tells which messages it can handle.
  - `codec.rs` has the messages and the framing, `network.rs` the connections, `config.rs` the
    configuration, `state_machine.rs` the store.
  - `buffer.rs` and `timing.rs` hold what is taken on trust from `bytes`, `tokio`, `rand` and the
    standard library.
- `app/` is the program around it: sockets, timers, JSON, configuration files.
- `tests/` runs the library.

## Run

A node reads its configuration from the path after `--config`, else from the one that
`MINI_RAFT_CONFIG` names, else from `config.toml`.
