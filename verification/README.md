# libp2p-raft

A Raft consensus engine that runs inside a libp2p network behaviour, with its
logic proved by Verus.

## Layout

- `src/` — the verified library.
  - `raft/` — the engine (`RaftEngine`), a synchronous state machine driven by
    ticks, inbound messages and proposals; `model.rs` states what each step does
    as spec functions, `laws.rs` proves properties that span steps.
  - `storage/` — the `Storage` trait and `MemoryStorage`.
  - `router/` — the engine together with the network behaviour's bookkeeping:
    pending requests and their correlation ids, connections, dials and
    backoffs. The host reports network events; the router queues `Command`s.
  - `protocol/` — the RPC messages and their length-prefixed frame.
  - `peer_map.rs`, `node_identity.rs`, `cluster_config.rs`, `settings.rs` —
    node ids and peer ids, deterministic node keys, the static topology and the
    start-up settings read from text.
  - `greeting.rs` — when the demo node proposes its one greeting.
- `app/` — the `raft-node` program: the libp2p `NetworkBehaviour` and
  `ConnectionHandler` (streams, timers, the clock), serde/bincode encoding,
  TOML loading and the environment.
- `tests/` — tests of the library.

Time is a count of milliseconds supplied by the host, read from a clock that
never goes back; an engine or router made with `new` counts from its creation.
