# RustiCache

A Redis-compatible cache server whose logic is specified and proved with
Verus.

## Layout

- `src/` — the verified library.
  - `protocol/resp.rs`: RESP values, their wire encoding, an incremental
    parser (with the laws that a parse reads back what was encoded, and that
    a proper prefix of a frame is reported as incomplete), and the display
    form of values.
  - `storage/`: the sharded store — entries with expiry, lazy expiry on
    reads, the sampling expiry sweep, and least-recently-used eviction under
    a memory limit, with read-after-write and memory-bound laws.
  - `cluster/`: hash slots (CRC16 with hash tags) and the slot-to-node
    topology with its `CLUSTER INFO`, `NODES` and `SLOTS` renderings.
  - `commands/`: decoding commands from RESP arrays and executing them,
    behind the password gate, with forwarding of writes to replicas.
  - `replication/`: the replication state, the empty snapshot, and the
    replica side of the handshake and command stream.
  - `connection.rs`: what a client connection does with each frame it
    receives, including redirection to the node that owns a key's slot.
  - `server.rs`, `config.rs`: building a server from its settings, and the
    settings from the startup options and a `.env` file.
  - `text.rs`: decimal, hexadecimal and UTF-8 text, and the standard
    library's string functions that the logic calls.
- `app/` — the program around the library: command line, logging, the Tokio
  runtime and the network tasks.
- `tests/` — tests of the library.

## Design notes

- The store's shards and the topology's node list are vectors of
  `(key, entry)` pairs and of nodes, each with the invariant that a key (or
  a node identifier) occurs once. A `std::collections::HashMap` keyed by
  `String` is accepted by Verus here, but none of its operations come with a
  usable specification for such keys (not even that one `insert` into an
  empty map gives a map of one entry), so no contract could be proved over
  it.
- Memory is accounted per entry as its key, its value and a fixed record
  overhead of 72 bytes (`ENTRY_OVERHEAD`).
