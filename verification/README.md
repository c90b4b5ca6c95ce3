# rafty

A small [Raft](https://raft.github.io/) implementation in Rust, verified with Verus,
with a swappable RPC layer and a fault injector.

- Leader election with randomized timeouts, and step-down on a higher term.
- PreVote: a node enters a new term only once a quorum has said that it would vote for it.
- Log replication driven by per-peer `next_index` / `match_index`, with the consistency
  check of `AppendEntries`, truncation on conflict, and propagation of the commit index.
- Commitment by majority, of entries of the leader's own term only.
- A `key=value` state machine that every node converges on.
- Pluggable transport through the `RPC` trait, and a fault injector (`FaultyRPC`) that
  wraps any transport.

## Layout

- `src/` is the library. `model` holds the mathematical model of a node; every function of
  `node` states that it does what the model says. `laws` holds laws of a single node.
  `cluster` models nodes that exchange messages over an unreliable network and proves,
  for every run: one leader per term, matching logs, leader completeness, agreement on
  what is committed, convergence of the state machines, and that no term starts before a
  majority has granted its pre-votes for it.
- `app/` is the demo: threads, channels, the clock and logging.
- `tests/` runs the library.

## Running

The demo spins up a 3-node cluster, feeds it one `kN=vN` command per second from a client
thread, and runs a fault injector that cycles through several patterns. Watch the `applied`
events to see all three nodes converge on the same `kv_size`. Set `RUST_LOG` to filter.
