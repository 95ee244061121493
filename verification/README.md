# omnia_consensus

Consensus logic for a ledger built on a causal graph (a DAG) of events:
event storage and ordering, a BFT finality gadget, state-based CRDTs,
validator slashing with governance undo, and stake-weighted leader election.
The library is written in Verus: each public function carries a `requires` /
`ensures` contract over a mathematical model of its type, and Verus proves
the code against it.

## Layout

- `src/` — the verified library.
  - `causal_graph.rs`: the event DAG: insertion with sequence buffering,
    ancestry, topological order, integrity, finalization, pruning and a
    Merkle state root. Its laws cover ordering, ancestry, soundness under
    insertion and Merkle proofs.
  - `consensus.rs`, `consensus_store.rs`: rounds, witnesses, fame and
    commitment, the round timer, and the snapshot kept for recovery.
  - `slashing.rs`, `slashing_undo.rs`: offenses, penalties, jail terms,
    stores of slashing state and signed governance undos.
  - `event_pool.rs`, `pruning_aware_pool.rs`, `vector_clock_index.rs`:
    slot-based event storage and its creator/sequence index.
  - `crdt.rs`, `or_set.rs`, `lww_register.rs`, `batch_crdt_merge.rs`:
    replicated values, their merge laws and atomic batches of operations.
  - `batch.rs`, `sharded_state.rs`, `thread_pool.rs`, `vrf_election.rs`:
    batching, sharded bookkeeping, validation work and leader election.
  - `ids.rs`, `vec_map.rs`, `bytes_map.rs`, `vector_clock.rs`,
    `map_total.rs`: identifiers and the finite maps the models rest on.
  - `crypto.rs`, `sys.rs`: the calls into hashing, signature, clock and
    entropy crates, each with the contract the library relies on.
- `tests/` — tests run against the compiled library.
- `app/` — ordinary Rust around the library: the redb-backed stores,
  serde records of the library's types, and floating-point views.
