//! Consensus logic for a causal-graph (DAG) based ledger: event storage and
//! ordering, a BFT finality gadget, state-based CRDTs, validator slashing
//! with governance undo, and leader election.

pub mod ids;
pub mod vec_map;
pub mod bytes_map;
pub mod vector_clock;
pub mod crypto;
pub mod sys;
pub mod map_total;
pub mod crdt;
pub mod or_set;
pub mod lww_register;
pub mod batch_crdt_merge;
pub mod event;
pub mod slashing;
pub mod slashing_undo;
pub mod causal_graph;
pub mod event_pool;
pub mod vector_clock_index;
pub mod pruning_aware_pool;
pub mod sharded_state;
pub mod batch;
pub mod thread_pool;
pub mod consensus;
pub mod consensus_store;
pub mod vrf_election;
