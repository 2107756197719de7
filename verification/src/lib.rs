//! A Raft node: the consensus state machine (leader election and log
//! replication), its RPC messages, and the key-value store it replicates.
pub mod clock;
pub mod consensus;
pub mod kv;
pub mod laws;
pub mod messages;
pub mod model;
pub mod node;
pub mod server;
pub mod sm;
