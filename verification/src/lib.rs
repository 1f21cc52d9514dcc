//! Verified state-based CRDTs and the pieces of their synchronization protocols.

pub mod bloom;
pub mod crdt;
pub mod datum;
pub mod delta;
mod random;
pub mod rateless_bloom;
pub mod replicas;
pub mod replication;
pub mod sync;
pub mod telemetry;
pub mod tracker;
