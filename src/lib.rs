//! A MapReduce job: a coordinator hands out map and reduce tasks, workers run
//! the map and reduce functions, and intermediate records are routed to
//! reduce partitions by a deterministic hash of their key.
pub mod codec;
pub mod coordinator;
pub mod keys;
pub mod naming;
pub mod partition;
pub mod shuffle;
pub mod task;
pub mod worker;

pub use coordinator::{Master, TaskService};
pub use worker::{KVPair, Worker};
