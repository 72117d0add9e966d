//! Coordination engine of a distributed task-graph scheduler.
//!
//! Clients submit graphs of tasks identified by string keys. The engine keeps
//! every task, worker and client in one store, moves each task through its
//! life cycle as assignments and worker reports arrive, and collects the
//! messages owed to clients, workers and the scheduling policy while one
//! inbound message is processed.

pub mod assignment;
pub mod clientmsg;
pub mod clients;
pub mod collection;
pub mod comm;
pub mod completion;
pub mod descriptor;
pub mod error;
pub mod failure;
pub mod frames;
pub mod ingest;
pub mod loss;
pub mod model;
pub mod notifications;
pub mod order;
pub mod outbound;
pub mod plan;
pub mod scheduler;
pub mod session;
pub mod store;
pub mod task;
pub mod update;
pub mod worker;
pub mod workermsg;
