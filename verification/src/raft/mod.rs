//! The Raft state machine, its log helpers and its membership.

pub mod engine;
pub mod laws;
pub mod log;
pub mod membership;
pub mod model;
pub mod types;

pub use engine::{Action, RaftEngine, RpcKind, TickOutcome};
pub use types::{HardState, Index, LogEntry, NodeId, Role, Snapshot, Term};
