//! A small Raft consensus engine meant to run inside a libp2p network
//! behaviour.
//!
//! The crate is organised in layers:
//! - [`raft::engine::RaftEngine`]: a synchronous state machine that reacts to
//!   timer ticks, inbound RPCs and proposals, and answers with [`raft::Action`]s;
//! - [`storage::Storage`]: the durable hard state and log the engine writes
//!   through one atomic `persist` call, with [`storage::MemoryStorage`] as the
//!   in-memory implementation;
//! - [`router::Router`]: the engine together with the network behaviour's
//!   bookkeeping (pending requests, connections, dials and backoffs); the
//!   libp2p host reports network events to it and carries out its
//!   [`router::Command`]s;
//! - [`protocol`]: the RPC messages and the length-prefixed frame they travel in;
//! - [`settings`]: the node's start-up settings read from text.

pub mod behaviour;
pub mod cluster_config;
pub mod config;
pub mod error;
pub mod greeting;
pub mod handler;
pub mod node_identity;
pub mod peer_map;
pub mod protocol;
pub mod raft;
pub mod router;
pub mod settings;
pub mod storage;
pub mod text;

pub use behaviour::Event;
pub use cluster_config::ClusterConfig;
pub use config::{RaftConfig, SeedPeer};
pub use error::{Error, RaftError, StorageError};
pub use raft::types::{EntryType, Index, LogEntry, NodeId, Role, Term};
pub use raft::{Action, RaftEngine, RpcKind, TickOutcome};
pub use router::{Command, Router};
pub use storage::{MemoryStorage, Storage};
