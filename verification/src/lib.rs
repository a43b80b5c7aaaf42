//! RustiCache: a Redis-compatible cache engine whose protocol, command,
//! storage, cluster and replication logic is specified and proved with Verus.
pub mod cluster;
pub mod commands;
pub mod config;
pub mod connection;
pub mod protocol;
pub mod replication;
pub mod server;
pub mod storage;
pub mod text;

pub use cluster::{key_slot, ClusterNode, ClusterTopology};
pub use commands::Command;
pub use config::ServerConfig;
pub use protocol::Value;
pub use replication::{ReplicationState, ServerRole};
pub use server::Server;
pub use storage::Db;
