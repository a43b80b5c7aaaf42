//! Master/replica replication: the shared replication state, the empty
//! snapshot a master sends, and the replica side of the handshake and
//! command stream.
pub mod rdb;
pub mod replica;
pub mod state;

pub use state::{ReplicationState, ServerRole};
