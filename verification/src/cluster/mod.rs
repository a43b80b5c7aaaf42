//! Cluster mode: hash-slot computation and the slot-to-node topology.
pub mod slot;
pub mod topology;

pub use slot::{crc16, extract_hashtag, key_slot, HASH_SLOTS};
pub use topology::{ClusterNode, ClusterTopology};
