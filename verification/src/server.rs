//! A server's state as it is built from its settings: the store, the
//! replication state and, in cluster mode, the topology with this node in
//! it. Accepting connections and running the background tasks is the
//! application's part.
use vstd::prelude::*;
use crate::cluster::slot::HASH_SLOTS;
use crate::cluster::topology::{assign_parts, ClusterNode, ClusterTopology, NodeView, TopologyView};
use crate::config::{default_settings, ServerConfig};
use crate::replication::state::ReplicationState;
use crate::storage::db::{hash_str, is_pow2, str_hash, Db};
use crate::text::{ascii_text, decimal_string, decimal_text, hex40_string, padded_hex, split_text};

verus! {

/// The identifier of this node: the configured one, else the 40-digit
/// hexadecimal hash of its announced `ip:port`.
pub open spec fn node_id_of(config: ServerConfig) -> Seq<char> {
    match config.cluster_node_id {
        Some(id) => id@,
        None => ascii_text(
            padded_hex(
                str_hash(config.cluster_announce_ip@ + ":"@ + decimal_text(config.cluster_announce_port as nat)) as nat,
                40,
            ),
        ),
    }
}

/// The topology of a node in cluster mode: it knows only itself, as a
/// master, and owns the configured slots (all of them when none are
/// configured; a specification that fails keeps what it assigned before
/// the failure).
pub open spec fn initial_topology(config: ServerConfig) -> TopologyView {
    let id = node_id_of(config);
    let t = bare_topology(config);
    match config.cluster_slots {
        Some(spec) => assign_parts(t, id, split_text(spec@, ',')).0,
        None => t.assign(id, 0, 16383).0,
    }
}

/// The topology of a node in cluster mode before any slot is assigned.
pub open spec fn bare_topology(config: ServerConfig) -> TopologyView {
    let id = node_id_of(config);
    let me = NodeView {
        id,
        ip: config.cluster_announce_ip@,
        port: config.cluster_announce_port,
        bus_port: config.cluster_announce_bus_port,
        is_myself: true,
        is_master: true,
        slots: Seq::empty(),
    };
    TopologyView { nodes: seq![me], slots: Seq::new(HASH_SLOTS as nat, |s: int| None), myself_id: id }
}

/// Why the configured slot specification failed, in cluster mode; the
/// server starts all the same, with the slots assigned before the failure.
pub open spec fn slot_spec_error_text(config: ServerConfig) -> Option<Seq<char>> {
    if config.cluster_enabled {
        match config.cluster_slots {
            Some(spec) => match assign_parts(bare_topology(config), node_id_of(config), split_text(spec@, ',')).1 {
                Err(m) => Some(m),
                Ok(_) => None,
            },
            None => None,
        }
    } else {
        None
    }
}

/// A server's state.
pub struct Server {
    config: ServerConfig,
    db: Db,
    repl_state: ReplicationState,
    cluster: Option<ClusterTopology>,
    slot_error: Option<String>,
}

impl Server {
    /// The settings.
    pub closed spec fn config_spec(&self) -> ServerConfig {
        self.config
    }

    /// The store.
    pub closed spec fn db_spec(&self) -> Db {
        self.db
    }

    /// The replication state.
    pub closed spec fn repl_spec(&self) -> ReplicationState {
        self.repl_state
    }

    /// The topology, in cluster mode.
    pub closed spec fn cluster_spec(&self) -> Option<ClusterTopology> {
        self.cluster
    }

    /// Why the slot specification failed at startup, if it did.
    pub closed spec fn slot_error_spec(&self) -> Option<Seq<char>> {
        match self.slot_error {
            Some(m) => Some(m@),
            None => None,
        }
    }

    /// A server with the default settings on `port`.
    pub fn new(port: u16, repl_state: ReplicationState) -> (r: Self)
        ensures
            r.db_spec().inv(),
            default_settings(r.config_spec(), port),
            r.db_spec()@.shards.len() == 128,
            r.db_spec()@.max_memory == 0,
            r.repl_spec()@ == repl_state@,
            r.cluster_spec() is None,
    {
        let mut config = ServerConfig::default();
        config.port = port;
        let r = Self::with_server_config(config, repl_state);
        proof {
            assert(is_pow2(128)) by {
                reveal_with_fuel(is_pow2, 8);
            }
            crate::storage::db::lemma_pow2_unique(r.db_spec()@.shards.len(), 128);
        }
        r
    }

    /// A server built from its settings: a store with the configured shards
    /// and memory limit and, in cluster mode, this node's topology.
    pub fn with_server_config(config: ServerConfig, repl_state: ReplicationState) -> (r: Self)
        requires
            config.shard_count <= usize::MAX / 2 + 1,
        ensures
            r.db_spec().inv(),
            r.config_spec() == config,
            r.db_spec()@.max_memory == config.max_memory_bytes,
            is_pow2(r.db_spec()@.shards.len()),
            r.db_spec()@.shards.len() >= config.shard_count,
            r.db_spec()@.shards.len() == 1 || r.db_spec()@.shards.len() / 2 < config.shard_count,
            forall|s: int| 0 <= s < r.db_spec()@.shards.len() ==> (#[trigger] r.db_spec()@.shards[s]).len() == 0,
            r.repl_spec()@ == repl_state@,
            config.cluster_enabled ==> (r.cluster_spec() matches Some(t) && t.inv() && t@ == initial_topology(config)),
            !config.cluster_enabled ==> r.cluster_spec() is None,
            r.slot_error_spec() == slot_spec_error_text(config),
    {
        let db = Db::with_config(config.shard_count, config.max_memory_bytes);
        let mut slot_error: Option<String> = None;
        let cluster = if config.cluster_enabled {
            let node_id = match &config.cluster_node_id {
                Some(id) => id.clone(),
                None => {
                    let mut addr = config.cluster_announce_ip.clone();
                    addr.append(":");
                    let p = decimal_string(config.cluster_announce_port as u64);
                    addr.append(p.as_str());
                    hex40_string(hash_str(addr.as_str()))
                },
            };
            let myself = ClusterNode::new(
                node_id.clone(),
                config.cluster_announce_ip.clone(),
                config.cluster_announce_port,
                config.cluster_announce_bus_port,
                true,
                true,
            );
            let mut topo = ClusterTopology::new(myself);
            match &config.cluster_slots {
                Some(spec) => {
                    if let Err(m) = topo.parse_and_assign_slots(node_id.as_str(), spec.as_str()) {
                        slot_error = Some(m);
                    }
                },
                None => {
                    let _ = topo.add_slots_range(node_id.as_str(), 0, 16383);
                },
            }
            Some(topo)
        } else {
            None
        };
        Server { config, db, repl_state, cluster, slot_error }
    }

    /// The store.
    pub fn db(&self) -> (r: &Db)
        ensures
            r == self.db_spec(),
    {
        &self.db
    }

    /// The replication state.
    pub fn repl_state(&self) -> (r: &ReplicationState)
        ensures
            r == self.repl_spec(),
    {
        &self.repl_state
    }

    /// The topology, in cluster mode.
    pub fn cluster_manager(&self) -> (r: Option<&ClusterTopology>)
        ensures
            match self.cluster_spec() {
                Some(t) => r == Some(&t),
                None => r is None,
            },
    {
        match &self.cluster {
            Some(t) => Some(t),
            None => None,
        }
    }

    /// Why the configured slot specification failed at startup, if it did
    /// (the server keeps the slots assigned before the failure).
    pub fn slot_spec_error(&self) -> (r: Option<&String>)
        ensures
            match r {
                Some(m) => self.slot_error_spec() == Some(m@),
                None => self.slot_error_spec() is None,
            },
    {
        match &self.slot_error {
            Some(m) => Some(m),
            None => None,
        }
    }

    /// The settings.
    pub fn config(&self) -> (r: &ServerConfig)
        ensures
            r == self.config_spec(),
    {
        &self.config
    }

    /// The parts of the server, for running it.
    pub fn into_parts(self) -> (r: (ServerConfig, Db, ReplicationState, Option<ClusterTopology>))
        ensures
            r.0 == self.config_spec(),
            r.1 == self.db_spec(),
            r.2 == self.repl_spec(),
            r.3 == self.cluster_spec(),
    {
        (self.config, self.db, self.repl_state, self.cluster)
    }
}

} // verus!
