use rusticache::{ReplicationState, Server, ServerConfig};
use std::hash::{DefaultHasher, Hash, Hasher};

#[test]
fn test_default_config() {
    let c = ServerConfig::default();
    assert_eq!(c.host, "0.0.0.0");
    assert_eq!(c.port, 6379);
    assert_eq!(c.shard_count, 128);
    assert_eq!(c.max_payload_size, 512 * 1024 * 1024);
    assert_eq!(c.ttl_interval_ms, 100);
    assert_eq!(c.ttl_sample_size, 20);
    assert_eq!(c.cluster_announce_bus_port, 16379);
    assert!(!c.cluster_enabled);
}

#[test]
fn test_server_without_cluster() {
    let s = Server::new(7777, ReplicationState::new_master(None));
    assert_eq!(s.config().port, 7777);
    assert!(s.cluster_manager().is_none());
    assert_eq!(s.db().memory_used(), 0);
    assert!(!s.repl_state().is_replica());
}

#[test]
fn test_server_cluster_topology() {
    let mut config = ServerConfig::default();
    config.cluster_enabled = true;
    config.cluster_announce_ip = "10.1.1.1".to_string();
    config.cluster_announce_port = 7000;
    config.cluster_announce_bus_port = 17000;
    let s = Server::with_server_config(config, ReplicationState::new_master(None));
    let t = s.cluster_manager().unwrap();
    let mut h = DefaultHasher::new();
    "10.1.1.1:7000".hash(&mut h);
    let id = format!("{:040x}", h.finish());
    assert_eq!(t.myself().unwrap().id, id);
    assert!(t.owns_slot(0) && t.owns_slot(16383));
    assert!(t.format_cluster_info().contains("cluster_state:ok"));

    let mut config2 = ServerConfig::default();
    config2.cluster_enabled = true;
    config2.cluster_node_id = Some("n1".to_string());
    config2.cluster_slots = Some("0-99".to_string());
    let s2 = Server::with_server_config(config2, ReplicationState::new_master(None));
    assert!(s2.slot_spec_error().is_none());
    let (_, _, _, topo) = s2.into_parts();
    let t2 = topo.unwrap();
    assert_eq!(t2.myself().unwrap().id, "n1");
    assert!(t2.owns_slot(99) && !t2.owns_slot(100));
}

#[test]
fn test_server_reports_bad_slot_spec() {
    let mut config = ServerConfig::default();
    config.cluster_enabled = true;
    config.cluster_node_id = Some("n1".to_string());
    config.cluster_slots = Some("0-9,20-x,30".to_string());
    let s = Server::with_server_config(config, ReplicationState::new_master(None));
    assert!(s.slot_spec_error().is_some());
    let t = s.cluster_manager().unwrap();
    assert!(t.owns_slot(9) && !t.owns_slot(20) && !t.owns_slot(30));
    let plain = Server::with_server_config(ServerConfig::default(), ReplicationState::new_master(None));
    assert!(plain.slot_spec_error().is_none());
}

use rusticache::config::{dotenv_entries, replica_target, StartupOptions};

fn options() -> StartupOptions {
    StartupOptions {
        host: "0.0.0.0".to_string(),
        port: 6380,
        tcp_nodelay: true,
        max_connections: 10,
        max_payload_size: 1024,
        requirepass: Some(String::new()),
        masterauth: Some("m".to_string()),
        worker_threads: 0,
        shard_count: 8,
        max_memory_bytes: 0,
        ttl_interval_ms: 100,
        ttl_sample_size: 20,
        replicaof: None,
        replicaof_env: Some("10.0.0.2 7000".to_string()),
        cluster_enabled: false,
        cluster_node_id: None,
        cluster_announce_ip: None,
        cluster_announce_port: None,
        cluster_announce_bus_port: None,
        cluster_slots: None,
    }
}

#[test]
fn test_config_from_options() {
    let c = ServerConfig::from_options(options());
    assert_eq!(c.cluster_announce_ip, "127.0.0.1");
    assert_eq!(c.cluster_announce_port, 6380);
    assert_eq!(c.cluster_announce_bus_port, 16380);
    assert_eq!(c.requirepass, None);
    assert_eq!(c.masterauth, Some("m".to_string()));
    assert_eq!(c.replicaof, Some(("10.0.0.2".to_string(), 7000)));

    let mut o = options();
    o.host = "192.168.1.5".to_string();
    o.cluster_announce_port = Some(60000);
    o.replicaof = Some(vec!["h".to_string(), "notaport".to_string()]);
    let c2 = ServerConfig::from_options(o);
    assert_eq!(c2.cluster_announce_ip, "192.168.1.5");
    assert_eq!(c2.cluster_announce_bus_port, 4464);
    assert_eq!(c2.replicaof, Some(("h".to_string(), 6379)));
}

#[test]
fn test_replica_target_needs_two_words() {
    assert_eq!(replica_target(&None, &Some("onlyhost".to_string())), None);
    assert_eq!(replica_target(&None, &None), None);
    assert_eq!(
        replica_target(&None, &Some("  a\t 1 extra".to_string())),
        Some(("a".to_string(), 1))
    );
}

#[test]
fn test_dotenv_entries() {
    let content = "# comment\n\nKEY=value\r\n  SPACED = \"quoted\" \nNOEQUALS\n=novalue\nSINGLE='x'\nEMPTY=";
    assert_eq!(
        dotenv_entries(content),
        vec![
            ("KEY".to_string(), "value".to_string()),
            ("SPACED".to_string(), "quoted".to_string()),
            ("SINGLE".to_string(), "x".to_string()),
            ("EMPTY".to_string(), "".to_string()),
        ]
    );
}

#[test]
fn test_server_new_uses_default_settings() {
    let s = Server::new(7777, ReplicationState::new_master(None));
    let c = s.config();
    assert_eq!(c.port, 7777);
    assert!(c.requirepass.is_none() && c.masterauth.is_none() && !c.cluster_enabled);
    assert_eq!(c.max_connections, 10000);
    assert_eq!(c.max_payload_size, 512 * 1024 * 1024);
    assert!(s.cluster_manager().is_none());
}
