use rusticache::{key_slot, ClusterNode, ClusterTopology, Command, Db, ReplicationState, Value};
use std::hash::{DefaultHasher, Hash, Hasher};

fn setup_cluster_node() -> (Db, ReplicationState, ClusterTopology) {
    let db = Db::new();
    let repl = ReplicationState::new_master(None);

    let myself = ClusterNode::new(
        "1111111111111111111111111111111111111111".to_string(),
        "127.0.0.1".to_string(),
        7000,
        17000,
        true,
        true,
    );
    let mut topo = ClusterTopology::new(myself);
    topo.add_slots_range("1111111111111111111111111111111111111111", 0, 8191)
        .unwrap();

    let peer = ClusterNode::new(
        "2222222222222222222222222222222222222222".to_string(),
        "127.0.0.1".to_string(),
        7001,
        17001,
        false,
        true,
    );
    topo.add_node(peer);
    topo.add_slots_range("2222222222222222222222222222222222222222", 8192, 16383)
        .unwrap();

    (db, repl, topo)
}

#[test]
fn test_cluster_keyslot_command() {
    let (mut db, mut repl, mut cluster) = setup_cluster_node();
    let mut auth = true;

    let cmd_val = Value::Array(Some(vec![
        Value::string("CLUSTER"),
        Value::string("KEYSLOT"),
        Value::string("{user}:data"),
    ]));
    let cmd = Command::from_value(&cmd_val).unwrap();
    let res = cmd
        .execute(&mut db, &mut repl, None, None, &mut auth, Some(&mut cluster))
        .unwrap();

    let expected_slot = key_slot(b"user");
    assert_eq!(res, Value::Integer(expected_slot as i64));
}

#[test]
fn test_cluster_info_command() {
    let (mut db, mut repl, mut cluster) = setup_cluster_node();
    let mut auth = true;

    let cmd_val = Value::Array(Some(vec![
        Value::string("CLUSTER"),
        Value::string("INFO"),
    ]));
    let cmd = Command::from_value(&cmd_val).unwrap();
    let res = cmd
        .execute(&mut db, &mut repl, None, None, &mut auth, Some(&mut cluster))
        .unwrap();

    let info_str = res.as_str().unwrap();
    assert!(info_str.contains("cluster_state:ok"));
    assert!(info_str.contains("cluster_slots_assigned:16384"));
    assert!(info_str.contains("cluster_slots_ok:16384"));
    assert!(info_str.contains("cluster_known_nodes:2"));
    assert!(info_str.contains("cluster_size:2"));
}

#[test]
fn test_cluster_nodes_command() {
    let (mut db, mut repl, mut cluster) = setup_cluster_node();
    let mut auth = true;

    let cmd_val = Value::Array(Some(vec![
        Value::string("CLUSTER"),
        Value::string("NODES"),
    ]));
    let cmd = Command::from_value(&cmd_val).unwrap();
    let res = cmd
        .execute(&mut db, &mut repl, None, None, &mut auth, Some(&mut cluster))
        .unwrap();

    let nodes_str = res.as_str().unwrap();
    assert!(nodes_str.contains("1111111111111111111111111111111111111111 127.0.0.1:7000@17000 myself,master - 0 0 1 connected 0-8191"));
    assert!(nodes_str.contains("2222222222222222222222222222222222222222 127.0.0.1:7001@17001 master - 0 0 1 connected 8192-16383"));
}

#[test]
fn test_cluster_slots_command() {
    let (mut db, mut repl, mut cluster) = setup_cluster_node();
    let mut auth = true;

    let cmd_val = Value::Array(Some(vec![
        Value::string("CLUSTER"),
        Value::string("SLOTS"),
    ]));
    let cmd = Command::from_value(&cmd_val).unwrap();
    let res = cmd
        .execute(&mut db, &mut repl, None, None, &mut auth, Some(&mut cluster))
        .unwrap();

    match res {
        Value::Array(Some(ranges)) => {
            assert_eq!(ranges.len(), 2);
            // First range: [0, 8191, ["127.0.0.1", 7000, ...]]
            if let Value::Array(Some(first_range)) = &ranges[0] {
                assert_eq!(first_range[0], Value::Integer(0));
                assert_eq!(first_range[1], Value::Integer(8191));
            } else {
                panic!("Expected first range array");
            }

            // Second range: [8192, 16383, ["127.0.0.1", 7001, ...]]
            if let Value::Array(Some(second_range)) = &ranges[1] {
                assert_eq!(second_range[0], Value::Integer(8192));
                assert_eq!(second_range[1], Value::Integer(16383));
            } else {
                panic!("Expected second range array");
            }
        }
        _ => panic!("Expected Value::Array for CLUSTER SLOTS"),
    }
}

#[test]
fn test_cluster_disabled_error() {
    let mut db = Db::new();
    let mut repl = ReplicationState::new_master(None);
    let mut auth = true;

    let cmd_val = Value::Array(Some(vec![
        Value::string("CLUSTER"),
        Value::string("INFO"),
    ]));
    let cmd = Command::from_value(&cmd_val).unwrap();
    let res = cmd
        .execute(&mut db, &mut repl, None, None, &mut auth, None)
        .unwrap();

    assert_eq!(
        res,
        Value::error("ERR This instance has cluster support disabled")
    );
}

fn cluster_cmd(args: &[&str]) -> Command {
    Command::from_value(&Value::Array(Some(args.iter().map(|s| Value::string(s)).collect()))).unwrap()
}

#[test]
fn test_cluster_meet_registers_hashed_node() {
    let (mut db, mut repl, mut cluster) = setup_cluster_node();
    let mut auth = true;
    let cmd = cluster_cmd(&["CLUSTER", "MEET", "10.0.0.9", "7005"]);
    let res = cmd.execute(&mut db, &mut repl, None, None, &mut auth, Some(&mut cluster));
    assert_eq!(res, Some(Value::ok()));

    let mut h = DefaultHasher::new();
    "10.0.0.9:7005".hash(&mut h);
    let id = format!("{:040x}", h.finish());
    let nodes = cluster.format_cluster_nodes();
    let expected = format!("{} 10.0.0.9:7005@17005 master - 0 0 1 connected", id);
    assert!(nodes.contains(&expected), "{}", nodes);
}

#[test]
fn test_cluster_meet_bus_port_wraps() {
    let (mut db, mut repl, mut cluster) = setup_cluster_node();
    let mut auth = true;
    let cmd = cluster_cmd(&["CLUSTER", "MEET", "h", "60000"]);
    cmd.execute(&mut db, &mut repl, None, None, &mut auth, Some(&mut cluster));
    assert!(cluster.format_cluster_nodes().contains("h:60000@4464 "));
}

#[test]
fn test_cluster_addslots_to_myself() {
    let mut db = Db::new();
    let mut repl = ReplicationState::new_master(None);
    let mut auth = true;
    let me = ClusterNode::new("me".to_string(), "127.0.0.1".to_string(), 1, 2, true, true);
    let mut topo = ClusterTopology::new(me);
    let cmd = cluster_cmd(&["CLUSTER", "ADDSLOTS", "5", "6"]);
    assert_eq!(
        cmd.execute(&mut db, &mut repl, None, None, &mut auth, Some(&mut topo)),
        Some(Value::ok())
    );
    assert!(topo.owns_slot(5));
    assert!(topo.owns_slot(6));
    assert!(!topo.owns_slot(7));
    let bad = cluster_cmd(&["CLUSTER", "ADDSLOTS", "7", "16384"]);
    assert_eq!(
        bad.execute(&mut db, &mut repl, None, None, &mut auth, Some(&mut topo)),
        Some(Value::Error("Invalid slot range 16384-16384".to_string()))
    );
    // the slot before the failing one stays assigned
    assert!(topo.owns_slot(7));
}

#[test]
fn test_topology_routing_queries() {
    let (_db, _repl, cluster) = setup_cluster_node();
    assert!(cluster.owns_slot(0));
    assert!(cluster.owns_slot(8191));
    assert!(!cluster.owns_slot(8192));
    let owner = cluster.get_node_for_slot(9000).unwrap();
    assert_eq!(owner.endpoint(), "127.0.0.1:7001");
    assert_eq!(cluster.myself().unwrap().id, "1111111111111111111111111111111111111111");
    let mut empty = ClusterTopology::new(ClusterNode::new("a".to_string(), "x".to_string(), 1, 2, true, true));
    assert!(empty.get_node_for_slot(3).is_none());
    assert_eq!(
        empty.add_slots_range("nope", 1, 2),
        Err("Unknown node id nope".to_string())
    );
    assert_eq!(
        empty.add_slots_range("a", 5, 4),
        Err("Invalid slot range 5-4".to_string())
    );
    assert!(empty.parse_and_assign_slots("a", " 0-2 , ,5").is_ok());
    assert!(empty.owns_slot(1) && empty.owns_slot(5) && !empty.owns_slot(3));
    assert!(empty.parse_and_assign_slots("a", "9-x").is_err());
    assert!(empty.format_cluster_info().contains("cluster_state:fail"));
}

#[test]
fn test_slot_spec_errors() {
    let mut t = ClusterTopology::new(ClusterNode::new("a".to_string(), "x".to_string(), 1, 2, true, true));
    assert_eq!(t.parse_and_assign_slots("a", "9-x"), Err("invalid digit found in string".to_string()));
    assert_eq!(t.parse_and_assign_slots("a", "5-"), Err("cannot parse integer from empty string".to_string()));
    assert_eq!(t.parse_and_assign_slots("a", "70000"), Err("number too large to fit in target type".to_string()));
    assert_eq!(t.parse_and_assign_slots("a", "3-1"), Err("Invalid slot range 3-1".to_string()));
    assert_eq!(t.parse_and_assign_slots("b", "1"), Err("Unknown node id b".to_string()));
    assert_eq!(t.parse_and_assign_slots("a", "+7"), Ok(()));
    assert!(t.owns_slot(7));
}

fn node(id: &str, port: u16, myself: bool) -> ClusterNode {
    ClusterNode::new(id.to_string(), "10.0.0.1".to_string(), port, port + 10000, myself, true)
}

#[test]
fn test_last_assignment_wins() {
    let mut t = ClusterTopology::new(node("a", 7000, true));
    t.add_node(node("b", 7001, false));
    t.add_slots_range("a", 0, 99).unwrap();
    t.add_slots_range("b", 50, 60).unwrap();
    assert!(t.add_slots_range("c", 0, 10).is_err());
    assert!(t.add_slots_range("b", 10, 5).is_err());
    assert_eq!(t.get_node_for_slot(49).unwrap().id, "a");
    assert_eq!(t.get_node_for_slot(55).unwrap().id, "b");
    assert_eq!(t.get_node_for_slot(61).unwrap().id, "a");
    assert!(t.get_node_for_slot(100).is_none());
    assert!(t.owns_slot(49) && !t.owns_slot(55));
    let me = t.myself().unwrap();
    assert_eq!(me.slots, vec![(0, 99)]);
}

#[test]
fn test_slot_spec_is_a_sequence_of_assignments() {
    let mut t = ClusterTopology::new(node("a", 7000, true));
    assert!(t.parse_and_assign_slots("a", "0-9, ,20,30-x,40").is_err());
    assert_eq!(t.myself().unwrap().slots, vec![(0, 9), (20, 20)]);
    assert!(t.owns_slot(20) && !t.owns_slot(40));
}

#[test]
fn test_add_node_counts_and_lines() {
    let mut t = ClusterTopology::new(node("a", 7000, true));
    t.add_node(node("b", 7001, false));
    t.add_node(node("b", 7002, false));
    let info = t.format_cluster_info();
    assert!(info.contains("cluster_known_nodes:2\r\n"));
    assert!(info.contains("cluster_size:2\r\n"));
    assert!(info.contains("cluster_state:fail\r\n"));
    let nodes = t.format_cluster_nodes();
    assert_eq!(nodes.matches("b 10.0.0.1:7002@17002 master").count(), 1);
    assert!(!nodes.contains(":7001@"));
}

#[test]
fn test_cluster_slots_runs_are_maximal() {
    let mut t = ClusterTopology::new(node("a", 7000, true));
    t.add_node(node("b", 7001, false));
    t.add_slots_range("a", 0, 9).unwrap();
    t.add_slots_range("a", 10, 19).unwrap();
    t.add_slots_range("b", 20, 29).unwrap();
    t.add_slots_range("a", 40, 40).unwrap();
    let reply = t.format_cluster_slots();
    let runs = match reply {
        Value::Array(Some(rs)) => rs,
        _ => panic!("CLUSTER SLOTS is an array"),
    };
    let bounds: Vec<(i64, i64)> = runs
        .iter()
        .map(|r| match r {
            Value::Array(Some(e)) => match (&e[0], &e[1]) {
                (Value::Integer(a), Value::Integer(b)) => (*a, *b),
                _ => panic!("run bounds are integers"),
            },
            _ => panic!("a run is an array"),
        })
        .collect();
    assert_eq!(bounds, vec![(0, 19), (20, 29), (40, 40)]);
}

#[test]
fn test_keyslot_follows_hashtags_in_text() {
    let tag_slot = key_slot("user1000".as_bytes());
    assert_eq!(key_slot("é:{user1000}.following".as_bytes()), tag_slot);
    assert_eq!(key_slot("ü{user1000}ß".as_bytes()), tag_slot);
    assert!(key_slot("日本".as_bytes()) < 16384);
}
