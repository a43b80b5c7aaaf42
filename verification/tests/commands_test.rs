use rusticache::{Command, Db, ReplicationState, Value};

#[test]
fn test_ping_command() {
    let mut db = Db::new();
    let mut repl = ReplicationState::new_master(None);
    let mut auth = true;

    let ping_val = Value::Array(Some(vec![Value::string("PING")]));
    let cmd = Command::from_value(&ping_val).unwrap();
    let res = cmd.execute(&mut db, &mut repl, None, None, &mut auth, None).unwrap();
    assert_eq!(res, Value::pong());

    let ping_msg = Value::Array(Some(vec![Value::string("PING"), Value::string("hello")]));
    let cmd_msg = Command::from_value(&ping_msg).unwrap();
    let res_msg = cmd_msg.execute(&mut db, &mut repl, None, None, &mut auth, None).unwrap();
    assert_eq!(res_msg, Value::string("hello"));
}

#[test]
fn test_echo_command() {
    let mut db = Db::new();
    let mut repl = ReplicationState::new_master(None);
    let mut auth = true;

    let echo_val = Value::Array(Some(vec![Value::string("ECHO"), Value::string("test message")]));
    let cmd = Command::from_value(&echo_val).unwrap();
    let res = cmd.execute(&mut db, &mut repl, None, None, &mut auth, None).unwrap();
    assert_eq!(res, Value::string("test message"));
}

#[test]
fn test_set_and_get_command() {
    let mut db = Db::new();
    let mut repl = ReplicationState::new_master(None);
    let mut auth = true;

    // SET key value
    let set_val = Value::Array(Some(vec![
        Value::string("SET"),
        Value::string("mykey"),
        Value::string("myval"),
    ]));
    let cmd = Command::from_value(&set_val).unwrap();
    let res = cmd.execute(&mut db, &mut repl, None, None, &mut auth, None).unwrap();
    assert_eq!(res, Value::ok());

    // GET key
    let get_val = Value::Array(Some(vec![Value::string("GET"), Value::string("mykey")]));
    let cmd_get = Command::from_value(&get_val).unwrap();
    let res_get = cmd_get.execute(&mut db, &mut repl, None, None, &mut auth, None).unwrap();
    assert_eq!(res_get, Value::BulkString(Some(b"myval".to_vec())));

    // GET non-existent
    let get_missing = Value::Array(Some(vec![Value::string("GET"), Value::string("missing")]));
    let cmd_missing = Command::from_value(&get_missing).unwrap();
    let res_missing = cmd_missing.execute(&mut db, &mut repl, None, None, &mut auth, None).unwrap();
    assert_eq!(res_missing, Value::null_bulk());
}

#[test]
fn test_info_replication_command() {
    let mut db = Db::new();
    let mut master_repl = ReplicationState::new_master(Some("dummy_replid_12345".to_string()));
    let mut auth = true;

    let info_val = Value::Array(Some(vec![Value::string("INFO"), Value::string("replication")]));
    let cmd = Command::from_value(&info_val).unwrap();
    let res = cmd.execute(&mut db, &mut master_repl, None, None, &mut auth, None).unwrap();

    let info_str = res.as_str().unwrap();
    assert!(info_str.contains("role:master"));
    assert!(info_str.contains("master_replid:dummy_replid_12345"));
    assert!(info_str.contains("connected_slaves:0"));

    // Test replica info output
    let mut replica_repl = ReplicationState::new_replica("127.0.0.1".to_string(), 6379);
    let res_replica = cmd.execute(&mut db, &mut replica_repl, None, None, &mut auth, None).unwrap();
    let replica_str = res_replica.as_str().unwrap();
    assert!(replica_str.contains("role:slave"));
    assert!(replica_str.contains("master_host:127.0.0.1"));
    assert!(replica_str.contains("master_port:6379"));
}

#[test]
fn test_replconf_getack_command() {
    let mut db = Db::new();
    let mut repl = ReplicationState::new_replica("127.0.0.1".to_string(), 6379);
    repl.replica_bytes_processed = 154;
    let mut auth = true;

    let getack_val = Value::Array(Some(vec![
        Value::string("REPLCONF"),
        Value::string("GETACK"),
        Value::string("*"),
    ]));
    let cmd = Command::from_value(&getack_val).unwrap();
    let res = cmd.execute(&mut db, &mut repl, None, None, &mut auth, None).unwrap();

    assert_eq!(
        res,
        Value::Array(Some(vec![
            Value::BulkString(Some(b"REPLCONF".to_vec())),
            Value::BulkString(Some(b"ACK".to_vec())),
            Value::string("154"),
        ]))
    );
}

#[test]
fn test_auth_security() {
    let mut db = Db::new();
    let mut repl = ReplicationState::new_master(None);
    let requirepass = Some("secret123");
    let mut authenticated = false;

    // 1. Unauthenticated SET must fail with NOAUTH
    let set_val = Value::Array(Some(vec![
        Value::string("SET"),
        Value::string("k"),
        Value::string("v"),
    ]));
    let cmd_set = Command::from_value(&set_val).unwrap();
    let res_err = cmd_set.execute(&mut db, &mut repl, None, requirepass, &mut authenticated, None).unwrap();
    assert_eq!(res_err, Value::error("NOAUTH Authentication required."));

    // 2. AUTH with wrong password must fail
    let auth_wrong = Value::Array(Some(vec![
        Value::string("AUTH"),
        Value::string("wrongpass"),
    ]));
    let cmd_auth_wrong = Command::from_value(&auth_wrong).unwrap();
    let res_wrong = cmd_auth_wrong.execute(&mut db, &mut repl, None, requirepass, &mut authenticated, None).unwrap();
    assert_eq!(res_wrong, Value::error("WRONGPASS invalid username-password pair or user is disabled."));
    assert!(!authenticated);

    // 3. AUTH with correct password succeeds
    let auth_correct = Value::Array(Some(vec![
        Value::string("AUTH"),
        Value::string("secret123"),
    ]));
    let cmd_auth_ok = Command::from_value(&auth_correct).unwrap();
    let res_ok = cmd_auth_ok.execute(&mut db, &mut repl, None, requirepass, &mut authenticated, None).unwrap();
    assert_eq!(res_ok, Value::ok());
    assert!(authenticated);

    // 4. Now SET succeeds
    let res_set_ok = cmd_set.execute(&mut db, &mut repl, None, requirepass, &mut authenticated, None).unwrap();
    assert_eq!(res_set_ok, Value::ok());
}

fn array(items: &[&str]) -> Value {
    Value::Array(Some(items.iter().map(|s| Value::string(s)).collect()))
}

fn run(cmd: &[&str], db: &mut Db, repl: &mut ReplicationState) -> Option<Value> {
    let mut auth = true;
    let c = Command::from_value(&array(cmd)).unwrap();
    c.execute(db, repl, None, None, &mut auth, None)
}

#[test]
fn test_from_value_errors() {
    assert_eq!(
        Command::from_value(&Value::Integer(1)).unwrap_err(),
        "Expected Array frame for Redis command"
    );
    assert_eq!(Command::from_value(&Value::Array(Some(vec![]))).unwrap_err(), "Empty command array");
    assert_eq!(
        Command::from_value(&Value::Array(Some(vec![Value::Integer(3)]))).unwrap_err(),
        "First element must be string command name"
    );
    assert_eq!(Command::from_value(&array(&["FLY"])).unwrap_err(), "unknown command 'FLY'");
    assert_eq!(Command::from_value(&array(&["fly"])).unwrap_err(), "unknown command 'FLY'");
    assert_eq!(
        Command::from_value(&array(&["ECHO"])).unwrap_err(),
        "ERR wrong number of arguments for 'echo' command"
    );
    assert_eq!(
        Command::from_value(&array(&["GET"])).unwrap_err(),
        "ERR wrong number of arguments for 'get' command"
    );
    assert_eq!(
        Command::from_value(&array(&["SET", "k"])).unwrap_err(),
        "ERR wrong number of arguments for 'set' command"
    );
    assert_eq!(
        Command::from_value(&array(&["DEL"])).unwrap_err(),
        "ERR wrong number of arguments for 'del' command"
    );
    assert_eq!(
        Command::from_value(&array(&["EXISTS"])).unwrap_err(),
        "ERR wrong number of arguments for 'exists' command"
    );
    assert_eq!(
        Command::from_value(&array(&["AUTH"])).unwrap_err(),
        "ERR wrong number of arguments for 'auth' command"
    );
    assert_eq!(
        Command::from_value(&Value::Array(Some(vec![Value::string("GET"), Value::Integer(1)]))).unwrap_err(),
        "Key must be string"
    );
    assert_eq!(
        Command::from_value(&array(&["CLUSTER"])).unwrap_err(),
        "ERR wrong number of arguments for 'cluster' command"
    );
    assert_eq!(
        Command::from_value(&array(&["CLUSTER", "BOGUS"])).unwrap_err(),
        "ERR unknown cluster subcommand 'BOGUS'"
    );
    assert_eq!(
        Command::from_value(&array(&["CLUSTER", "MEET", "1.2.3.4", "x"])).unwrap_err(),
        "Invalid port for 'cluster meet'"
    );
    assert_eq!(
        Command::from_value(&array(&["CLUSTER", "ADDSLOTS", "1", "70000"])).unwrap_err(),
        "Invalid slot integer"
    );
    assert_eq!(
        Command::from_value(&Value::Array(Some(vec![Value::string("CLUSTER"), Value::Integer(2)]))).unwrap_err(),
        "Subcommand must be string"
    );
}

#[test]
fn test_command_name_case_insensitive() {
    let mut db = Db::new();
    let mut repl = ReplicationState::new_master(None);
    assert_eq!(run(&["pInG"], &mut db, &mut repl), Some(Value::pong()));
    assert_eq!(run(&["set", "a", "1"], &mut db, &mut repl), Some(Value::ok()));
    assert_eq!(run(&["Get", "a"], &mut db, &mut repl), Some(Value::BulkString(Some(b"1".to_vec()))));
}

#[test]
fn test_set_px_and_expiry() {
    let mut db = Db::new();
    let mut repl = ReplicationState::new_master(None);
    let mut auth = true;
    let c = Command::from_value(&array(&["SET", "t", "v", "px", "1000"])).unwrap();
    let now = 5;
    assert_eq!(c.execute_at(&mut db, &mut repl, None, None, &mut auth, None, now), Some(Value::ok()));
    assert_eq!(db.get_at("t", now + 999_999_999), Some(b"v".to_vec()));
    assert_eq!(db.get_at("t", now + 1_000_000_000), None);
    // a later PX that is not a number unsets the expiry
    let c2 = Command::from_value(&array(&["SET", "u", "v", "PX", "10", "PX", "soon"])).unwrap();
    assert_eq!(c2.execute_at(&mut db, &mut repl, None, None, &mut auth, None, 0), Some(Value::ok()));
    assert_eq!(db.get_at("u", u64::MAX), Some(b"v".to_vec()));
    // a deadline beyond the clock's range is held at its end
    let c3 = Command::from_value(&array(&["SET", "w", "v", "PX", "18446744073709551615"])).unwrap();
    assert_eq!(c3.execute_at(&mut db, &mut repl, None, None, &mut auth, None, 7), Some(Value::ok()));
    assert_eq!(db.get_at("w", u64::MAX - 1), Some(b"v".to_vec()));
    assert_eq!(db.get_at("w", u64::MAX), None);
}

#[test]
fn test_del_exists_keys_counts() {
    let mut db = Db::new();
    let mut repl = ReplicationState::new_master(None);
    run(&["SET", "a", "1"], &mut db, &mut repl);
    run(&["SET", "b", "2"], &mut db, &mut repl);
    assert_eq!(run(&["EXISTS", "a", "b", "c", "a"], &mut db, &mut repl), Some(Value::Integer(3)));
    match run(&["KEYS", "*"], &mut db, &mut repl) {
        Some(Value::Array(Some(items))) => assert_eq!(items.len(), 2),
        other => panic!("unexpected {:?}", other),
    }
    assert_eq!(run(&["DEL", "a", "c", "a"], &mut db, &mut repl), Some(Value::Integer(1)));
    assert_eq!(run(&["EXISTS", "a"], &mut db, &mut repl), Some(Value::Integer(0)));
}

#[test]
fn test_replconf_and_psync_replies() {
    let mut db = Db::new();
    let mut repl = ReplicationState::new_master(Some("abc".to_string()));
    assert_eq!(run(&["REPLCONF", "ack", "10"], &mut db, &mut repl), None);
    assert_eq!(run(&["REPLCONF", "listening-port", "1"], &mut db, &mut repl), Some(Value::ok()));
    assert_eq!(run(&["REPLCONF"], &mut db, &mut repl), Some(Value::error("ERR REPLCONF requires arguments")));
    assert_eq!(
        run(&["PSYNC", "?", "-1"], &mut db, &mut repl),
        Some(Value::SimpleString("FULLRESYNC abc 0".to_string()))
    );
    assert_eq!(run(&["COMMAND"], &mut db, &mut repl), Some(Value::Array(Some(vec![]))));
    assert_eq!(run(&["QUIT"], &mut db, &mut repl), Some(Value::ok()));
}

#[test]
fn test_unauthenticated_changes_nothing() {
    let mut db = Db::new();
    let mut repl = ReplicationState::new_master(None);
    let mut authed = false;
    let c = Command::from_value(&array(&["SET", "k", "v"])).unwrap();
    let r = c.execute(&mut db, &mut repl, Some(&b"raw"[..]), Some("pw"), &mut authed, None);
    assert_eq!(r, Some(Value::error("NOAUTH Authentication required.")));
    assert_eq!(db.memory_used(), 0);
    assert_eq!(repl.master_repl_offset, 0);
    let q = Command::from_value(&array(&["QUIT"])).unwrap();
    assert_eq!(q.execute(&mut db, &mut repl, None, Some("pw"), &mut authed, None), Some(Value::ok()));
    assert!(!authed);
}

#[test]
fn test_master_forwards_writes_replica_does_not() {
    let mut db = Db::new();
    let mut master = ReplicationState::new_master(None);
    let mut auth = true;
    let raw = b"*3\r\n$3\r\nSET\r\n$1\r\nk\r\n$1\r\nv\r\n";
    let c = Command::from_value(&array(&["SET", "k", "v"])).unwrap();
    c.execute(&mut db, &mut master, Some(&raw[..]), None, &mut auth, None);
    assert_eq!(master.master_repl_offset, raw.len() as u64);
    // a DEL that removes nothing is not forwarded
    let d = Command::from_value(&array(&["DEL", "zz"])).unwrap();
    d.execute(&mut db, &mut master, Some(&b"xyz"[..]), None, &mut auth, None);
    assert_eq!(master.master_repl_offset, raw.len() as u64);

    let mut replica = ReplicationState::new_replica("h".to_string(), 1);
    c.execute(&mut db, &mut replica, Some(&raw[..]), None, &mut auth, None);
    assert_eq!(replica.master_repl_offset, 0);
}

#[test]
fn test_target_key() {
    let c = Command::from_value(&array(&["DEL", "x", "y"])).unwrap();
    assert_eq!(c.target_key(), Some("x"));
    let p = Command::from_value(&array(&["PING"])).unwrap();
    assert_eq!(p.target_key(), None);
    let s = Command::from_value(&array(&["SET", "k", "v"])).unwrap();
    assert_eq!(s.target_key(), Some("k"));
}

#[test]
fn test_fits_for_set() {
    let db = Db::new();
    let c = Command::from_value(&array(&["SET", "k", "v"])).unwrap();
    assert!(c.fits(&db));
    let p = Command::from_value(&array(&["PING"])).unwrap();
    assert!(p.fits(&db));
}

#[test]
fn test_held_at_gate() {
    let set = Command::SetValue { key: "k".to_string(), value: b"v".to_vec(), px_ms: None };
    assert!(set.held_at_gate(Some("pw"), false));
    assert!(!set.held_at_gate(Some("pw"), true));
    assert!(!set.held_at_gate(None, false));
}
