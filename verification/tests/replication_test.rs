use rusticache::commands::Command;
use rusticache::connection::{next_client_frame, ClientFrame};
use rusticache::replication::rdb::{get_empty_rdb_bytes, EMPTY_RDB_HEX};
use rusticache::replication::replica::{
    ack_reply, acknowledge, next_stage, stage_request, HandshakeStage, apply_replicated, auth_request, capa_request, listening_port_request,
    ping_request, psync_request, replica_frame, simple_reply_len, take_fullresync, take_rdb_header,
    RdbHeader, ReplicaFrame,
};
use rusticache::replication::state::keep_accepted;
use rusticache::{Db, ReplicationState, ServerRole};

#[test]
fn test_new_master_and_replica() {
    let m = ReplicationState::new_master(None);
    assert_eq!(m.get_replid(), "8371b4fb1155b71f4a04d3e1bc3e18c4a990aeeb");
    assert!(!m.is_replica());
    assert_eq!(m.role, ServerRole::Master);
    let r = ReplicationState::new_replica("10.0.0.1".to_string(), 7000);
    assert!(r.is_replica());
    assert_eq!(r.get_replid(), "?");
    assert_eq!(
        r.role,
        ServerRole::Replica { master_host: "10.0.0.1".to_string(), master_port: 7000 }
    );
}

#[test]
fn test_set_replid() {
    let mut m = ReplicationState::new_master(Some("a".to_string()));
    m.set_replid("b".to_string());
    assert_eq!(m.get_replid(), "b");
}

#[test]
fn test_info_replication_exact() {
    let m = ReplicationState::new_master(Some("id1".to_string()));
    assert_eq!(
        m.info_replication(),
        "# Replication\r\nrole:master\r\nconnected_slaves:0\r\nmaster_replid:id1\r\nmaster_repl_offset:0\r\nsecond_repl_offset:-1\r\nrepl_backlog_active:0\r\n"
    );
    let mut r = ReplicationState::new_replica("h".to_string(), 9);
    r.replica_bytes_processed = 12;
    assert_eq!(
        r.info_replication(),
        "# Replication\r\nrole:slave\r\nmaster_host:h\r\nmaster_port:9\r\nmaster_link_status:up\r\nmaster_last_io_seconds_ago:0\r\nmaster_sync_in_progress:0\r\nslave_repl_offset:12\r\nslave_priority:100\r\nslave_read_only:1\r\nconnected_slaves:0\r\nmaster_replid:?\r\n"
    );
}

#[test]
fn test_propagate_drops_closed_replicas() {
    let mut m = ReplicationState::new_master(None);
    let (tx1, mut rx1) = tokio::sync::mpsc::unbounded_channel::<Vec<u8>>();
    let (tx2, rx2) = tokio::sync::mpsc::unbounded_channel::<Vec<u8>>();
    m.register_downstream(tx1);
    m.register_downstream(tx2);
    assert_eq!(m.connected_replicas, 2);
    drop(rx2);
    m.propagate_downstream(b"abc");
    assert_eq!(m.master_repl_offset, 3);
    assert_eq!(m.downstream_senders.len(), 1);
    assert_eq!(rx1.try_recv().unwrap(), b"abc".to_vec());
    m.propagate_downstream(b"de");
    assert_eq!(m.master_repl_offset, 5);
    assert_eq!(rx1.try_recv().unwrap(), b"de".to_vec());
}

#[test]
fn test_keep_accepted_in_order() {
    let kept = keep_accepted(vec![1u8, 2, 3, 4, 5], &vec![true, false, true, true, false]);
    assert_eq!(kept, vec![1, 3, 4]);
    let none: Vec<u8> = keep_accepted(vec![7u8, 8], &vec![false, false]);
    assert!(none.is_empty());
    let empty: Vec<u8> = keep_accepted(Vec::new(), &Vec::new());
    assert!(empty.is_empty());
}

#[test]
fn test_propagate_keeps_open_replicas_in_order() {
    let mut m = ReplicationState::new_master(None);
    let (tx1, mut rx1) = tokio::sync::mpsc::unbounded_channel::<Vec<u8>>();
    let (tx2, rx2) = tokio::sync::mpsc::unbounded_channel::<Vec<u8>>();
    let (tx3, mut rx3) = tokio::sync::mpsc::unbounded_channel::<Vec<u8>>();
    m.register_downstream(tx1);
    m.register_downstream(tx2);
    m.register_downstream(tx3);
    drop(rx2);
    m.propagate_downstream(b"*1\r\n$4\r\nPING\r\n");
    assert_eq!(m.downstream_senders.len(), 2);
    assert_eq!(rx1.try_recv().unwrap(), b"*1\r\n$4\r\nPING\r\n".to_vec());
    assert_eq!(rx3.try_recv().unwrap(), b"*1\r\n$4\r\nPING\r\n".to_vec());
    drop(rx1);
    m.propagate_downstream(b"x");
    assert_eq!(m.downstream_senders.len(), 1);
    assert_eq!(rx3.try_recv().unwrap(), b"x".to_vec());
    assert_eq!(m.master_repl_offset, 15);
}

#[test]
fn test_empty_rdb_bytes() {
    let rdb = get_empty_rdb_bytes();
    assert_eq!(rdb.len(), EMPTY_RDB_HEX.len() / 2);
    assert_eq!(&rdb[..9], b"REDIS0011");
    assert_eq!(rdb[9], 0xfa);
    assert_eq!(*rdb.last().unwrap(), 0x16);
}

#[test]
fn test_handshake_requests() {
    assert_eq!(ping_request(), b"*1\r\n$4\r\nPING\r\n".to_vec());
    assert_eq!(auth_request("pw"), b"*2\r\n$4\r\nAUTH\r\n$2\r\npw\r\n".to_vec());
    assert_eq!(
        listening_port_request(6380),
        b"*3\r\n$8\r\nREPLCONF\r\n$14\r\nlistening-port\r\n$4\r\n6380\r\n".to_vec()
    );
    assert_eq!(
        capa_request(),
        b"*5\r\n$8\r\nREPLCONF\r\n$4\r\ncapa\r\n$3\r\neof\r\n$4\r\ncapa\r\n$6\r\npsync2\r\n".to_vec()
    );
    assert_eq!(psync_request(), b"*3\r\n$5\r\nPSYNC\r\n$1\r\n?\r\n$2\r\n-1\r\n".to_vec());
    assert_eq!(ack_reply(154), b"*3\r\n$8\r\nREPLCONF\r\n$3\r\nACK\r\n$3\r\n154\r\n".to_vec());
}

#[test]
fn test_simple_reply_len() {
    assert_eq!(simple_reply_len(b"+PONG\r\nrest"), Some(7));
    assert_eq!(simple_reply_len(b"+PON"), None);
}

#[test]
fn test_take_fullresync() {
    let mut r = ReplicationState::new_replica("h".to_string(), 1);
    assert!(take_fullresync(b"+FULLRESYNC abc", &mut r).is_none());
    let got = take_fullresync(b"+FULLRESYNC abc 0\r\n$88", &mut r).unwrap();
    assert_eq!(got.0, 19);
    assert!(got.1.is_ok());
    assert_eq!(r.get_replid(), "abc");
    let short = take_fullresync(b"+FULLRESYNC\r\n", &mut r).unwrap();
    assert!(short.1.is_ok());
    assert_eq!(r.get_replid(), "abc");
    let bad = take_fullresync(b"-ERR no\r\n", &mut r).unwrap();
    assert_eq!(bad.1, Err("Expected +FULLRESYNC, got: -ERR no".to_string()));
    let invalid = take_fullresync(b"\xff\r\n", &mut r).unwrap();
    assert!(invalid.1.is_err());
}

#[test]
fn test_take_rdb_header() {
    match take_rdb_header(b"$88\r\nREDIS") {
        RdbHeader::Ready { header_len, payload_len } => {
            assert_eq!(header_len, 5);
            assert_eq!(payload_len, 88);
        }
        _ => panic!("expected header"),
    }
    assert!(matches!(take_rdb_header(b"$8"), RdbHeader::NeedMore));
    assert!(matches!(take_rdb_header(b"+x\r\n"), RdbHeader::NeedMore));
    assert!(matches!(take_rdb_header(b""), RdbHeader::NeedMore));
    match take_rdb_header(b"$x\r\n") {
        RdbHeader::Invalid(m) => assert_eq!(m, "Invalid RDB length"),
        _ => panic!("expected invalid"),
    }
}

#[test]
fn test_replica_stream_frames() {
    let getack = b"*3\r\n$8\r\nREPLCONF\r\n$6\r\nGETACK\r\n$1\r\n*\r\n";
    match replica_frame(getack) {
        ReplicaFrame::GetAck(n) => assert_eq!(n, getack.len()),
        _ => panic!("expected GETACK"),
    }
    let set = b"*3\r\n$3\r\nSET\r\n$1\r\na\r\n$1\r\nb\r\n";
    let cmd = match replica_frame(set) {
        ReplicaFrame::Apply(cmd, n) => {
            assert_eq!(n, set.len());
            cmd
        }
        _ => panic!("expected a command"),
    };
    assert!(matches!(replica_frame(&set[..5]), ReplicaFrame::NeedMore));
    assert!(matches!(replica_frame(b"?"), ReplicaFrame::Corrupt));
    assert!(matches!(replica_frame(b"*1\r\n$4\r\nNOPE\r\n"), ReplicaFrame::Skip(14)));
    assert!(matches!(
        replica_frame(b"*2\r\n$8\r\nREPLCONF\r\n$3\r\nACK\r\n"),
        ReplicaFrame::Skip(_)
    ));

    let mut db = Db::new();
    let mut repl = ReplicationState::new_replica("h".to_string(), 1);
    apply_replicated(&cmd, &mut db, &mut repl, set.len(), 0);
    assert_eq!(db.get_at("a", 1), Some(b"b".to_vec()));
    assert_eq!(repl.replica_bytes_processed, set.len() as u64);
    let ack = acknowledge(&mut repl, getack.len());
    let total = (set.len() + getack.len()) as u64;
    assert_eq!(repl.replica_bytes_processed, total);
    assert_eq!(ack, ack_reply(total));
    let _unused: Option<Command> = None;
}

#[test]
fn test_record_processed_wraps() {
    let mut r = ReplicationState::new_replica("h".to_string(), 1);
    r.replica_bytes_processed = u64::MAX;
    assert_eq!(r.record_processed(2), 1);
}

#[test]
fn test_replica_reads_forwarded_command() {
    let mut input = b"*3\r\n$3\r\nSET\r\n$3\r\nkey\r\n$5\r\nvalue\r\n*1\r\n$4\r\nPING\r\n".to_vec();
    let raw = match next_client_frame(&mut input) {
        ClientFrame::Request(_, raw) => raw,
        _ => panic!("expected a command"),
    };
    match replica_frame(&raw) {
        ReplicaFrame::Apply(cmd, n) => {
            assert_eq!(n, raw.len());
            assert_eq!(cmd.target_key(), Some("key"));
        }
        _ => panic!("expected the forwarded command"),
    }
}

#[test]
fn test_handshake_stage_order() {
    let mut stages = vec![HandshakeStage::Ping];
    let mut s = HandshakeStage::Ping;
    while s != HandshakeStage::Snapshot {
        s = next_stage(s, true);
        stages.push(s);
    }
    assert_eq!(
        stages,
        vec![
            HandshakeStage::Ping,
            HandshakeStage::Auth,
            HandshakeStage::ListeningPort,
            HandshakeStage::Capa,
            HandshakeStage::Psync,
            HandshakeStage::Snapshot
        ]
    );
    assert_eq!(next_stage(HandshakeStage::Ping, false), HandshakeStage::ListeningPort);
    assert_eq!(next_stage(HandshakeStage::Snapshot, false), HandshakeStage::Snapshot);
}

#[test]
fn test_handshake_stage_requests() {
    assert_eq!(stage_request(HandshakeStage::Ping, 6380, None).unwrap(), b"*1\r\n$4\r\nPING\r\n".to_vec());
    assert_eq!(
        stage_request(HandshakeStage::Auth, 6380, Some("pw")).unwrap(),
        b"*2\r\n$4\r\nAUTH\r\n$2\r\npw\r\n".to_vec()
    );
    assert!(stage_request(HandshakeStage::Auth, 6380, None).is_none());
    assert_eq!(
        stage_request(HandshakeStage::ListeningPort, 6380, None).unwrap(),
        b"*3\r\n$8\r\nREPLCONF\r\n$14\r\nlistening-port\r\n$4\r\n6380\r\n".to_vec()
    );
    assert_eq!(
        stage_request(HandshakeStage::Psync, 1, None).unwrap(),
        b"*3\r\n$5\r\nPSYNC\r\n$1\r\n?\r\n$2\r\n-1\r\n".to_vec()
    );
    assert!(stage_request(HandshakeStage::Snapshot, 1, None).is_none());
}
