use rusticache::connection::{
    next_client_frame, payload_exceeded, serve_command, ClientAction, ClientFrame,
};
use rusticache::replication::rdb::get_empty_rdb_bytes;
use rusticache::{ClusterNode, ClusterTopology, Db, ReplicationState};

fn request(buf: &mut Vec<u8>) -> (rusticache::Command, Vec<u8>) {
    match next_client_frame(buf) {
        ClientFrame::Request(c, raw) => (c, raw),
        _ => panic!("expected a command"),
    }
}

#[test]
fn test_payload_bound() {
    assert_eq!(payload_exceeded(10, 10), None);
    assert_eq!(
        payload_exceeded(11, 10),
        Some(b"-ERR ERR max payload size exceeded\r\n".to_vec())
    );
}

#[test]
fn test_client_frames() {
    let mut buf = b"*1\r\n$4\r\nPING\r\n*1\r\n$4\r\nPI".to_vec();
    let (_, raw) = request(&mut buf);
    assert_eq!(raw, b"*1\r\n$4\r\nPING\r\n".to_vec());
    assert_eq!(buf, b"*1\r\n$4\r\nPI".to_vec());
    assert!(matches!(next_client_frame(&mut buf), ClientFrame::NeedMore));
    assert_eq!(buf.len(), 10);

    let mut unknown = b"*1\r\n$3\r\nFOO\r\n".to_vec();
    match next_client_frame(&mut unknown) {
        ClientFrame::Refused(b) => assert_eq!(b, b"-ERR unknown command 'FOO'\r\n".to_vec()),
        _ => panic!("expected refusal"),
    }
    assert!(unknown.is_empty());

    let mut garbage = b"!!\r\n".to_vec();
    match next_client_frame(&mut garbage) {
        ClientFrame::ProtocolError(e, b) => {
            assert_eq!(e.message(), "Unknown RESP prefix byte: 33");
            assert_eq!(b, b"-ERR ERR protocol error: Unknown RESP prefix byte: 33\r\n".to_vec());
        }
        _ => panic!("expected protocol error"),
    }
    assert!(garbage.is_empty());
}

#[test]
fn test_serve_quit_and_psync() {
    let mut db = Db::new();
    let mut repl = ReplicationState::new_master(Some("rid".to_string()));
    let mut auth = true;
    let mut buf = b"*1\r\n$4\r\nQUIT\r\n".to_vec();
    let (quit, raw) = request(&mut buf);
    match serve_command(&quit, &raw, &mut db, &mut repl, None, &mut auth, None, 0) {
        ClientAction::Close(b) => assert_eq!(b, b"+OK\r\n".to_vec()),
        _ => panic!("expected close"),
    }
    let mut buf = b"*3\r\n$5\r\nPSYNC\r\n$1\r\n?\r\n$2\r\n-1\r\n".to_vec();
    let (psync, raw) = request(&mut buf);
    let rdb = get_empty_rdb_bytes();
    let mut expected = format!("+FULLRESYNC rid 0\r\n${}\r\n", rdb.len()).into_bytes();
    expected.extend_from_slice(&rdb);
    match serve_command(&psync, &raw, &mut db, &mut repl, Some("pw"), &mut false, None, 0) {
        ClientAction::AttachReplica(b) => assert_eq!(b, expected),
        _ => panic!("expected replica attachment"),
    }
}

#[test]
fn test_serve_executes_and_forwards() {
    let mut db = Db::new();
    let mut repl = ReplicationState::new_master(None);
    let mut auth = true;
    let mut buf = b"*3\r\n$3\r\nSET\r\n$1\r\nk\r\n$1\r\nv\r\n".to_vec();
    let (set, raw) = request(&mut buf);
    match serve_command(&set, &raw, &mut db, &mut repl, None, &mut auth, None, 0) {
        ClientAction::Reply(b) => assert_eq!(b, b"+OK\r\n".to_vec()),
        _ => panic!("expected reply"),
    }
    assert_eq!(repl.master_repl_offset, raw.len() as u64);
    let mut buf = b"*3\r\n$8\r\nREPLCONF\r\n$3\r\nACK\r\n$1\r\n0\r\n".to_vec();
    let (ack, raw) = request(&mut buf);
    assert!(matches!(
        serve_command(&ack, &raw, &mut db, &mut repl, None, &mut auth, None, 0),
        ClientAction::Silent
    ));
}

#[test]
fn test_cluster_redirection() {
    let mut db = Db::new();
    let mut repl = ReplicationState::new_master(None);
    let me = ClusterNode::new("a".to_string(), "127.0.0.1".to_string(), 7000, 17000, true, true);
    let mut topo = ClusterTopology::new(me);
    topo.add_slots_range("a", 0, 8191).unwrap();
    topo.add_node(ClusterNode::new("b".to_string(), "127.0.0.1".to_string(), 7001, 17001, false, true));
    topo.add_slots_range("b", 8192, 16383).unwrap();
    let slot = rusticache::key_slot(b"foo");
    assert_eq!(slot, 12182);
    let mut auth = true;
    let mut buf = b"*2\r\n$3\r\nGET\r\n$3\r\nfoo\r\n".to_vec();
    let (get, raw) = request(&mut buf);
    match serve_command(&get, &raw, &mut db, &mut repl, None, &mut auth, Some(&mut topo), 0) {
        ClientAction::Reply(b) => assert_eq!(b, b"-MOVED 12182 127.0.0.1:7001\r\n".to_vec()),
        _ => panic!("expected redirection"),
    }
    // a key in this node's slots is served here
    let mut buf = b"*2\r\n$3\r\nGET\r\n$3\r\nbar\r\n".to_vec();
    let (get_a, raw_a) = request(&mut buf);
    assert!(rusticache::key_slot(b"bar") < 8192);
    match serve_command(&get_a, &raw_a, &mut db, &mut repl, None, &mut auth, Some(&mut topo), 0) {
        ClientAction::Reply(b) => assert_eq!(b, b"$-1\r\n".to_vec()),
        _ => panic!("expected reply"),
    }
    // a slot with no owner is reported as a cluster outage
    let mut alone = ClusterTopology::new(ClusterNode::new("c".to_string(), "h".to_string(), 1, 2, true, true));
    match serve_command(&get, &raw, &mut db, &mut repl, None, &mut auth, Some(&mut alone), 0) {
        ClientAction::Reply(b) => assert_eq!(b, b"-CLUSTERDOWN The cluster is down\r\n".to_vec()),
        _ => panic!("expected outage"),
    }
    // unauthenticated clients are not redirected
    let mut unauth = false;
    match serve_command(&get, &raw, &mut db, &mut repl, Some("pw"), &mut unauth, Some(&mut topo), 0) {
        ClientAction::Reply(b) => assert_eq!(b, b"-ERR NOAUTH Authentication required.\r\n".to_vec()),
        _ => panic!("expected refusal"),
    }
}
