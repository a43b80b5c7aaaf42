//! What a client connection does with the bytes it receives: the bound on
//! buffered input, decoding frames into commands, `PSYNC` and `QUIT`,
//! redirection to the node that owns a key's slot, and executing the rest.
use vstd::prelude::*;
use vstd::utf8::*;
use crate::cluster::slot::{key_slot, key_slot_spec};
use crate::cluster::topology::{endpoint_text, ClusterTopology, TopologyView};
use crate::commands::exec::{db_step, del_all, executed, exists_all, fits_spec, gate, ok_frame, opt_str_view};
use crate::commands::parse::parse_command;
use crate::commands::{target_key_spec, CmdView, Command};
use crate::protocol::resp::{
    encode_frame, lemma_parse_frame_bounds, parse_failure_text, parse_frame, parse_prefix,
    push_bytes, Frame, ParseOutcome, RespParseError, Value,
};
use crate::replication::rdb::{get_empty_rdb_bytes, hex_decode, EMPTY_RDB_HEX};
use crate::replication::state::{ReplView, ReplicationState};
use crate::storage::db::{Db, DbView};
use crate::text::{decimal_string, decimal_text};

verus! {

broadcast use vstd::utf8::group_utf8_lib;

/// The reply sent before closing a connection whose buffered input grew
/// beyond the bound.
pub open spec fn oversize_bytes() -> Seq<u8> {
    encode_frame(Frame::Error("ERR max payload size exceeded"@))
}

/// Checks the buffered input against the bound: beyond it, the reply to
/// send before closing.
pub fn payload_exceeded(buffered: usize, max_payload_size: usize) -> (r: Option<Vec<u8>>)
    ensures
        buffered > max_payload_size ==> (r matches Some(b) && b@ == oversize_bytes()),
        buffered <= max_payload_size ==> r is None,
{
    if buffered > max_payload_size {
        let mut out: Vec<u8> = Vec::new();
        Value::error("ERR max payload size exceeded").serialize(&mut out);
        Some(out)
    } else {
        None
    }
}

/// The frame at the start of a client's buffered input.
pub enum ClientFrame {
    /// The frame has not fully arrived.
    NeedMore,
    /// A command, with the bytes of its frame.
    Request(Command, Vec<u8>),
    /// A frame that is not a command: the error reply to send.
    Refused(Vec<u8>),
    /// The input is not RESP: the error, and the reply to send; the input is
    /// dropped.
    ProtocolError(RespParseError, Vec<u8>),
}

/// Takes the frame at the start of the buffered input.
pub fn next_client_frame(buffer: &mut Vec<u8>) -> (r: ClientFrame)
    ensures
        match parse_frame(old(buffer)@) {
            ParseOutcome::Incomplete => r is NeedMore && final(buffer)@ == old(buffer)@,
            ParseOutcome::Invalid(e, _) => r matches ClientFrame::ProtocolError(err, b) && err@ == e && b@
                == encode_frame(Frame::Error("ERR protocol error: "@ + parse_failure_text(e))) && final(buffer)@.len()
                == 0,
            ParseOutcome::Complete(f, k) => final(buffer)@ == old(buffer)@.skip(k) && match parse_command(f) {
                Ok(c) => r matches ClientFrame::Request(cmd, raw) && cmd@ == c && raw@ == old(buffer)@.take(k),
                Err(m) => r matches ClientFrame::Refused(b) && b@ == encode_frame(Frame::Error(m)),
            },
        },
{
    proof {
        lemma_parse_frame_bounds(buffer@);
    }
    match parse_prefix(buffer.as_slice()) {
        Ok(None) => ClientFrame::NeedMore,
        Err((e, _)) => {
            let mut m = "ERR protocol error: ".to_owned();
            let text = e.message();
            m.append(text.as_str());
            let mut out: Vec<u8> = Vec::new();
            Value::Error(m).serialize(&mut out);
            buffer.clear();
            ClientFrame::ProtocolError(e, out)
        },
        Ok(Some((v, k))) => {
            let mut raw = buffer.split_off(k);
            std::mem::swap(buffer, &mut raw);
            match Command::from_value(&v) {
                Ok(cmd) => ClientFrame::Request(cmd, raw),
                Err(m) => {
                    let mut out: Vec<u8> = Vec::new();
                    Value::Error(m).serialize(&mut out);
                    ClientFrame::Refused(out)
                },
            }
        },
    }
}

/// What to do after a command.
pub enum ClientAction {
    /// Send these bytes and go on.
    Reply(Vec<u8>),
    /// Send nothing and go on.
    Silent,
    /// Send these bytes, then close the connection (`QUIT`).
    Close(Vec<u8>),
    /// Send these bytes (the `FULLRESYNC` line and the snapshot), then feed
    /// the connection the master's writes (`PSYNC`).
    AttachReplica(Vec<u8>),
}

/// The content of an action.
pub enum ActionView {
    Reply(Seq<u8>),
    Silent,
    Close(Seq<u8>),
    AttachReplica(Seq<u8>),
}

impl View for ClientAction {
    type V = ActionView;

    open spec fn view(&self) -> ActionView {
        match self {
            ClientAction::Reply(b) => ActionView::Reply(b@),
            ClientAction::Silent => ActionView::Silent,
            ClientAction::Close(b) => ActionView::Close(b@),
            ClientAction::AttachReplica(b) => ActionView::AttachReplica(b@),
        }
    }
}

/// The empty snapshot.
pub open spec fn empty_rdb() -> Seq<u8> {
    hex_decode(encode_utf8(EMPTY_RDB_HEX@))
}

/// The answer to `PSYNC`: `+FULLRESYNC <id> 0`, then the snapshot as
/// `$<length>\r\n` and its bytes.
pub open spec fn psync_bytes(repl: ReplView) -> Seq<u8> {
    encode_utf8("+FULLRESYNC "@ + repl.replid + " 0\r\n"@) + encode_utf8("$"@ + decimal_text(empty_rdb().len()) + "\r\n"@)
        + empty_rdb()
}

/// Where a command for a key on another node is sent: a connection that is
/// authenticated, in a cluster, with a command that addresses a key whose
/// slot this node does not own, is told `-MOVED <slot> <ip:port>` of the
/// recorded owner, or `-CLUSTERDOWN` when the slot has none.
pub open spec fn redirect(cmd: CmdView, authed: bool, cluster: Option<TopologyView>) -> Option<Seq<u8>> {
    match (cluster, target_key_spec(cmd)) {
        (Some(t), Some(k)) => {
            let slot = key_slot_spec(encode_utf8(k));
            if authed && !t.owns(slot) {
                Some(
                    match t.owner(slot) {
                        Some(n) => encode_utf8("-MOVED "@ + decimal_text(slot as nat) + " "@ + endpoint_text(n) + "\r\n"@),
                        None => encode_utf8("-CLUSTERDOWN The cluster is down\r\n"@),
                    },
                )
            } else {
                None
            }
        },
        _ => None,
    }
}

/// The full effect of serving a command that arrived as the bytes `raw`.
pub open spec fn served(
    cmd: CmdView,
    raw: Seq<u8>,
    requirepass: Option<Seq<char>>,
    now: u64,
    db0: DbView,
    db1: DbView,
    repl0: ReplView,
    repl1: ReplView,
    a0: bool,
    a1: bool,
    c0: Option<TopologyView>,
    c1: Option<TopologyView>,
    action: ActionView,
) -> bool {
    let unchanged = db1 == db0 && repl1 == repl0 && a1 == a0 && c1 == c0;
    match cmd {
        CmdView::Psync(_, _) => unchanged && action == ActionView::AttachReplica(psync_bytes(repl0)),
        CmdView::Quit => unchanged && action == ActionView::Close(encode_frame(ok_frame())),
        _ => match redirect(cmd, a0, c0) {
            Some(b) => unchanged && action == ActionView::Reply(b),
            None => exists|r: Option<Frame>|
                #[trigger] executed(cmd, Some(raw), requirepass, now, db0, db1, repl0, repl1, a0, a1, c0, c1, r) && action
                    == match r {
                    Some(f) => ActionView::Reply(encode_frame(f)),
                    None => ActionView::Silent,
                },
        },
    }
}

fn str_bytes(s: &str) -> (r: Vec<u8>)
    ensures
        r@ == encode_utf8(s@),
{
    vstd::slice::slice_to_vec(s.as_bytes())
}

/// The answer to `PSYNC`.
fn psync_reply(repl: &ReplicationState) -> (r: Vec<u8>)
    ensures
        r@ == psync_bytes(repl@),
{
    let mut line = "+FULLRESYNC ".to_owned();
    line.append(repl.master_replid.as_str());
    line.append(" 0\r\n");
    let mut out = str_bytes(line.as_str());
    let rdb = get_empty_rdb_bytes();
    let mut header = "$".to_owned();
    let len = decimal_string(rdb.len() as u64);
    header.append(len.as_str());
    header.append("\r\n");
    let h = str_bytes(header.as_str());
    push_bytes(&mut out, h.as_slice());
    push_bytes(&mut out, rdb.as_slice());
    out
}

/// The reply to send for an executed command.
fn action_of(r: Option<Value>) -> (a: ClientAction)
    ensures
        a@ == match r {
            Some(v) => ActionView::Reply(encode_frame(v@)),
            None => ActionView::Silent,
        },
{
    match r {
        Some(v) => {
            let mut out: Vec<u8> = Vec::new();
            v.serialize(&mut out);
            assert(out@ =~= encode_frame(v@));
            ClientAction::Reply(out)
        },
        None => ClientAction::Silent,
    }
}

/// The redirection for a command, if this node does not serve its key.
fn redirect_reply(cmd: &Command, authed: bool, t: &ClusterTopology) -> (r: Option<Vec<u8>>)
    requires
        t.inv(),
    ensures
        match redirect(cmd@, authed, Some(t@)) {
            Some(b) => r matches Some(x) && x@ == b,
            None => r is None,
        },
{
    let key = match cmd.target_key() {
        Some(k) => k,
        None => {
            return None;
        },
    };
    if !authed {
        return None;
    }
    let slot = key_slot(key.as_bytes());
    if t.owns_slot(slot) {
        return None;
    }
    match t.get_node_for_slot(slot) {
        Some(owner) => {
            let mut m = "-MOVED ".to_owned();
            let s = decimal_string(slot as u64);
            m.append(s.as_str());
            m.append(" ");
            let ep = owner.endpoint();
            m.append(ep.as_str());
            m.append("\r\n");
            Some(str_bytes(m.as_str()))
        },
        None => Some(str_bytes("-CLUSTERDOWN The cluster is down\r\n")),
    }
}

/// Serves a command that arrived as the bytes `raw`, at time `now`.
pub fn serve_command(
    cmd: &Command,
    raw: &[u8],
    db: &mut Db,
    repl_state: &mut ReplicationState,
    requirepass: Option<&str>,
    is_authenticated: &mut bool,
    cluster: Option<&mut ClusterTopology>,
    now: u64,
) -> (r: ClientAction)
    requires
        old(db).inv(),
        match cluster {
            Some(t) => t.inv(),
            None => true,
        },
        gate(cmd@, opt_str_view(requirepass), *old(is_authenticated)) is Some || fits_spec(cmd@, old(db)@),
    ensures
        final(db).inv(),
        match cluster {
            Some(t) => final(t).inv() && served(
                cmd@,
                raw@,
                opt_str_view(requirepass),
                now,
                old(db)@,
                final(db)@,
                old(repl_state)@,
                final(repl_state)@,
                *old(is_authenticated),
                *final(is_authenticated),
                Some(t@),
                Some(final(t)@),
                r@,
            ),
            None => served(
                cmd@,
                raw@,
                opt_str_view(requirepass),
                now,
                old(db)@,
                final(db)@,
                old(repl_state)@,
                final(repl_state)@,
                *old(is_authenticated),
                *final(is_authenticated),
                None,
                None,
                r@,
            ),
        },
{
    match cmd {
        Command::Psync { .. } => {
            return ClientAction::AttachReplica(psync_reply(repl_state));
        },
        Command::Quit => {
            let mut out: Vec<u8> = Vec::new();
            Value::ok().serialize(&mut out);
            assert(out@ =~= encode_frame(ok_frame()));
            return ClientAction::Close(out);
        },
        _ => {},
    }
    match cluster {
        Some(t) => {
            match redirect_reply(cmd, *is_authenticated, t) {
                Some(b) => ClientAction::Reply(b),
                None => {
                    let r = cmd.execute_at(db, repl_state, Some(raw), requirepass, is_authenticated, Some(t), now);
                    action_of(r)
                },
            }
        },
        None => {
            let r = cmd.execute_at(db, repl_state, Some(raw), requirepass, is_authenticated, None, now);
            action_of(r)
        },
    }
}


/// Commands that have no routing key leave the store as it is: every
/// command that reads or writes a key (and so may change the store, even if
/// only by dropping an expired entry) is routed by a key. `GET` and `SET`
/// are routed by their key, `DEL` and `EXISTS` by their first key.
pub proof fn lemma_routing_key(cmd: CmdView, db: DbView, now: u64)
    ensures
        target_key_spec(cmd) is None ==> db_step(cmd, db, now) == db,
        cmd matches CmdView::Get(k) ==> target_key_spec(cmd) == Some(k),
        cmd matches CmdView::SetValue(k, _, _) ==> target_key_spec(cmd) == Some(k),
        cmd matches CmdView::Del(ks) ==> (ks.len() > 0 ==> target_key_spec(cmd) == Some(ks[0])),
        cmd matches CmdView::Exists(ks) ==> (ks.len() > 0 ==> target_key_spec(cmd) == Some(ks[0])),
{
    match cmd {
        CmdView::Del(ks) => {
            if ks.len() == 0 {
                assert(del_all(db, ks).0 == db);
            }
        },
        CmdView::Exists(ks) => {
            if ks.len() == 0 {
                assert(exists_all(db, ks, now).0 == db);
            }
        },
        _ => {},
    }
}

/// In cluster mode, an authenticated client's `GET`, `SET`, `DEL` or
/// `EXISTS` whose (first) key lies in a slot this node does not own is not
/// served here: the store, the replication state and the topology stay as
/// they were, and the client is told `-MOVED <slot> <ip:port>` of the
/// recorded owner, or `-CLUSTERDOWN` when the slot has none.
pub proof fn lemma_foreign_key_redirected(
    cmd: CmdView,
    k: Seq<char>,
    raw: Seq<u8>,
    requirepass: Option<Seq<char>>,
    now: u64,
    db0: DbView,
    db1: DbView,
    repl0: ReplView,
    repl1: ReplView,
    a1: bool,
    t: TopologyView,
    c1: Option<TopologyView>,
    action: ActionView,
)
    requires
        cmd == CmdView::Get(k) || (cmd matches CmdView::SetValue(x, _, _) && x == k) || (cmd matches CmdView::Del(ks)
            && ks.len() > 0 && ks[0] == k) || (cmd matches CmdView::Exists(ks) && ks.len() > 0 && ks[0] == k),
        !t.owns(key_slot_spec(encode_utf8(k))),
        served(cmd, raw, requirepass, now, db0, db1, repl0, repl1, true, a1, Some(t), c1, action),
    ensures
        db1 == db0,
        repl1 == repl0,
        c1 == Some(t),
        action == ActionView::Reply(
            match t.owner(key_slot_spec(encode_utf8(k))) {
                Some(n) => encode_utf8(
                    "-MOVED "@ + decimal_text(key_slot_spec(encode_utf8(k)) as nat) + " "@ + endpoint_text(n) + "\r\n"@,
                ),
                None => encode_utf8("-CLUSTERDOWN The cluster is down\r\n"@),
            },
        ),
{
}
} // verus!
