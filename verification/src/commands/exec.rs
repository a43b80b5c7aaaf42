//! Executing commands: an authentication gate, then each command's effect
//! on the store, the replication state and the cluster topology, and its
//! reply. Writes on a master are forwarded to its replicas.
use vstd::prelude::*;
use vstd::utf8::*;
use crate::cluster::slot::{key_slot, key_slot_spec, lemma_hashtag_colocation, lemma_key_slot_in_range, HASH_SLOTS};
use crate::cluster::topology::{
    cluster_info_text, cluster_slots_frame, lemma_node_index, nodes_text, ClusterNode,
    ClusterTopology, NodeView, TopologyView,
};
use crate::protocol::resp::{frames_of, lemma_frames_of, Frame, Value};
use crate::replication::state::{forwarded, info_text, ReplView, ReplicationState};
use crate::storage::db::{hash_str, lemma_get_after_set, new_entry, str_hash, Db, DbView};
use crate::storage::entry::{entry_size, expired};
use crate::text::{
    ascii_text, ascii_upper, lemma_encode_utf8_ascii_byte, lemma_encode_utf8_concat, lemma_encode_utf8_empty, decimal_string, decimal_text, hex40_string, padded_hex, str_eq,
    to_ascii_uppercase,
};
use crate::commands::parse::parse_command;
use super::{strings_view, ClusterSubcommand, CmdView, Command, SubView};

verus! {

broadcast use vstd::utf8::group_utf8_lib;

/// `+OK`.
pub open spec fn ok_frame() -> Frame {
    Frame::Simple("OK"@)
}

/// A bulk string holding the UTF-8 bytes of a text.
pub open spec fn bulk_text(t: Seq<char>) -> Frame {
    Frame::Bulk(Some(encode_utf8(t)))
}

/// With a password set and the connection not yet authenticated, only
/// `AUTH` (checked against the password) and `QUIT` are answered; anything
/// else is refused. The reply and the new authentication state.
pub open spec fn gate(cmd: CmdView, requirepass: Option<Seq<char>>, authed: bool) -> Option<(Frame, bool)> {
    match requirepass {
        Some(pass) => if authed {
            None
        } else {
            match cmd {
                CmdView::Auth(_, pw) => if pw == pass {
                    Some((ok_frame(), true))
                } else {
                    Some((Frame::Error("WRONGPASS invalid username-password pair or user is disabled."@), false))
                },
                CmdView::Quit => Some((ok_frame(), false)),
                _ => Some((Frame::Error("NOAUTH Authentication required."@), false)),
            }
        },
        None => None,
    }
}

/// The deadline `ms` milliseconds after `now`, in nanoseconds on the store's
/// clock, held at the end of the clock's range.
pub open spec fn deadline(now: u64, ms: u64) -> u64 {
    if now + ms * 1_000_000 > u64::MAX {
        u64::MAX
    } else {
        (now + ms * 1_000_000) as u64
    }
}

/// The expiry of `SET ... PX ms` given at `now`.
pub open spec fn expiry(px: Option<u64>, now: u64) -> Option<u64> {
    match px {
        Some(ms) => Some(deadline(now, ms)),
        None => None,
    }
}

/// Deleting the keys in order; with how many were present.
pub open spec fn del_all(db: DbView, ks: Seq<Seq<char>>) -> (DbView, nat)
    decreases ks.len(),
{
    if ks.len() == 0 {
        (db, 0)
    } else {
        let (d1, hit) = db.del(ks[0]);
        let (d2, n) = del_all(d1, ks.skip(1));
        (d2, n + if hit {
            1nat
        } else {
            0nat
        })
    }
}

/// Reading the keys in order at `now`; with how many were live.
pub open spec fn exists_all(db: DbView, ks: Seq<Seq<char>>, now: u64) -> (DbView, nat)
    decreases ks.len(),
{
    if ks.len() == 0 {
        (db, 0)
    } else {
        let (d1, got) = db.get(ks[0], now);
        let (d2, n) = exists_all(d1, ks.skip(1), now);
        (d2, n + if got is Some {
            1nat
        } else {
            0nat
        })
    }
}

/// The cluster bus port of a node: its port plus 10000, wrapping.
pub open spec fn bus_port_of(port: u16) -> u16 {
    if port + 10000 > u16::MAX {
        (port + 10000 - 65536) as u16
    } else {
        (port + 10000) as u16
    }
}

/// The node `CLUSTER MEET ip port` registers: a master whose identifier is
/// the 40-digit hexadecimal hash of `ip:port`.
pub open spec fn meet_node(ip: Seq<char>, port: u16) -> NodeView {
    NodeView {
        id: ascii_text(padded_hex(str_hash(ip + ":"@ + decimal_text(port as nat)) as nat, 40)),
        ip,
        port,
        bus_port: bus_port_of(port),
        is_myself: false,
        is_master: true,
        slots: Seq::empty(),
    }
}

/// Assigning each slot in turn to node `id`, stopping at the first error.
pub open spec fn add_slots_all(t: TopologyView, id: Seq<char>, slots: Seq<u16>) -> (TopologyView, Result<(), Seq<char>>)
    decreases slots.len(),
{
    if slots.len() == 0 {
        (t, Ok(()))
    } else {
        let (t1, r) = t.assign(id, slots[0], slots[0]);
        match r {
            Err(e) => (t1, Err(e)),
            Ok(_) => add_slots_all(t1, id, slots.skip(1)),
        }
    }
}

/// A `CLUSTER` subcommand on a topology: the new topology and the reply.
pub open spec fn cluster_step(sub: SubView, t: TopologyView) -> (TopologyView, Frame) {
    match sub {
        SubView::KeySlot(k) => (t, Frame::Integer(key_slot_spec(encode_utf8(k)) as int)),
        SubView::Info => (t, bulk_text(cluster_info_text(t))),
        SubView::Nodes => (t, bulk_text(nodes_text(t.nodes))),
        SubView::Slots => (t, cluster_slots_frame(t)),
        SubView::Meet(ip, port) => (t.with_node(meet_node(ip, port)), ok_frame()),
        SubView::AddSlots(s) => if t.node(t.myself_id) is Some {
            let (t1, r) = add_slots_all(t, t.myself_id, s);
            (
                t1,
                match r {
                    Ok(_) => ok_frame(),
                    Err(e) => Frame::Error(e),
                },
            )
        } else {
            (t, ok_frame())
        },
    }
}

/// The reply of `REPLCONF GETACK`: the bytes processed from the master.
pub open spec fn getack_frame(processed: u64) -> Frame {
    Frame::Array(Some(seq![bulk_text("REPLCONF"@), bulk_text("ACK"@), bulk_text(decimal_text(processed as nat))]))
}

/// The reply to `REPLCONF`: `GETACK` is answered with the processed count,
/// `ACK` with nothing, anything else with `+OK`; it needs an argument.
pub open spec fn replconf_frame(args: Seq<Seq<char>>, processed: u64) -> Option<Frame> {
    if args.len() == 0 {
        Some(Frame::Error("ERR REPLCONF requires arguments"@))
    } else if ascii_upper(args[0]) == "GETACK"@ {
        Some(getack_frame(processed))
    } else if ascii_upper(args[0]) == "ACK"@ {
        None
    } else {
        Some(ok_frame())
    }
}

/// The reply to a command that [`gate`] admits, read from the state before
/// it (the store before the command's own reads and writes).
pub open spec fn reply(cmd: CmdView, db: DbView, repl: ReplView, cluster: Option<TopologyView>, now: u64) -> Option<Frame> {
    match cmd {
        CmdView::Auth(_, _) => Some(ok_frame()),
        CmdView::Quit => Some(ok_frame()),
        CmdView::Ping(m) => Some(
            match m {
                Some(t) => bulk_text(t),
                None => Frame::Simple("PONG"@),
            },
        ),
        CmdView::Echo(m) => Some(bulk_text(m)),
        CmdView::Get(k) => Some(Frame::Bulk(db.get(k, now).1)),
        CmdView::SetValue(_, _, _) => Some(ok_frame()),
        CmdView::Del(ks) => Some(Frame::Integer((del_all(db, ks).1 as i64) as int)),
        CmdView::Exists(ks) => Some(Frame::Integer((exists_all(db, ks, now).1 as i64) as int)),
        CmdView::Keys(_) => Some(Frame::Array(Some(db.keys(now).map_values(|k: Seq<char>| bulk_text(k))))),
        CmdView::Info(_) => Some(bulk_text(info_text(repl))),
        CmdView::ReplConf(args) => replconf_frame(args, repl.processed),
        CmdView::Psync(_, _) => Some(Frame::Simple("FULLRESYNC "@ + repl.replid + " 0"@)),
        CmdView::Cluster(sub) => Some(
            match cluster {
                Some(t) => cluster_step(sub, t).1,
                None => Frame::Error("ERR This instance has cluster support disabled"@),
            },
        ),
        CmdView::Command => Some(Frame::Array(Some(Seq::empty()))),
    }
}

/// The store after a command that [`gate`] admits.
pub open spec fn db_step(cmd: CmdView, db: DbView, now: u64) -> DbView {
    match cmd {
        CmdView::Get(k) => db.get(k, now).0,
        CmdView::SetValue(k, v, px) => db.set(k, v, expiry(px, now), now),
        CmdView::Del(ks) => del_all(db, ks).0,
        CmdView::Exists(ks) => exists_all(db, ks, now).0,
        _ => db,
    }
}

/// The topology after a command that [`gate`] admits.
pub open spec fn cluster_after(cmd: CmdView, cluster: Option<TopologyView>) -> Option<TopologyView> {
    match (cmd, cluster) {
        (CmdView::Cluster(sub), Some(t)) => Some(cluster_step(sub, t).0),
        _ => cluster,
    }
}

/// What a master forwards to its replicas: the raw bytes of a `SET`, and of
/// a `DEL` that removed something. A replica forwards nothing.
pub open spec fn forwarded_bytes(cmd: CmdView, db: DbView, repl: ReplView, raw: Option<Seq<u8>>) -> Option<Seq<u8>> {
    if repl.role is Replica {
        None
    } else {
        match cmd {
            CmdView::SetValue(_, _, _) => raw,
            CmdView::Del(ks) => if del_all(db, ks).1 > 0 {
                raw
            } else {
                None
            },
            _ => None,
        }
    }
}

/// The full effect of executing `cmd` at time `now`: from the store `db0`,
/// replication state `repl0`, authentication state `a0` and topology `c0`
/// to `db1`, `repl1`, `a1`, `c1`, with the reply `r`.
pub open spec fn executed(
    cmd: CmdView,
    raw: Option<Seq<u8>>,
    requirepass: Option<Seq<char>>,
    now: u64,
    db0: DbView,
    db1: DbView,
    repl0: ReplView,
    repl1: ReplView,
    a0: bool,
    a1: bool,
    c0: Option<TopologyView>,
    c1: Option<TopologyView>,
    r: Option<Frame>,
) -> bool {
    match gate(cmd, requirepass, a0) {
        Some((f, a)) => {
            &&& r == Some(f)
            &&& a1 == a
            &&& db1 == db0
            &&& repl1 == repl0
            &&& c1 == c0
        },
        None => {
            &&& r == reply(cmd, db0, repl0, c0, now)
            &&& a1 == (a0 || cmd is Auth)
            &&& db1 == db_step(cmd, db0, now)
            &&& c1 == cluster_after(cmd, c0)
            &&& match forwarded_bytes(cmd, db0, repl0, raw) {
                Some(b) => forwarded(repl0, repl1, b),
                None => repl1 == repl0,
            }
        },
    }
}

/// The content of a reply.
pub open spec fn opt_frame(r: Option<Value>) -> Option<Frame> {
    match r {
        Some(v) => Some(v@),
        None => None,
    }
}

/// The bytes of an optional slice.
pub open spec fn opt_bytes_view(b: Option<&[u8]>) -> Option<Seq<u8>> {
    match b {
        Some(x) => Some(x@),
        None => None,
    }
}

/// The text of an optional `&str`.
pub open spec fn opt_str_view(s: Option<&str>) -> Option<Seq<char>> {
    match s {
        Some(x) => Some(x@),
        None => None,
    }
}

/// The deadline `ms` milliseconds after `now`.
fn deadline_after(now: u64, ms: u64) -> (r: u64)
    ensures
        r == deadline(now, ms),
{
    match ms.checked_mul(1_000_000) {
        Some(d) => now.saturating_add(d),
        None => u64::MAX,
    }
}

/// Deletes the keys in order; returns how many were present.
fn delete_keys(db: &mut Db, keys: &Vec<String>) -> (r: usize)
    requires
        old(db).inv(),
    ensures
        final(db).inv(),
        (final(db)@, r as nat) == del_all(old(db)@, strings_view(*keys)),
{
    let ghost ks = strings_view(*keys);
    let ghost target = del_all(db@, ks);
    let mut count: usize = 0;
    let mut i: usize = 0;
    proof {
        assert(ks.skip(0) =~= ks);
    }
    while i < keys.len()
        invariant
            db.inv(),
            i <= keys@.len(),
            ks == strings_view(*keys),
            ks.len() == keys@.len(),
            count <= i,
            target.0 == del_all(db@, ks.skip(i as int)).0,
            target.1 == count + del_all(db@, ks.skip(i as int)).1,
        decreases keys@.len() - i,
    {
        proof {
            assert(ks.skip(i as int)[0] == ks[i as int]);
            assert(ks.skip(i as int).skip(1) =~= ks.skip(i + 1));
            assert(ks[i as int] == keys@[i as int]@);
        }
        if db.del(keys[i].as_str()) {
            count = count + 1;
        }
        i = i + 1;
    }
    assert(ks.skip(i as int) =~= Seq::<Seq<char>>::empty());
    count
}

/// Reads the keys in order at `now`; returns how many were live.
fn count_existing(db: &mut Db, keys: &Vec<String>, now: u64) -> (r: usize)
    requires
        old(db).inv(),
    ensures
        final(db).inv(),
        (final(db)@, r as nat) == exists_all(old(db)@, strings_view(*keys), now),
{
    let ghost ks = strings_view(*keys);
    let ghost target = exists_all(db@, ks, now);
    let mut count: usize = 0;
    let mut i: usize = 0;
    proof {
        assert(ks.skip(0) =~= ks);
    }
    while i < keys.len()
        invariant
            db.inv(),
            i <= keys@.len(),
            ks == strings_view(*keys),
            ks.len() == keys@.len(),
            count <= i,
            target.0 == exists_all(db@, ks.skip(i as int), now).0,
            target.1 == count + exists_all(db@, ks.skip(i as int), now).1,
        decreases keys@.len() - i,
    {
        proof {
            assert(ks.skip(i as int)[0] == ks[i as int]);
            assert(ks.skip(i as int).skip(1) =~= ks.skip(i + 1));
            assert(ks[i as int] == keys@[i as int]@);
        }
        if db.exists_at(keys[i].as_str(), now) {
            count = count + 1;
        }
        i = i + 1;
    }
    assert(ks.skip(i as int) =~= Seq::<Seq<char>>::empty());
    count
}

/// The reply of `KEYS`: the live keys as bulk strings.
fn keys_reply(db: &Db, now: u64) -> (r: Value)
    requires
        db.inv(),
    ensures
        r@ == Frame::Array(Some(db@.keys(now).map_values(|k: Seq<char>| bulk_text(k)))),
{
    let keys = db.keys_at(now);
    let ghost ks = keys@.map_values(|k: String| k@);
    let mut out: Vec<Value> = Vec::new();
    let mut i: usize = 0;
    while i < keys.len()
        invariant
            i <= keys@.len(),
            ks == keys@.map_values(|k: String| k@),
            out@.len() == i,
            forall|j: int| 0 <= j < i ==> (#[trigger] out@[j])@ == bulk_text(ks[j]),
        decreases keys@.len() - i,
    {
        out.push(Value::string(keys[i].as_str()));
        i = i + 1;
    }
    proof {
        lemma_frames_of(out@);
        assert(frames_of(out@) =~= ks.map_values(|k: Seq<char>| bulk_text(k)));
    }
    Value::Array(Some(out))
}

/// The reply of `REPLCONF`.
fn replconf_reply(args: &Vec<String>, repl: &ReplicationState) -> (r: Option<Value>)
    ensures
        opt_frame(r) == replconf_frame(strings_view(*args), repl@.processed),
{
    if args.len() == 0 {
        return Some(Value::error("ERR REPLCONF requires arguments"));
    }
    assert(strings_view(*args)[0] == args@[0]@);
    let sub = to_ascii_uppercase(args[0].as_str());
    if str_eq(sub.as_str(), "GETACK") {
        let offset = decimal_string(repl.replica_bytes_processed);
        let mut items: Vec<Value> = Vec::new();
        items.push(Value::string("REPLCONF"));
        items.push(Value::string("ACK"));
        items.push(Value::string(offset.as_str()));
        proof {
            lemma_frames_of(items@);
            assert(frames_of(items@) =~= seq![bulk_text("REPLCONF"@), bulk_text("ACK"@), bulk_text(decimal_text(repl@.processed as nat))]);
        }
        Some(Value::Array(Some(items)))
    } else if str_eq(sub.as_str(), "ACK") {
        None
    } else {
        Some(Value::ok())
    }
}

/// Assigns each slot from position `i` on in turn to node `id`, stopping at
/// the first error.
fn add_slots_each(t: &mut ClusterTopology, id: &str, slots: &Vec<u16>, i: usize) -> (r: Result<(), String>)
    requires
        old(t).inv(),
        i <= slots@.len(),
    ensures
        final(t).inv(),
        (final(t)@, match r {
            Ok(()) => Ok(()),
            Err(m) => Err(m@),
        }) == add_slots_all(old(t)@, id@, slots@.skip(i as int)),
    decreases slots@.len() - i,
{
    if i >= slots.len() {
        assert(slots@.skip(i as int) =~= Seq::<u16>::empty());
        return Ok(());
    }
    proof {
        assert(slots@.skip(i as int)[0] == slots@[i as int]);
        assert(slots@.skip(i as int).skip(1) =~= slots@.skip(i + 1));
    }
    let s = slots[i];
    match t.add_slots_range(id, s, s) {
        Ok(()) => add_slots_each(t, id, slots, i + 1),
        Err(e) => Err(e),
    }
}

/// A `CLUSTER` subcommand on the topology.
fn cluster_exec(sub: &ClusterSubcommand, t: &mut ClusterTopology) -> (r: Value)
    requires
        old(t).inv(),
    ensures
        final(t).inv(),
        (final(t)@, r@) == cluster_step(sub@, old(t)@),
{
    match sub {
        ClusterSubcommand::KeySlot(k) => {
            let slot = key_slot(k.as_str().as_bytes());
            Value::Integer(slot as i64)
        },
        ClusterSubcommand::Info => {
            let info = t.format_cluster_info();
            Value::string(info.as_str())
        },
        ClusterSubcommand::Nodes => {
            let nodes = t.format_cluster_nodes();
            Value::string(nodes.as_str())
        },
        ClusterSubcommand::Slots => t.format_cluster_slots(),
        ClusterSubcommand::Meet { ip, port } => {
            let mut addr = ip.clone();
            addr.append(":");
            let p = decimal_string(*port as u64);
            addr.append(p.as_str());
            let id = hex40_string(hash_str(addr.as_str()));
            let peer = ClusterNode::new(id, ip.clone(), *port, port.wrapping_add(10000), false, true);
            t.add_node(peer);
            Value::ok()
        },
        ClusterSubcommand::AddSlots(slots) => {
            match t.myself() {
                Some(me) => {
                    proof {
                        lemma_node_index(t@.nodes, t@.myself_id);
                    }
                    let id = me.id.clone();
                    proof {
                        assert(slots@.skip(0) =~= slots@);
                    }
                    match add_slots_each(t, id.as_str(), slots, 0) {
                        Ok(()) => Value::ok(),
                        Err(e) => Value::Error(e),
                    }
                },
                None => Value::ok(),
            }
        },
    }
}

/// A `SET` in `cmd` has its entry accounted within `usize`.
pub open spec fn fits_spec(cmd: CmdView, db: DbView) -> bool {
    cmd matches CmdView::SetValue(k, v, _) ==> db.used + entry_size(encode_utf8(k).len(), v.len()) <= usize::MAX
}

impl Command {
    /// Whether the password gate answers this command itself, so that it
    /// touches neither the store nor the replication state.
    pub fn held_at_gate(&self, requirepass: Option<&str>, is_authenticated: bool) -> (r: bool)
        ensures
            r == gate(self@, opt_str_view(requirepass), is_authenticated) is Some,
    {
        match requirepass {
            Some(_) => !is_authenticated,
            None => false,
        }
    }

    /// Whether the store can account for what this command writes.
    pub fn fits(&self, db: &Db) -> (r: bool)
        ensures
            r == fits_spec(self@, db@),
    {
        match self {
            Command::SetValue { key, value, .. } => db.fits(key.as_str().as_bytes().len(), value.len()),
            _ => true,
        }
    }
}

impl Command {
    /// Executes the command at time `now` (nanoseconds on the store's clock).
    pub fn execute_at(
        &self,
        db: &mut Db,
        repl_state: &mut ReplicationState,
        raw_cmd: Option<&[u8]>,
        requirepass: Option<&str>,
        is_authenticated: &mut bool,
        cluster: Option<&mut ClusterTopology>,
        now: u64,
    ) -> (r: Option<Value>)
        requires
            old(db).inv(),
            match cluster {
                Some(t) => t.inv(),
                None => true,
            },
            gate(self@, opt_str_view(requirepass), *old(is_authenticated)) is Some || fits_spec(self@, old(db)@),
        ensures
            final(db).inv(),
            match cluster {
                Some(t) => final(t).inv() && executed(
                    self@,
                    opt_bytes_view(raw_cmd),
                    opt_str_view(requirepass),
                    now,
                    old(db)@,
                    final(db)@,
                    old(repl_state)@,
                    final(repl_state)@,
                    *old(is_authenticated),
                    *final(is_authenticated),
                    Some(t@),
                    Some(final(t)@),
                    opt_frame(r),
                ),
                None => executed(
                    self@,
                    opt_bytes_view(raw_cmd),
                    opt_str_view(requirepass),
                    now,
                    old(db)@,
                    final(db)@,
                    old(repl_state)@,
                    final(repl_state)@,
                    *old(is_authenticated),
                    *final(is_authenticated),
                    None,
                    None,
                    opt_frame(r),
                ),
            },
    {
        if let Some(pass) = requirepass {
            if !*is_authenticated {
                match self {
                    Command::Auth { password, .. } => {
                        if str_eq(password.as_str(), pass) {
                            *is_authenticated = true;
                            return Some(Value::ok());
                        } else {
                            return Some(Value::error("WRONGPASS invalid username-password pair or user is disabled."));
                        }
                    },
                    Command::Quit => {
                        return Some(Value::ok());
                    },
                    _ => {
                        return Some(Value::error("NOAUTH Authentication required."));
                    },
                }
            }
        }
        match self {
            Command::Auth { .. } => {
                *is_authenticated = true;
                Some(Value::ok())
            },
            Command::Quit => Some(Value::ok()),
            Command::Ping(msg) => match msg {
                Some(m) => Some(Value::string(m.as_str())),
                None => Some(Value::pong()),
            },
            Command::Echo(msg) => Some(Value::string(msg.as_str())),
            Command::Get(key) => match db.get_at(key.as_str(), now) {
                Some(bytes) => Some(Value::BulkString(Some(bytes))),
                None => Some(Value::null_bulk()),
            },
            Command::SetValue { key, value, px_ms } => {
                let expires_at = match px_ms {
                    Some(ms) => Some(deadline_after(now, *ms)),
                    None => None,
                };
                db.set_at(key.clone(), vstd::slice::slice_to_vec(value.as_slice()), expires_at, now);
                if !repl_state.is_replica() {
                    if let Some(raw) = raw_cmd {
                        repl_state.propagate_downstream(raw);
                    }
                }
                Some(Value::ok())
            },
            Command::Del(keys) => {
                let count = delete_keys(db, keys);
                if count > 0 && !repl_state.is_replica() {
                    if let Some(raw) = raw_cmd {
                        repl_state.propagate_downstream(raw);
                    }
                }
                Some(Value::Integer(count as i64))
            },
            Command::Exists(keys) => {
                let count = count_existing(db, keys, now);
                Some(Value::Integer(count as i64))
            },
            Command::Keys(_) => Some(keys_reply(db, now)),
            Command::Info(_) => {
                let info = repl_state.info_replication();
                Some(Value::string(info.as_str()))
            },
            Command::ReplConf(args) => replconf_reply(args, repl_state),
            Command::Psync { .. } => {
                let mut s = "FULLRESYNC ".to_owned();
                s.append(repl_state.master_replid.as_str());
                s.append(" 0");
                Some(Value::SimpleString(s))
            },
            Command::Cluster(sub) => match cluster {
                Some(t) => Some(cluster_exec(sub, t)),
                None => Some(Value::error("ERR This instance has cluster support disabled")),
            },
            Command::Command => Some(Value::Array(Some(Vec::new()))),
        }
    }
    /// Executes the command on the store's clock: it runs at a fresh
    /// reading, never earlier than the reading the previous operation ran
    /// at, and the store records that reading.
    pub fn execute(
        &self,
        db: &mut Db,
        repl_state: &mut ReplicationState,
        raw_cmd: Option<&[u8]>,
        requirepass: Option<&str>,
        is_authenticated: &mut bool,
        cluster: Option<&mut ClusterTopology>,
    ) -> (r: Option<Value>)
        requires
            old(db).inv(),
            match cluster {
                Some(t) => t.inv(),
                None => true,
            },
            gate(self@, opt_str_view(requirepass), *old(is_authenticated)) is Some || fits_spec(self@, old(db)@),
        ensures
            final(db).inv(),
            match cluster {
                Some(t) => final(t).inv() && exists|now: u64|
                    now >= old(db)@.clock && final(db)@.clock == now && executed(
                        self@,
                        opt_bytes_view(raw_cmd),
                        opt_str_view(requirepass),
                        now,
                        old(db)@.with_clock(now),
                        final(db)@,
                        old(repl_state)@,
                        final(repl_state)@,
                        *old(is_authenticated),
                        *final(is_authenticated),
                        Some(t@),
                        Some(final(t)@),
                        opt_frame(r),
                    ),
                None => exists|now: u64|
                    now >= old(db)@.clock && final(db)@.clock == now && executed(
                        self@,
                        opt_bytes_view(raw_cmd),
                        opt_str_view(requirepass),
                        now,
                        old(db)@.with_clock(now),
                        final(db)@,
                        old(repl_state)@,
                        final(repl_state)@,
                        *old(is_authenticated),
                        *final(is_authenticated),
                        None,
                        None,
                        opt_frame(r),
                    ),
            },
    {
        let now = db.read_clock();
        let ghost d0 = db@;
        proof {
            db.lemma_inv_wf();
            lemma_db_step_clock(self@, d0, now);
        }
        self.execute_at(db, repl_state, raw_cmd, requirepass, is_authenticated, cluster, now)
    }
}

/// A connection that has not authenticated against a password changes
/// nothing: whatever it sends, the store, the replication state and the
/// topology stay as they were, and only a correct `AUTH` authenticates it.
pub proof fn lemma_unauthenticated_changes_nothing(
    cmd: CmdView,
    raw: Option<Seq<u8>>,
    pass: Seq<char>,
    now: u64,
    db0: DbView,
    db1: DbView,
    repl0: ReplView,
    repl1: ReplView,
    a1: bool,
    c0: Option<TopologyView>,
    c1: Option<TopologyView>,
    r: Option<Frame>,
)
    requires
        executed(cmd, raw, Some(pass), now, db0, db1, repl0, repl1, false, a1, c0, c1, r),
    ensures
        db1 == db0,
        repl1 == repl0,
        c1 == c0,
        a1 <==> (cmd matches CmdView::Auth(_, pw) && pw == pass),
{
}

/// A replica forwards nothing to replicas of its own: whatever it executes
/// leaves its replication state as it was.
pub proof fn lemma_replica_forwards_nothing(
    cmd: CmdView,
    raw: Option<Seq<u8>>,
    requirepass: Option<Seq<char>>,
    now: u64,
    db0: DbView,
    db1: DbView,
    repl0: ReplView,
    repl1: ReplView,
    a0: bool,
    a1: bool,
    c0: Option<TopologyView>,
    c1: Option<TopologyView>,
    r: Option<Frame>,
)
    requires
        repl0.role is Replica,
        executed(cmd, raw, requirepass, now, db0, db1, repl0, repl1, a0, a1, c0, c1, r),
    ensures
        repl1 == repl0,
{
}

/// `SET` then `GET` of the same key answers the value written, unless it
/// has expired by the time of the read.
pub proof fn lemma_set_then_get(
    db: DbView,
    key: Seq<char>,
    value: Seq<u8>,
    px: Option<u64>,
    now: u64,
    later: u64,
    repl: ReplView,
    cluster: Option<TopologyView>,
)
    requires
        db.wf(),
    ensures
        reply(CmdView::Get(key), db_step(CmdView::SetValue(key, value, px), db, now), repl, cluster, later) == Some(
            Frame::Bulk(
                if expired(new_entry(key, value, expiry(px, now), now), later) {
                    None
                } else {
                    Some(value)
                },
            ),
        ),
{
    lemma_get_after_set(db, key, value, expiry(px, now), now, later);
}


/// `SET key value PX ms` run at time `t1`, then `GET key` at a later time
/// `t2` (as `execute` guarantees: it runs on readings that never go back):
/// the read answers the value while less than `ms` milliseconds have passed
/// (and the clock has not reached its end), and nothing once they have.
pub proof fn lemma_set_px_then_get(
    db: DbView,
    key: Seq<char>,
    value: Seq<u8>,
    ms: u64,
    t1: u64,
    t2: u64,
    repl: ReplView,
    cluster: Option<TopologyView>,
)
    requires
        db.wf(),
        t1 <= t2,
    ensures
        (t2 - t1 < ms * 1_000_000 && t2 < u64::MAX) ==> reply(
            CmdView::Get(key),
            db_step(CmdView::SetValue(key, value, Some(ms)), db.with_clock(t1), t1).with_clock(t2),
            repl,
            cluster,
            t2,
        ) == Some(Frame::Bulk(Some(value))),
        t2 - t1 >= ms * 1_000_000 ==> reply(
            CmdView::Get(key),
            db_step(CmdView::SetValue(key, value, Some(ms)), db.with_clock(t1), t1).with_clock(t2),
            repl,
            cluster,
            t2,
        ) == Some(Frame::Bulk(None)),
{
    let d = db.with_clock(t1);
    lemma_get_after_set(d, key, value, expiry(Some(ms), t1), t1, t2);
    let d1 = db_step(CmdView::SetValue(key, value, Some(ms)), d, t1);
    assert(d1.with_clock(t2).get(key, t2).1 == d1.get(key, t2).1);
}

/// `CLUSTER KEYSLOT` answers a slot for every key, and follows hash tags on
/// keys written as text: a key that holds `{tag}` after a prefix without
/// `{` (with `tag` non-empty and without `}`) gets the slot of `tag` itself,
/// whatever follows; the topology is left as it was.
pub proof fn lemma_keyslot_reply(t: TopologyView, prefix: Seq<char>, tag: Seq<char>, suffix: Seq<char>)
    requires
        forall|i: int| 0 <= i < prefix.len() ==> #[trigger] prefix[i] != '{',
        tag.len() > 0,
        forall|i: int| 0 <= i < tag.len() ==> #[trigger] tag[i] != '}',
    ensures
        cluster_step(SubView::KeySlot(prefix + seq!['{'] + tag + seq!['}'] + suffix), t) == (
            t,
            cluster_step(SubView::KeySlot(tag), t).1,
        ),
        cluster_step(SubView::KeySlot(tag), t).1 matches Frame::Integer(s) && 0 <= s < HASH_SLOTS,
{
    let p = encode_utf8(prefix);
    let g = encode_utf8(tag);
    let x = encode_utf8(suffix);
    assert(encode_utf8(seq!['{']) =~= seq![123u8]) by {
        assert(seq!['{'].drop_first() =~= Seq::<char>::empty());
        let c: u32 = '{' as u32;
        assert(c == 123u32);
        assert((c & 0x7F) as u8 == 123u8) by (bit_vector)
            requires
                c == 123u32,
        ;
        assert(encode_scalar(c) =~= seq![123u8]);
        assert(encode_utf8(Seq::<char>::empty()) =~= Seq::<u8>::empty());
        assert(encode_utf8(seq!['{']) == encode_scalar(seq!['{'][0] as u32) + encode_utf8(seq!['{'].drop_first()));
    }
    assert(encode_utf8(seq!['}']) =~= seq![125u8]) by {
        assert(seq!['}'].drop_first() =~= Seq::<char>::empty());
        let c: u32 = '}' as u32;
        assert(c == 125u32);
        assert((c & 0x7F) as u8 == 125u8) by (bit_vector)
            requires
                c == 125u32,
        ;
        assert(encode_scalar(c) =~= seq![125u8]);
        assert(encode_utf8(Seq::<char>::empty()) =~= Seq::<u8>::empty());
        assert(encode_utf8(seq!['}']) == encode_scalar(seq!['}'][0] as u32) + encode_utf8(seq!['}'].drop_first()));
    }
    lemma_encode_utf8_concat(prefix, seq!['{']);
    lemma_encode_utf8_concat(prefix + seq!['{'], tag);
    lemma_encode_utf8_concat(prefix + seq!['{'] + tag, seq!['}']);
    lemma_encode_utf8_concat(prefix + seq!['{'] + tag + seq!['}'], suffix);
    assert(encode_utf8(prefix + seq!['{'] + tag + seq!['}'] + suffix) =~= p + seq![123u8] + g + seq![125u8] + x);
    assert forall|i: int| 0 <= i < prefix.len() implies (#[trigger] prefix[i]) as u32 != 123u8 as u32 by {
        if prefix[i] as u32 == 123u32 {
            char_u32_cast(prefix[i], 123u32);
            char_u32_cast('{', 123u32);
        }
    }
    lemma_encode_utf8_ascii_byte(prefix, 123u8);
    assert forall|i: int| 0 <= i < tag.len() implies (#[trigger] tag[i]) as u32 != 125u8 as u32 by {
        if tag[i] as u32 == 125u32 {
            char_u32_cast(tag[i], 125u32);
            char_u32_cast('}', 125u32);
        }
    }
    lemma_encode_utf8_ascii_byte(tag, 125u8);
    lemma_encode_utf8_empty(tag);
    lemma_hashtag_colocation(p, g, x);
    lemma_key_slot_in_range(g);
}

proof fn lemma_del_all_clock(db: DbView, ks: Seq<Seq<char>>)
    ensures
        del_all(db, ks).0.clock == db.clock,
    decreases ks.len(),
{
    if ks.len() > 0 {
        lemma_del_all_clock(db.del(ks[0]).0, ks.skip(1));
    }
}

proof fn lemma_exists_all_clock(db: DbView, ks: Seq<Seq<char>>, now: u64)
    ensures
        exists_all(db, ks, now).0.clock == db.clock,
    decreases ks.len(),
{
    if ks.len() > 0 {
        lemma_exists_all_clock(db.get(ks[0], now).0, ks.skip(1), now);
    }
}

/// A command's effect on the store leaves the store's recorded clock
/// reading as it was.
pub proof fn lemma_db_step_clock(cmd: CmdView, db: DbView, now: u64)
    requires
        db.wf(),
    ensures
        db_step(cmd, db, now).clock == db.clock,
{
    match cmd {
        CmdView::SetValue(_, _, _) => {
            if db.max_memory > 0 {
                crate::storage::db::lemma_evict(db);
            }
        },
        CmdView::Del(ks) => lemma_del_all_clock(db, ks),
        CmdView::Exists(ks) => lemma_exists_all_clock(db, ks, now),
        _ => {},
    }
}

/// A client that sends `AUTH username password`, or `AUTH password`, with
/// the server's password is authenticated and answered `+OK`; the username
/// is never taken for the password.
pub proof fn lemma_auth_authenticates(name: Seq<char>, user: Seq<char>, pass: Seq<char>)
    requires
        ascii_upper(name) == "AUTH"@,
    ensures
        ({
            let three = Frame::Array(Some(seq![
                Frame::Bulk(Some(encode_utf8(name))),
                Frame::Bulk(Some(encode_utf8(user))),
                Frame::Bulk(Some(encode_utf8(pass))),
            ]));
            parse_command(three) matches Ok(c) && gate(c, Some(pass), false) == Some((ok_frame(), true))
        }),
        ({
            let two = Frame::Array(Some(seq![
                Frame::Bulk(Some(encode_utf8(name))),
                Frame::Bulk(Some(encode_utf8(pass))),
            ]));
            parse_command(two) matches Ok(c) && gate(c, Some(pass), false) == Some((ok_frame(), true))
        }),
{
    crate::commands::parse::lemma_auth_arguments(name, user, pass);
}
} // verus!
