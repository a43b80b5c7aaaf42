//! The replication state of a server: its role, the replication identifier
//! and offsets, and the channels of the replicas attached to it.
use tokio::sync::mpsc::UnboundedSender;
use vstd::prelude::*;
use crate::text::{decimal_string, decimal_text};

verus! {

#[verifier::external_type_specification]
#[verifier::external_body]
#[verifier::reject_recursive_types(T)]
pub struct ExUnboundedSender<T>(tokio::sync::mpsc::UnboundedSender<T>);

/// Trusted bridge to `UnboundedSender::send`: it reports whether the frame
/// was queued, which depends on whether the receiving connection is still
/// open; nothing is promised of that.
#[verifier::external_body]
fn send_frame(tx: &UnboundedSender<Vec<u8>>, frame: Vec<u8>) -> bool {
    tx.send(frame).is_ok()
}

/// Whether this server is a master or replicates one.
#[derive(Debug, Clone, PartialEq, Eq)]
pub enum ServerRole {
    Master,
    Replica { master_host: String, master_port: u16 },
}

/// The content of a role.
pub enum RoleView {
    Master,
    Replica(Seq<char>, u16),
}

impl View for ServerRole {
    type V = RoleView;

    open spec fn view(&self) -> RoleView {
        match self {
            ServerRole::Master => RoleView::Master,
            ServerRole::Replica { master_host, master_port } => RoleView::Replica(master_host@, *master_port),
        }
    }
}

/// Replication state.
pub struct ReplicationState {
    pub role: ServerRole,
    pub master_replid: String,
    pub master_repl_offset: u64,
    pub replica_bytes_processed: u64,
    pub connected_replicas: usize,
    pub downstream_senders: Vec<UnboundedSender<Vec<u8>>>,
    /// The channels the last forwarding handed a frame to, each with the
    /// frame it was handed (a record for the contracts; it takes no space).
    pub handed: Ghost<Seq<(UnboundedSender<Vec<u8>>, Seq<u8>)>>,
}

/// The content of a replication state.
pub struct ReplView {
    pub role: RoleView,
    pub replid: Seq<char>,
    pub offset: u64,
    pub processed: u64,
    pub connected: usize,
    pub downstream: Seq<UnboundedSender<Vec<u8>>>,
    /// The channels the last forwarding handed a frame to, in order, each
    /// with the frame it was handed.
    pub handed: Seq<(UnboundedSender<Vec<u8>>, Seq<u8>)>,
}

impl View for ReplicationState {
    type V = ReplView;

    open spec fn view(&self) -> ReplView {
        ReplView {
            role: self.role@,
            replid: self.master_replid@,
            offset: self.master_repl_offset,
            processed: self.replica_bytes_processed,
            connected: self.connected_replicas,
            downstream: self.downstream_senders@,
            handed: self.handed@,
        }
    }
}

/// The replication identifier a master uses when none is configured.
pub open spec fn default_replid() -> Seq<char> {
    "8371b4fb1155b71f4a04d3e1bc3e18c4a990aeeb"@
}

/// The `INFO replication` report.
pub open spec fn info_text(v: ReplView) -> Seq<char> {
    match v.role {
        RoleView::Master => "# Replication\r\nrole:master\r\nconnected_slaves:"@ + decimal_text(v.connected as nat)
            + "\r\nmaster_replid:"@ + v.replid + "\r\nmaster_repl_offset:"@ + decimal_text(v.offset as nat)
            + "\r\nsecond_repl_offset:-1\r\nrepl_backlog_active:0\r\n"@,
        RoleView::Replica(host, port) => "# Replication\r\nrole:slave\r\nmaster_host:"@ + host
            + "\r\nmaster_port:"@ + decimal_text(port as nat)
            + "\r\nmaster_link_status:up\r\nmaster_last_io_seconds_ago:0\r\nmaster_sync_in_progress:0\r\nslave_repl_offset:"@
            + decimal_text(v.processed as nat)
            + "\r\nslave_priority:100\r\nslave_read_only:1\r\nconnected_slaves:0\r\nmaster_replid:"@ + v.replid
            + "\r\n"@,
    }
}

/// `a + b` on 64 bits, wrapping.
pub open spec fn add_wrapping(a: u64, b: nat) -> u64 {
    if a + b > u64::MAX {
        (a + b - 0x1_0000_0000_0000_0000) as u64
    } else {
        (a + b) as u64
    }
}

/// The items of `items` whose flag in `accepted` is set, in their order.
pub open spec fn kept<T>(items: Seq<T>, accepted: Seq<bool>) -> Seq<T>
    decreases items.len(),
{
    if items.len() == 0 {
        Seq::empty()
    } else {
        let rest = kept(items.drop_last(), accepted.take(items.len() - 1));
        if accepted[items.len() - 1] {
            rest.push(items.last())
        } else {
            rest
        }
    }
}

/// The state after forwarding `raw` to the attached replicas: every channel
/// there was, in order, was handed a copy of `raw`; the offset grew by its
/// length (wrapping); and the channels kept are, in order, those that
/// accepted the copy (which ones did depends on whether their receivers were
/// still open).
pub open spec fn forwarded(before: ReplView, after: ReplView, raw: Seq<u8>) -> bool {
    &&& after.handed.len() == before.downstream.len()
    &&& forall|i: int| 0 <= i < before.downstream.len() ==> #[trigger] after.handed[i] == (before.downstream[i], raw)
    &&& after.offset == add_wrapping(before.offset, raw.len())
    &&& after.role == before.role
    &&& after.replid == before.replid
    &&& after.processed == before.processed
    &&& after.connected == before.connected
    &&& exists|acc: Seq<bool>|
        acc.len() == before.downstream.len() && after.downstream == #[trigger] kept(before.downstream, acc)
}

/// Hands `frame` to the channel `tx`, recording the handing; reports whether
/// the channel accepted it.
fn hand_frame(tx: &UnboundedSender<Vec<u8>>, frame: Vec<u8>, handed: &mut Ghost<Seq<(UnboundedSender<Vec<u8>>, Seq<u8>)>>) -> (r: bool)
    ensures
        final(handed)@ == old(handed)@.push((*tx, frame@)),
{
    *handed = Ghost(handed@.push((*tx, frame@)));
    send_frame(tx, frame)
}

/// Keeps the items whose flag in `accepted` is set, in their order.
pub fn keep_accepted<T>(items: Vec<T>, accepted: &Vec<bool>) -> (r: Vec<T>)
    requires
        items@.len() == accepted@.len(),
    ensures
        r@ == kept(items@, accepted@),
{
    let ghost orig = items@;
    let mut pending = items;
    let mut out: Vec<T> = Vec::new();
    let mut k: usize = 0;
    while k < accepted.len()
        invariant
            orig.len() == accepted@.len(),
            k <= orig.len(),
            pending@ == orig.skip(k as int),
            out@ == kept(orig.take(k as int), accepted@.take(k as int)),
        decreases orig.len() - k,
    {
        let item = pending.remove(0);
        proof {
            let t = orig.take(k + 1);
            assert(t.drop_last() =~= orig.take(k as int));
            assert(accepted@.take(k + 1).take(k as int) =~= accepted@.take(k as int));
            assert(t.last() == item);
        }
        if accepted[k] {
            out.push(item);
        }
        k = k + 1;
        assert(pending@ =~= orig.skip(k as int));
    }
    assert(orig.take(k as int) =~= orig);
    assert(accepted@.take(k as int) =~= accepted@);
    out
}

impl ReplicationState {
    /// A master with the given replication identifier, or the default one.
    pub fn new_master(replid: Option<String>) -> (r: Self)
        ensures
            r@.role == RoleView::Master,
            r@.replid == match replid {
                Some(id) => id@,
                None => default_replid(),
            },
            r@.offset == 0,
            r@.processed == 0,
            r@.connected == 0,
            r@.downstream.len() == 0,
            r@.handed.len() == 0,
    {
        let id = match replid {
            Some(id) => id,
            None => "8371b4fb1155b71f4a04d3e1bc3e18c4a990aeeb".to_owned(),
        };
        ReplicationState {
            role: ServerRole::Master,
            master_replid: id,
            master_repl_offset: 0,
            replica_bytes_processed: 0,
            connected_replicas: 0,
            downstream_senders: Vec::new(),
            handed: Ghost(Seq::empty()),
        }
    }

    /// A replica of the master at `master_host:master_port`; its replication
    /// identifier is unknown (`?`) until the master sends one.
    pub fn new_replica(master_host: String, master_port: u16) -> (r: Self)
        ensures
            r@.role == RoleView::Replica(master_host@, master_port),
            r@.replid == "?"@,
            r@.offset == 0,
            r@.processed == 0,
            r@.connected == 0,
            r@.downstream.len() == 0,
            r@.handed.len() == 0,
    {
        ReplicationState {
            role: ServerRole::Replica { master_host, master_port },
            master_replid: "?".to_owned(),
            master_repl_offset: 0,
            replica_bytes_processed: 0,
            connected_replicas: 0,
            downstream_senders: Vec::new(),
            handed: Ghost(Seq::empty()),
        }
    }

    /// This server replicates a master.
    pub fn is_replica(&self) -> (r: bool)
        ensures
            r == self@.role is Replica,
    {
        match self.role {
            ServerRole::Replica { .. } => true,
            ServerRole::Master => false,
        }
    }

    /// The replication identifier.
    pub fn get_replid(&self) -> (r: String)
        ensures
            r@ == self@.replid,
    {
        self.master_replid.clone()
    }

    /// Replaces the replication identifier.
    pub fn set_replid(&mut self, id: String)
        ensures
            final(self)@ == (ReplView { replid: id@, ..old(self)@ }),
    {
        self.master_replid = id;
    }

    /// The `INFO replication` report.
    pub fn info_replication(&self) -> (r: String)
        ensures
            r@ == info_text(self@),
    {
        match &self.role {
            ServerRole::Master => {
                let mut out = "# Replication\r\nrole:master\r\nconnected_slaves:".to_owned();
                let c = decimal_string(self.connected_replicas as u64);
                out.append(c.as_str());
                out.append("\r\nmaster_replid:");
                out.append(self.master_replid.as_str());
                out.append("\r\nmaster_repl_offset:");
                let o = decimal_string(self.master_repl_offset);
                out.append(o.as_str());
                out.append("\r\nsecond_repl_offset:-1\r\nrepl_backlog_active:0\r\n");
                out
            },
            ServerRole::Replica { master_host, master_port } => {
                let mut out = "# Replication\r\nrole:slave\r\nmaster_host:".to_owned();
                out.append(master_host.as_str());
                out.append("\r\nmaster_port:");
                let p = decimal_string(*master_port as u64);
                out.append(p.as_str());
                out.append(
                    "\r\nmaster_link_status:up\r\nmaster_last_io_seconds_ago:0\r\nmaster_sync_in_progress:0\r\nslave_repl_offset:",
                );
                let o = decimal_string(self.replica_bytes_processed);
                out.append(o.as_str());
                out.append("\r\nslave_priority:100\r\nslave_read_only:1\r\nconnected_slaves:0\r\nmaster_replid:");
                out.append(self.master_replid.as_str());
                out.append("\r\n");
                out
            },
        }
    }

    /// Counts `n` more bytes processed from the master's stream (wrapping)
    /// and returns the new count.
    pub fn record_processed(&mut self, n: usize) -> (r: u64)
        ensures
            r == add_wrapping(old(self)@.processed, n as nat),
            final(self)@ == (ReplView { processed: r, ..old(self)@ }),
    {
        self.replica_bytes_processed = self.replica_bytes_processed.wrapping_add(n as u64);
        self.replica_bytes_processed
    }

    /// Attaches a replica's channel; the count of connected replicas grows
    /// by one (wrapping).
    pub fn register_downstream(&mut self, tx: UnboundedSender<Vec<u8>>)
        ensures
            final(self)@ == (ReplView {
                connected: if old(self)@.connected == usize::MAX {
                    0
                } else {
                    (old(self)@.connected + 1) as usize
                },
                downstream: old(self)@.downstream.push(tx),
                ..old(self)@
            }),
    {
        self.downstream_senders.push(tx);
        self.connected_replicas = self.connected_replicas.wrapping_add(1);
    }

    /// Forwards a write command to every attached replica: each attached
    /// channel is handed a copy of `raw_resp`, the master offset grows by its
    /// length (wrapping), and the channels that refused the copy (their
    /// receiver is gone) are dropped, the others kept in order.
    pub fn propagate_downstream(&mut self, raw_resp: &[u8])
        ensures
            forwarded(old(self)@, final(self)@, raw_resp@),
    {
        let len = raw_resp.len() as u64;
        self.master_repl_offset = self.master_repl_offset.wrapping_add(len);
        let mut accepted: Vec<bool> = Vec::new();
        let mut handed: Ghost<Seq<(UnboundedSender<Vec<u8>>, Seq<u8>)>> = Ghost(Seq::empty());
        let mut i: usize = 0;
        while i < self.downstream_senders.len()
            invariant
                i <= self.downstream_senders@.len(),
                accepted@.len() == i,
                handed@.len() == i,
                forall|j: int| 0 <= j < i ==> #[trigger] handed@[j] == (self.downstream_senders@[j], raw_resp@),
            decreases self.downstream_senders@.len() - i,
        {
            let ok = hand_frame(&self.downstream_senders[i], vstd::slice::slice_to_vec(raw_resp), &mut handed);
            accepted.push(ok);
            i = i + 1;
        }
        self.handed = handed;
        let mut pending: Vec<UnboundedSender<Vec<u8>>> = Vec::new();
        std::mem::swap(&mut pending, &mut self.downstream_senders);
        self.downstream_senders = keep_accepted(pending, &accepted);
        assert(self.downstream_senders@ == kept(old(self)@.downstream, accepted@));
    }
}

} // verus!
