//! The cluster topology: known nodes and the owner of each hash slot, with
//! the text and RESP renderings of `CLUSTER INFO`, `CLUSTER NODES` and
//! `CLUSTER SLOTS`.
use std::sync::Arc;
use vstd::prelude::*;
use vstd::string::*;
use vstd::utf8::*;
use super::slot::HASH_SLOTS;
use crate::protocol::resp::{Frame, Value};
use crate::text::{
    decimal_string, decimal_text, first_index_of, int_error_message, int_error_text,
    parse_int_spec, parse_u16, split_char, split_once_char, split_text, trim, trim_text,
};

verus! {

/// A node of the cluster.
#[derive(Debug, PartialEq, Eq)]
pub struct ClusterNode {
    pub id: String,
    pub ip: String,
    pub port: u16,
    pub bus_port: u16,
    pub is_myself: bool,
    pub is_master: bool,
    pub slots: Vec<(u16, u16)>,
}

/// The content of a cluster node.
pub struct NodeView {
    pub id: Seq<char>,
    pub ip: Seq<char>,
    pub port: u16,
    pub bus_port: u16,
    pub is_myself: bool,
    pub is_master: bool,
    pub slots: Seq<(u16, u16)>,
}

impl View for ClusterNode {
    type V = NodeView;

    open spec fn view(&self) -> NodeView {
        NodeView {
            id: self.id@,
            ip: self.ip@,
            port: self.port,
            bus_port: self.bus_port,
            is_myself: self.is_myself,
            is_master: self.is_master,
            slots: self.slots@,
        }
    }
}

/// `ip:port`.
pub open spec fn endpoint_text(n: NodeView) -> Seq<char> {
    n.ip + ":"@ + decimal_text(n.port as nat)
}

fn copy_ranges(v: &Vec<(u16, u16)>) -> (r: Vec<(u16, u16)>)
    ensures
        r@ == v@,
{
    let mut r: Vec<(u16, u16)> = Vec::new();
    let mut i: usize = 0;
    while i < v.len()
        invariant
            i <= v@.len(),
            r@ == v@.take(i as int),
        decreases v@.len() - i,
    {
        r.push(v[i]);
        i = i + 1;
        assert(v@.take(i as int) =~= v@.take((i - 1) as int).push(v@[i - 1]));
    }
    assert(v@.take(i as int) =~= v@);
    r
}

impl Clone for ClusterNode {
    fn clone(&self) -> (r: Self)
        ensures
            r@ == self@,
    {
        ClusterNode {
            id: self.id.clone(),
            ip: self.ip.clone(),
            port: self.port,
            bus_port: self.bus_port,
            is_myself: self.is_myself,
            is_master: self.is_master,
            slots: copy_ranges(&self.slots),
        }
    }
}

impl ClusterNode {
    /// A node that owns no slot ranges yet.
    pub fn new(id: String, ip: String, port: u16, bus_port: u16, is_myself: bool, is_master: bool) -> (r: Self)
        ensures
            r@ == (NodeView { id: id@, ip: ip@, port, bus_port, is_myself, is_master, slots: Seq::empty() }),
    {
        ClusterNode { id, ip, port, bus_port, is_myself, is_master, slots: Vec::new() }
    }

    /// The `ip:port` address clients are redirected to.
    pub fn endpoint(&self) -> (r: String)
        ensures
            r@ == endpoint_text(self@),
    {
        let mut r = self.ip.clone();
        r.append(":");
        let p = decimal_string(self.port as u64);
        r.append(p.as_str());
        r
    }
}

/// Trusted bridge to `<Arc<T> as Clone>::clone`: the new handle points at the
/// same node.
#[verifier::external_body]
fn share(a: &Arc<ClusterNode>) -> (r: Arc<ClusterNode>)
    ensures
        r@ == a@,
{
    Arc::clone(a)
}

/// The known nodes and the owner recorded for each hash slot.
#[derive(Clone)]
pub struct ClusterTopology {
    nodes: Vec<Arc<ClusterNode>>,
    slot_to_node: Vec<Option<Arc<ClusterNode>>>,
    myself_id: String,
}

/// The content of a topology: the nodes (each identifier once), the node
/// recorded as owner of each slot, as it was when the slot was assigned, and
/// this node's identifier.
pub struct TopologyView {
    pub nodes: Seq<NodeView>,
    pub slots: Seq<Option<NodeView>>,
    pub myself_id: Seq<char>,
}

pub open spec fn opt_node_view(o: Option<Arc<ClusterNode>>) -> Option<NodeView> {
    match o {
        Some(a) => Some(a@),
        None => None,
    }
}

impl View for ClusterTopology {
    type V = TopologyView;

    closed spec fn view(&self) -> TopologyView {
        TopologyView {
            nodes: self.nodes@.map_values(|a: Arc<ClusterNode>| a@),
            slots: self.slot_to_node@.map_values(|o: Option<Arc<ClusterNode>>| opt_node_view(o)),
            myself_id: self.myself_id@,
        }
    }
}

/// Position of the node with identifier `id`.
pub open spec fn node_index(nodes: Seq<NodeView>, id: Seq<char>) -> Option<int> {
    if exists|i: int| 0 <= i < nodes.len() && #[trigger] nodes[i].id == id {
        Some(choose|i: int| 0 <= i < nodes.len() && #[trigger] nodes[i].id == id)
    } else {
        None
    }
}

pub proof fn lemma_node_index(nodes: Seq<NodeView>, id: Seq<char>)
    ensures
        match node_index(nodes, id) {
            Some(i) => 0 <= i < nodes.len() && nodes[i].id == id,
            None => forall|k: int| 0 <= k < nodes.len() ==> #[trigger] nodes[k].id != id,
        },
{
    if exists|i: int| 0 <= i < nodes.len() && #[trigger] nodes[i].id == id {
        let c = choose|i: int| 0 <= i < nodes.len() && #[trigger] nodes[i].id == id;
        assert(0 <= c < nodes.len() && nodes[c].id == id);
    }
}

impl TopologyView {
    /// Every identifier occurs once and every slot has an entry.
    pub open spec fn wf(self) -> bool {
        &&& self.slots.len() == HASH_SLOTS
        &&& forall|i: int, j: int| 0 <= i < j < self.nodes.len() ==> #[trigger] self.nodes[i].id != #[trigger] self.nodes[j].id
    }

    /// The node with identifier `id`, if known.
    pub open spec fn node(self, id: Seq<char>) -> Option<NodeView> {
        match node_index(self.nodes, id) {
            Some(i) => Some(self.nodes[i]),
            None => None,
        }
    }

    /// Adding a node: it replaces a node with the same identifier, or is
    /// appended.
    pub open spec fn with_node(self, n: NodeView) -> TopologyView {
        match node_index(self.nodes, n.id) {
            Some(i) => TopologyView { nodes: self.nodes.update(i, n), ..self },
            None => TopologyView { nodes: self.nodes.push(n), ..self },
        }
    }

    /// Assigning `start..=end` to node `id`: the slots record the node as it
    /// was, and the node then lists the range.
    pub open spec fn assign(self, id: Seq<char>, start: u16, end: u16) -> (TopologyView, Result<(), Seq<char>>) {
        if start > end || end >= HASH_SLOTS {
            (self, Err(invalid_range_text(start, end)))
        } else {
            match node_index(self.nodes, id) {
                None => (self, Err("Unknown node id "@ + id)),
                Some(i) => {
                    let n = self.nodes[i];
                    (
                        TopologyView {
                            nodes: self.nodes.update(i, NodeView { slots: n.slots.push((start, end)), ..n }),
                            slots: Seq::new(self.slots.len(), |s: int| if start <= s <= end { Some(n) } else { self.slots[s] }),
                            myself_id: self.myself_id,
                        },
                        Ok(()),
                    )
                },
            }
        }
    }

    /// The owner recorded for `slot`.
    pub open spec fn owner(self, slot: u16) -> Option<NodeView> {
        if (slot as int) < self.slots.len() {
            self.slots[slot as int]
        } else {
            None
        }
    }

    /// This node is the recorded owner of `slot`.
    pub open spec fn owns(self, slot: u16) -> bool {
        match self.owner(slot) {
            Some(n) => n.id == self.myself_id,
            None => false,
        }
    }
}

/// Assigning a valid range to a known node makes that node the recorded
/// owner of every slot in the range, so this node owns them exactly when it
/// is that node; every other slot keeps its owner.
pub proof fn lemma_assign_owner(t: TopologyView, id: Seq<char>, start: u16, end: u16, slot: u16)
    requires
        t.wf(),
        start <= end < HASH_SLOTS,
        t.node(id) is Some,
    ensures
        t.assign(id, start, end).1 is Ok,
        t.assign(id, start, end).0.wf(),
        start <= slot <= end ==> t.assign(id, start, end).0.owner(slot) == t.node(id)
            && (t.assign(id, start, end).0.owns(slot) <==> id == t.myself_id),
        !(start <= slot <= end) ==> t.assign(id, start, end).0.owner(slot) == t.owner(slot),
{
    lemma_node_index(t.nodes, id);
    let after = t.assign(id, start, end).0;
    assert forall|i: int, j: int| 0 <= i < j < after.nodes.len() implies #[trigger] after.nodes[i].id
        != #[trigger] after.nodes[j].id by {
        assert(t.nodes[i].id != t.nodes[j].id);
    }
}

pub open spec fn invalid_range_text(start: u16, end: u16) -> Seq<char> {
    "Invalid slot range "@ + decimal_text(start as nat) + "-"@ + decimal_text(end as nat)
}

impl ClusterTopology {
    pub closed spec fn inv(self) -> bool {
        &&& self@.wf()
        &&& self.slot_to_node@.len() == HASH_SLOTS
    }

    /// The invariant of a topology makes its content well formed, so the
    /// laws stated over well-formed contents apply to it.
    pub proof fn lemma_inv_wf(&self)
        requires
            self.inv(),
        ensures
            self@.wf(),
    {
    }

    /// A topology that knows only `myself` and has no slot assigned.
    pub fn new(myself: ClusterNode) -> (r: Self)
        ensures
            r.inv(),
            r@ == (TopologyView { nodes: seq![myself@], slots: Seq::new(HASH_SLOTS as nat, |s: int| None), myself_id: myself@.id }),
    {
        let myself_id = myself.id.clone();
        let mut nodes: Vec<Arc<ClusterNode>> = Vec::new();
        nodes.push(Arc::new(myself));
        let mut slot_to_node: Vec<Option<Arc<ClusterNode>>> = Vec::new();
        let mut i: usize = 0;
        while i < 16384
            invariant
                i <= 16384,
                slot_to_node@.len() == i,
                forall|k: int| 0 <= k < i ==> slot_to_node@[k] is None,
            decreases 16384 - i,
        {
            slot_to_node.push(None);
            i = i + 1;
        }
        let r = ClusterTopology { nodes, slot_to_node, myself_id };
        assert(r@.nodes =~= seq![myself@]);
        assert(r@.slots =~= Seq::new(HASH_SLOTS as nat, |s: int| None));
        r
    }

    fn find(&self, id: &str) -> (r: Option<usize>)
        requires
            self.inv(),
        ensures
            match node_index(self@.nodes, id@) {
                Some(i) => r matches Some(k) && k as int == i,
                None => r is None,
            },
    {
        let mut i: usize = 0;
        while i < self.nodes.len()
            invariant
                i <= self.nodes@.len(),
                self.inv(),
                forall|k: int| 0 <= k < i ==> #[trigger] self@.nodes[k].id != id@,
            decreases self.nodes@.len() - i,
        {
            assert(self@.nodes[i as int] == self.nodes@[i as int]@);
            if crate::text::str_eq(self.nodes[i].id.as_str(), id) {
                assert(self@.nodes[i as int].id == id@);
                proof {
                    let c = choose|k: int| 0 <= k < self@.nodes.len() && #[trigger] self@.nodes[k].id == id@;
                    if c != i {
                        if c < i {
                            assert(self@.nodes[c].id != id@);
                        } else {
                            assert(self@.nodes[i as int].id != self@.nodes[c].id);
                        }
                    }
                }
                return Some(i);
            }
            i = i + 1;
        }
        None
    }

    /// The node that is this server, if it is still known.
    pub fn myself(&self) -> (r: Option<Arc<ClusterNode>>)
        requires
            self.inv(),
        ensures
            opt_node_view(r) == self@.node(self@.myself_id),
    {
        match self.find(self.myself_id.as_str()) {
            Some(i) => {
                proof {
                    lemma_node_index(self@.nodes, self@.myself_id);
                }
                assert(self@.nodes[i as int] == self.nodes@[i as int]@);
                let r = Some(share(&self.nodes[i]));
                assert(self@.node(self@.myself_id) == Some(self@.nodes[i as int]));
                r
            },
            None => None,
        }
    }

    /// Registers a node; a node with the same identifier is replaced.
    pub fn add_node(&mut self, node: ClusterNode)
        requires
            old(self).inv(),
        ensures
            final(self).inv(),
            final(self)@ == old(self)@.with_node(node@),
    {
        let ghost n = node@;
        proof {
            lemma_node_index(self@.nodes, n.id);
        }
        match self.find(node.id.as_str()) {
            Some(i) => {
                self.nodes.set(i, Arc::new(node));
                assert(self@.nodes =~= old(self)@.nodes.update(i as int, n));
                assert(self@.slots =~= old(self)@.slots);
                assert(node.id@ == n.id);
                assert(node_index(old(self)@.nodes, n.id) is Some);
                assert(node_index(old(self)@.nodes, n.id) == Some(i as int));
                assert(old(self)@.nodes[i as int].id == n.id);
                assert forall|a: int, b: int| 0 <= a < b < self@.nodes.len() implies #[trigger] self@.nodes[a].id != #[trigger] self@.nodes[b].id by {
                    assert(old(self)@.nodes[a].id != old(self)@.nodes[b].id);
                }
            },
            None => {
                self.nodes.push(Arc::new(node));
                assert(self@.nodes =~= old(self)@.nodes.push(n));
                assert(self@.slots =~= old(self)@.slots);
                assert forall|a: int, b: int| 0 <= a < b < self@.nodes.len() implies #[trigger] self@.nodes[a].id != #[trigger] self@.nodes[b].id by {
                    if b == old(self)@.nodes.len() {
                        assert(old(self)@.nodes[a].id != n.id);
                    } else {
                        assert(old(self)@.nodes[a].id != old(self)@.nodes[b].id);
                    }
                }
            },
        }
    }
}


/// The text of a `Result<(), String>`.
pub open spec fn result_text(r: Result<(), String>) -> Result<(), Seq<char>> {
    match r {
        Ok(()) => Ok(()),
        Err(m) => Err(m@),
    }
}

/// A slot number written in a slots specification (`u16` syntax).
pub open spec fn parse_slot(text: Seq<char>) -> Result<u16, Seq<char>> {
    match parse_int_spec(encode_utf8(text), 0, 65535) {
        Ok(v) => Ok(v as u16),
        Err(k) => Err(int_error_text(k)),
    }
}

/// The range named by one (trimmed, non-empty) part of a slots
/// specification: `start-end` or a single slot.
pub open spec fn slot_bounds(part: Seq<char>) -> Result<(u16, u16), Seq<char>> {
    match first_index_of(part, '-') {
        Some(i) => match parse_slot(trim_text(part.take(i))) {
            Err(m) => Err(m),
            Ok(a) => match parse_slot(trim_text(part.skip(i + 1))) {
                Err(m) => Err(m),
                Ok(b) => Ok((a, b)),
            },
        },
        None => match parse_slot(part) {
            Err(m) => Err(m),
            Ok(v) => Ok((v, v)),
        },
    }
}

/// Assigns the ranges of the comma-separated parts in order, stopping at the
/// first error (the ranges assigned before it stay assigned).
pub open spec fn assign_parts(t: TopologyView, id: Seq<char>, parts: Seq<Seq<char>>) -> (TopologyView, Result<(), Seq<char>>)
    decreases parts.len(),
{
    if parts.len() == 0 {
        (t, Ok(()))
    } else {
        let part = trim_text(parts[0]);
        if part.len() == 0 {
            assign_parts(t, id, parts.drop_first())
        } else {
            let (t2, r) = assign_part(t, id, part);
            match r {
                Err(m) => (t2, Err(m)),
                Ok(_) => assign_parts(t2, id, parts.drop_first()),
            }
        }
    }
}

/// Assigns the range named by one trimmed, non-empty part.
pub open spec fn assign_part(t: TopologyView, id: Seq<char>, part: Seq<char>) -> (TopologyView, Result<(), Seq<char>>) {
    match slot_bounds(part) {
        Err(m) => (t, Err(m)),
        Ok((a, b)) => t.assign(id, a, b),
    }
}

fn parse_slot_exec(text: &str) -> (r: Result<u16, String>)
    ensures
        match parse_slot(text@) {
            Ok(v) => r == Ok::<u16, String>(v),
            Err(m) => r matches Err(e) && e@ == m,
        },
{
    match parse_u16(text.as_bytes()) {
        Ok(v) => Ok(v),
        Err(k) => Err(int_error_message(k)),
    }
}

impl ClusterTopology {
    /// Assigns the slots `start..=end` to the node `node_id`.
    pub fn add_slots_range(&mut self, node_id: &str, start: u16, end: u16) -> (r: Result<(), String>)
        requires
            old(self).inv(),
        ensures
            final(self).inv(),
            (final(self)@, result_text(r)) == old(self)@.assign(node_id@, start, end),
    {
        if start > end || end >= HASH_SLOTS {
            let mut m = "Invalid slot range ".to_owned();
            let a = decimal_string(start as u64);
            m.append(a.as_str());
            m.append("-");
            let b = decimal_string(end as u64);
            m.append(b.as_str());
            return Err(m);
        }
        proof {
            lemma_node_index(self@.nodes, node_id@);
        }
        let idx = match self.find(node_id) {
            None => {
                let mut m = "Unknown node id ".to_owned();
                m.append(node_id);
                return Err(m);
            },
            Some(i) => i,
        };
        let ghost n = self@.nodes[idx as int];
        let node = share(&self.nodes[idx]);
        assert(node@ == n);
        let ghost before = self@;
        let mut s: usize = start as usize;
        while s <= end as usize
            invariant
                start as int <= s <= end as int + 1,
                end < HASH_SLOTS,
                node@ == n,
                self.slot_to_node@.len() == HASH_SLOTS,
                self.nodes == old(self).nodes,
                self.myself_id == old(self).myself_id,
                forall|k: int| 0 <= k < HASH_SLOTS ==> #[trigger] opt_node_view(self.slot_to_node@[k]) == if start <= k < s {
                    Some(n)
                } else {
                    before.slots[k]
                },
            decreases end as int + 1 - s,
        {
            self.slot_to_node.set(s, Some(share(&node)));
            s = s + 1;
        }
        let mut updated = ClusterNode::clone(&self.nodes[idx]);
        updated.slots.push((start, end));
        self.nodes.set(idx, Arc::new(updated));
        proof {
            let (after, res) = before.assign(node_id@, start, end);
            assert(self@.slots =~= after.slots);
            assert(self@.nodes =~= after.nodes);
            assert forall|a: int, b: int| 0 <= a < b < self@.nodes.len() implies #[trigger] self@.nodes[a].id != #[trigger] self@.nodes[b].id by {
                assert(before.nodes[a].id != before.nodes[b].id);
            }
        }
        Ok(())
    }

    /// The node recorded as owner of `slot`.
    pub fn get_node_for_slot(&self, slot: u16) -> (r: Option<Arc<ClusterNode>>)
        requires
            self.inv(),
        ensures
            opt_node_view(r) == self@.owner(slot),
    {
        if (slot as usize) < self.slot_to_node.len() {
            match &self.slot_to_node[slot as usize] {
                Some(a) => Some(share(a)),
                None => None,
            }
        } else {
            None
        }
    }

    /// This node is the recorded owner of `slot`.
    pub fn owns_slot(&self, slot: u16) -> (r: bool)
        requires
            self.inv(),
        ensures
            r == self@.owns(slot),
    {
        match self.get_node_for_slot(slot) {
            Some(owner) => crate::text::str_eq(owner.id.as_str(), self.myself_id.as_str()),
            None => false,
        }
    }

    fn assign_part_exec(&mut self, node_id: &str, part: &str) -> (r: Result<(), String>)
        requires
            old(self).inv(),
        ensures
            final(self).inv(),
            (final(self)@, result_text(r)) == assign_part(old(self)@, node_id@, part@),
    {
        let bounds = match split_once_char(part, '-') {
            Some((a, b)) => {
                let ghost k = first_index_of(part@, '-')->Some_0;
                assert(first_index_of(part@, '-') is Some);
                assert(a@ == part@.take(k) && b@ == part@.skip(k + 1));
                let first = match parse_slot_exec(trim(a)) {
                    Ok(v) => v,
                    Err(m) => {
                        return Err(m);
                    },
                };
                let second = match parse_slot_exec(trim(b)) {
                    Ok(v) => v,
                    Err(m) => {
                        return Err(m);
                    },
                };
                (first, second)
            },
            None => {
                let single = match parse_slot_exec(part) {
                    Ok(v) => v,
                    Err(m) => {
                        return Err(m);
                    },
                };
                (single, single)
            },
        };
        assert(slot_bounds(part@) == Ok::<(u16, u16), Seq<char>>(bounds));
        self.add_slots_range(node_id, bounds.0, bounds.1)
    }

    fn assign_from(&mut self, node_id: &str, parts: &Vec<&str>, i: usize) -> (r: Result<(), String>)
        requires
            old(self).inv(),
            i <= parts@.len(),
        ensures
            final(self).inv(),
            (final(self)@, result_text(r)) == assign_parts(
                old(self)@,
                node_id@,
                parts@.skip(i as int).map_values(|p: &str| p@),
            ),
        decreases parts@.len() - i,
    {
        let ghost rest = parts@.skip(i as int).map_values(|p: &str| p@);
        if i >= parts.len() {
            assert(rest.len() == 0);
            return Ok(());
        }
        assert(rest[0] == parts@[i as int]@);
        assert(rest.drop_first() =~= parts@.skip(i + 1).map_values(|p: &str| p@));
        let part = trim(parts[i]);
        if part.is_empty() {
            return self.assign_from(node_id, parts, i + 1);
        }
        match self.assign_part_exec(node_id, part) {
            Ok(()) => self.assign_from(node_id, parts, i + 1),
            Err(m) => Err(m),
        }
    }

    /// Assigns the slots of a specification such as `0-5460,5461,5462-10000`
    /// to `node_id`: comma-separated parts, each trimmed, empty parts skipped,
    /// each part a range `start-end` or a single slot.
    pub fn parse_and_assign_slots(&mut self, node_id: &str, spec: &str) -> (r: Result<(), String>)
        requires
            old(self).inv(),
        ensures
            final(self).inv(),
            (final(self)@, result_text(r)) == assign_parts(old(self)@, node_id@, split_text(spec@, ',')),
    {
        let parts = split_char(spec, ',');
        assert(parts@.skip(0).map_values(|p: &str| p@) =~= split_text(spec@, ','));
        self.assign_from(node_id, &parts, 0)
    }
}


/// Number of slots that have an owner.
pub open spec fn count_assigned(slots: Seq<Option<NodeView>>) -> nat
    decreases slots.len(),
{
    if slots.len() == 0 {
        0
    } else {
        count_assigned(slots.drop_last()) + if slots.last() is Some {
            1nat
        } else {
            0nat
        }
    }
}

/// Number of master nodes.
pub open spec fn count_masters(nodes: Seq<NodeView>) -> nat
    decreases nodes.len(),
{
    if nodes.len() == 0 {
        0
    } else {
        count_masters(nodes.drop_last()) + if nodes.last().is_master {
            1nat
        } else {
            0nat
        }
    }
}

/// The `CLUSTER INFO` text.
pub open spec fn cluster_info_text(t: TopologyView) -> Seq<char> {
    let a = count_assigned(t.slots);
    "cluster_state:"@ + (if a == HASH_SLOTS as nat {
        "ok"@
    } else {
        "fail"@
    }) + "\r\ncluster_slots_assigned:"@ + decimal_text(a) + "\r\ncluster_slots_ok:"@ + decimal_text(a)
        + "\r\ncluster_slots_pfail:0\r\ncluster_slots_fail:0\r\ncluster_known_nodes:"@ + decimal_text(t.nodes.len())
        + "\r\ncluster_size:"@ + decimal_text(count_masters(t.nodes))
        + "\r\ncluster_current_epoch:1\r\ncluster_my_epoch:1\r\ncluster_stats_messages_sent:0\r\ncluster_stats_messages_received:0\r\n"@
}

/// The role flags of a node in `CLUSTER NODES`.
pub open spec fn flags_text(n: NodeView) -> Seq<char> {
    if n.is_myself {
        if n.is_master {
            "myself,master"@
        } else {
            "myself,slave"@
        }
    } else if n.is_master {
        "master"@
    } else {
        "slave"@
    }
}

/// A slot range: `start` alone when it is a single slot, else `start-end`.
pub open spec fn range_text(r: (u16, u16)) -> Seq<char> {
    if r.0 == r.1 {
        decimal_text(r.0 as nat)
    } else {
        decimal_text(r.0 as nat) + "-"@ + decimal_text(r.1 as nat)
    }
}

/// Slot ranges separated by spaces.
pub open spec fn ranges_text(rs: Seq<(u16, u16)>) -> Seq<char>
    decreases rs.len(),
{
    if rs.len() == 0 {
        Seq::empty()
    } else if rs.len() == 1 {
        range_text(rs[0])
    } else {
        ranges_text(rs.drop_last()) + " "@ + range_text(rs.last())
    }
}

/// One line of `CLUSTER NODES`.
pub open spec fn node_line(n: NodeView) -> Seq<char> {
    n.id + " "@ + n.ip + ":"@ + decimal_text(n.port as nat) + "@"@ + decimal_text(n.bus_port as nat) + " "@
        + flags_text(n) + " - 0 0 1 connected"@ + (if n.slots.len() > 0 {
        " "@ + ranges_text(n.slots)
    } else {
        Seq::empty()
    }) + "\r\n"@
}

/// The `CLUSTER NODES` text: one line per node, in the topology's order.
pub open spec fn nodes_text(nodes: Seq<NodeView>) -> Seq<char>
    decreases nodes.len(),
{
    if nodes.len() == 0 {
        Seq::empty()
    } else {
        nodes_text(nodes.drop_last()) + node_line(nodes.last())
    }
}

impl ClusterTopology {
    /// The `CLUSTER INFO` report.
    pub fn format_cluster_info(&self) -> (r: String)
        requires
            self.inv(),
        ensures
            r@ == cluster_info_text(self@),
    {
        let mut assigned: usize = 0;
        let mut i: usize = 0;
        while i < self.slot_to_node.len()
            invariant
                i <= self.slot_to_node@.len(),
                self.inv(),
                assigned <= i,
                assigned == count_assigned(self@.slots.take(i as int)),
            decreases self.slot_to_node@.len() - i,
        {
            assert(self@.slots.take(i + 1).drop_last() =~= self@.slots.take(i as int));
            if self.slot_to_node[i].is_some() {
                assigned = assigned + 1;
            }
            i = i + 1;
        }
        assert(self@.slots.take(i as int) =~= self@.slots);
        let mut masters: usize = 0;
        let mut k: usize = 0;
        while k < self.nodes.len()
            invariant
                k <= self.nodes@.len(),
                self.inv(),
                masters <= k,
                masters == count_masters(self@.nodes.take(k as int)),
            decreases self.nodes@.len() - k,
        {
            assert(self@.nodes.take(k + 1).drop_last() =~= self@.nodes.take(k as int));
            assert(self@.nodes[k as int] == self.nodes@[k as int]@);
            if self.nodes[k].is_master {
                masters = masters + 1;
            }
            k = k + 1;
        }
        assert(self@.nodes.take(k as int) =~= self@.nodes);
        let mut out = "cluster_state:".to_owned();
        if assigned == 16384 {
            out.append("ok");
        } else {
            out.append("fail");
        }
        out.append("\r\ncluster_slots_assigned:");
        let a = decimal_string(assigned as u64);
        out.append(a.as_str());
        out.append("\r\ncluster_slots_ok:");
        out.append(a.as_str());
        out.append("\r\ncluster_slots_pfail:0\r\ncluster_slots_fail:0\r\ncluster_known_nodes:");
        let known = decimal_string(self.nodes.len() as u64);
        out.append(known.as_str());
        out.append("\r\ncluster_size:");
        let m = decimal_string(masters as u64);
        out.append(m.as_str());
        out.append(
            "\r\ncluster_current_epoch:1\r\ncluster_my_epoch:1\r\ncluster_stats_messages_sent:0\r\ncluster_stats_messages_received:0\r\n",
        );
        out
    }

    /// The `CLUSTER NODES` report.
    pub fn format_cluster_nodes(&self) -> (r: String)
        requires
            self.inv(),
        ensures
            r@ == nodes_text(self@.nodes),
    {
        let mut out = String::new();
        let mut k: usize = 0;
        while k < self.nodes.len()
            invariant
                k <= self.nodes@.len(),
                self.inv(),
                out@ == nodes_text(self@.nodes.take(k as int)),
            decreases self.nodes@.len() - k,
        {
            assert(self@.nodes.take(k + 1).drop_last() =~= self@.nodes.take(k as int));
            assert(self@.nodes[k as int] == self.nodes@[k as int]@);
            let line = node_line_string(&self.nodes[k]);
            out.append(line.as_str());
            k = k + 1;
        }
        assert(self@.nodes.take(k as int) =~= self@.nodes);
        out
    }
}

fn range_string(r: (u16, u16)) -> (s: String)
    ensures
        s@ == range_text(r),
{
    let mut s = decimal_string(r.0 as u64);
    if r.0 != r.1 {
        s.append("-");
        let e = decimal_string(r.1 as u64);
        s.append(e.as_str());
    }
    s
}

fn node_line_string(n: &ClusterNode) -> (s: String)
    ensures
        s@ == node_line(n@),
{
    let mut s = n.id.clone();
    s.append(" ");
    s.append(n.ip.as_str());
    s.append(":");
    let p = decimal_string(n.port as u64);
    s.append(p.as_str());
    s.append("@");
    let b = decimal_string(n.bus_port as u64);
    s.append(b.as_str());
    s.append(" ");
    if n.is_myself {
        if n.is_master {
            s.append("myself,master");
        } else {
            s.append("myself,slave");
        }
    } else if n.is_master {
        s.append("master");
    } else {
        s.append("slave");
    }
    s.append(" - 0 0 1 connected");
    let ghost before = s@;
    if n.slots.len() > 0 {
        let mut joined = String::new();
        let mut i: usize = 0;
        while i < n.slots.len()
            invariant
                i <= n.slots@.len(),
                joined@ == ranges_text(n.slots@.take(i as int)),
            decreases n.slots@.len() - i,
        {
            assert(n.slots@.take(i + 1).drop_last() =~= n.slots@.take(i as int));
            if i > 0 {
                joined.append(" ");
            }
            let t = range_string(n.slots[i]);
            joined.append(t.as_str());
            i = i + 1;
        }
        assert(n.slots@.take(i as int) =~= n.slots@);
        s.append(" ");
        s.append(joined.as_str());
    }
    s.append("\r\n");
    s
}


/// Slot `j` is recorded for the node with identifier `id`.
pub open spec fn slot_held_by(slots: Seq<Option<NodeView>>, j: int, id: Seq<char>) -> bool {
    0 <= j < slots.len() && slots[j] is Some && slots[j]->Some_0.id == id
}

/// Last slot of the run that starts at `i` and stays with the node `id`.
pub open spec fn run_end(slots: Seq<Option<NodeView>>, i: int, id: Seq<char>) -> int
    decreases slots.len() - i,
{
    if 0 <= i && slot_held_by(slots, i + 1, id) {
        run_end(slots, i + 1, id)
    } else {
        i
    }
}

pub proof fn lemma_run_end(slots: Seq<Option<NodeView>>, i: int, id: Seq<char>)
    requires
        0 <= i < slots.len(),
    ensures
        i <= run_end(slots, i, id) < slots.len(),
    decreases slots.len() - i,
{
    if slot_held_by(slots, i + 1, id) {
        lemma_run_end(slots, i + 1, id);
    }
}

/// The maximal runs of consecutive slots owned by one node, from slot `from`
/// on: first slot, last slot and the node recorded for the first slot.
pub open spec fn slot_ranges(slots: Seq<Option<NodeView>>, from: int) -> Seq<(int, int, NodeView)>
    decreases slots.len() - from,
{
    if from < 0 || from >= slots.len() {
        Seq::empty()
    } else {
        match slots[from] {
            None => slot_ranges(slots, from + 1),
            Some(n) => {
                proof {
                    lemma_run_end(slots, from, n.id);
                }
                seq![(from, run_end(slots, from, n.id), n)] + slot_ranges(slots, run_end(slots, from, n.id) + 1)
            },
        }
    }
}

/// One entry of `CLUSTER SLOTS`: first slot, last slot, and the owner's
/// address and identifier.
pub open spec fn range_frame(r: (int, int, NodeView)) -> Frame {
    Frame::Array(Some(seq![
        Frame::Integer(r.0),
        Frame::Integer(r.1),
        Frame::Array(Some(seq![
            Frame::Bulk(Some(encode_utf8(r.2.ip))),
            Frame::Integer(r.2.port as int),
            Frame::Bulk(Some(encode_utf8(r.2.id))),
        ])),
    ]))
}

/// The `CLUSTER SLOTS` reply.
pub open spec fn cluster_slots_frame(t: TopologyView) -> Frame {
    Frame::Array(Some(slot_ranges(t.slots, 0).map_values(|r: (int, int, NodeView)| range_frame(r))))
}

fn range_value(start: usize, end: usize, node: &ClusterNode) -> (v: Value)
    requires
        start < 16384,
        end < 16384,
    ensures
        v@ == range_frame((start as int, end as int, node@)),
{
    let mut master: Vec<Value> = Vec::new();
    master.push(Value::string(node.ip.as_str()));
    master.push(Value::Integer(node.port as i64));
    master.push(Value::string(node.id.as_str()));
    let mut entry: Vec<Value> = Vec::new();
    entry.push(Value::Integer(start as i64));
    entry.push(Value::Integer(end as i64));
    proof {
        crate::protocol::resp::lemma_frames_of(master@);
        assert(crate::protocol::resp::frames_of(master@) =~= seq![
            Frame::Bulk(Some(encode_utf8(node@.ip))),
            Frame::Integer(node.port as int),
            Frame::Bulk(Some(encode_utf8(node@.id))),
        ]);
    }
    entry.push(Value::Array(Some(master)));
    proof {
        crate::protocol::resp::lemma_frames_of(entry@);
        assert(crate::protocol::resp::frames_of(entry@) =~= seq![
            Frame::Integer(start as int),
            Frame::Integer(end as int),
            Frame::Array(Some(seq![
                Frame::Bulk(Some(encode_utf8(node@.ip))),
                Frame::Integer(node.port as int),
                Frame::Bulk(Some(encode_utf8(node@.id))),
            ])),
        ]);
    }
    Value::Array(Some(entry))
}

impl ClusterTopology {
    fn holds_slot(&self, j: usize, id: &str) -> (r: bool)
        requires
            self.inv(),
            j < 16384,
        ensures
            r == slot_held_by(self@.slots, j as int, id@),
    {
        assert(self@.slots[j as int] == opt_node_view(self.slot_to_node@[j as int]));
        match &self.slot_to_node[j] {
            Some(next) => crate::text::str_eq(next.id.as_str(), id),
            None => false,
        }
    }

    /// The `CLUSTER SLOTS` reply: for each maximal run of consecutive slots
    /// owned by one node, its first and last slot and the owner.
    pub fn format_cluster_slots(&self) -> (r: Value)
        requires
            self.inv(),
        ensures
            r@ == cluster_slots_frame(self@),
    {
        let ghost slots = self@.slots;
        let ghost all = slot_ranges(slots, 0);
        let mut out: Vec<Value> = Vec::new();
        let ghost mut done: Seq<(int, int, NodeView)> = Seq::empty();
        let mut i: usize = 0;
        while i < 16384
            invariant
                i <= 16384,
                self.inv(),
                slots == self@.slots,
                all == slot_ranges(slots, 0),
                all == done + slot_ranges(slots, i as int),
                crate::protocol::resp::frames_of(out@) == done.map_values(|r: (int, int, NodeView)| range_frame(r)),
            decreases 16384 - i,
        {
            assert(slots[i as int] == opt_node_view(self.slot_to_node@[i as int]));
            match &self.slot_to_node[i] {
                None => {
                    i = i + 1;
                },
                Some(node) => {
                    let ghost n = node@;
                    let mut j: usize = i;
                    while j + 1 < 16384 && self.holds_slot(j + 1, node.id.as_str())
                        invariant
                            i <= j < 16384,
                            self.inv(),
                            slots == self@.slots,
                            node@ == n,
                            run_end(slots, i as int, n.id) == run_end(slots, j as int, n.id),
                        decreases 16384 - j,
                    {
                        assert(slots[j + 1] == opt_node_view(self.slot_to_node@[j + 1]));
                        j = j + 1;
                    }
                    proof {
                        if j + 1 < 16384 {
                            assert(slots[j + 1] == opt_node_view(self.slot_to_node@[j + 1]));
                        }
                        assert(run_end(slots, j as int, n.id) == j);
                        lemma_run_end(slots, i as int, n.id);
                    }
                    let v = range_value(i, j, node);
                    proof {
                        crate::protocol::resp::lemma_frames_push(out@, v);
                        let item = (i as int, j as int, n);
                        assert(slot_ranges(slots, i as int) == seq![item] + slot_ranges(slots, j + 1));
                        assert(done + slot_ranges(slots, i as int) =~= done.push(item) + slot_ranges(slots, j + 1));
                        assert(done.push(item).map_values(|r: (int, int, NodeView)| range_frame(r))
                            =~= done.map_values(|r: (int, int, NodeView)| range_frame(r)).push(range_frame(item)));
                        done = done.push(item);
                    }
                    out.push(v);
                    i = j + 1;
                },
            }
        }
        assert(slot_ranges(slots, 16384) == Seq::<(int, int, NodeView)>::empty());
        assert(done =~= all);
        Value::Array(Some(out))
    }
}


/// One change to a topology: registering a node, or assigning a slot range
/// to a node.
pub enum TopologyStep {
    AddNode(NodeView),
    AssignRange(Seq<char>, u16, u16),
}

impl TopologyView {
    /// The topology after one change.
    pub open spec fn step(self, op: TopologyStep) -> TopologyView {
        match op {
            TopologyStep::AddNode(n) => self.with_node(n),
            TopologyStep::AssignRange(id, a, b) => self.assign(id, a, b).0,
        }
    }
}

/// The topology after a sequence of changes, in order.
pub open spec fn apply_steps(t: TopologyView, ops: Seq<TopologyStep>) -> TopologyView
    decreases ops.len(),
{
    if ops.len() == 0 {
        t
    } else {
        apply_steps(t, ops.drop_last()).step(ops.last())
    }
}

/// Assignments of `rs` to node `id`, in order.
pub open spec fn assign_all(id: Seq<char>, rs: Seq<(u16, u16)>) -> Seq<TopologyStep> {
    rs.map_values(|r: (u16, u16)| TopologyStep::AssignRange(id, r.0, r.1))
}

/// The identifier of a recorded owner.
pub open spec fn owner_id(o: Option<NodeView>) -> Option<Seq<char>> {
    match o {
        Some(n) => Some(n.id),
        None => None,
    }
}

/// The node named by the last of `ops` that assigned a range holding `slot`
/// and succeeded, or, where none did, the owner `t` recorded.
pub open spec fn last_assigned(t: TopologyView, ops: Seq<TopologyStep>, slot: u16) -> Option<Seq<char>>
    decreases ops.len(),
{
    if ops.len() == 0 {
        owner_id(t.owner(slot))
    } else {
        let prev = apply_steps(t, ops.drop_last());
        match ops.last() {
            TopologyStep::AssignRange(id, a, b) => if prev.assign(id, a, b).1 is Ok && a <= slot <= b {
                Some(id)
            } else {
                last_assigned(t, ops.drop_last(), slot)
            },
            TopologyStep::AddNode(_) => last_assigned(t, ops.drop_last(), slot),
        }
    }
}

proof fn lemma_node_index_at(nodes: Seq<NodeView>, i: int)
    requires
        0 <= i < nodes.len(),
        forall|a: int, b: int| 0 <= a < b < nodes.len() ==> #[trigger] nodes[a].id != #[trigger] nodes[b].id,
    ensures
        node_index(nodes, nodes[i].id) == Some(i),
{
    lemma_node_index(nodes, nodes[i].id);
    let c = node_index(nodes, nodes[i].id)->Some_0;
    if c < i {
        assert(nodes[c].id != nodes[i].id);
    } else if c > i {
        assert(nodes[i].id != nodes[c].id);
    }
}

/// Registering a node keeps a topology well formed, its owners and this
/// node's identifier; the node is then known, under its identifier alone,
/// every other identifier names what it named, and the count of nodes grows
/// by one exactly when the identifier was new. The node list text holds the
/// node's line in its place.
pub proof fn lemma_add_node(t: TopologyView, n: NodeView)
    requires
        t.wf(),
    ensures
        t.with_node(n).wf(),
        t.with_node(n).myself_id == t.myself_id,
        t.with_node(n).nodes.len() == t.nodes.len() + if t.node(n.id) is Some {
            0int
        } else {
            1int
        },
        t.with_node(n).node(n.id) == Some(n),
        forall|id: Seq<char>| id != n.id ==> #[trigger] t.with_node(n).node(id) == t.node(id),
        forall|s: u16| #[trigger] t.with_node(n).owner(s) == t.owner(s) && t.with_node(n).owns(s) == t.owns(s),
        exists|i: int|
            0 <= i < t.with_node(n).nodes.len() && t.with_node(n).nodes[i] == n
                && (forall|k: int| 0 <= k < t.with_node(n).nodes.len() && k != i ==> #[trigger] t.with_node(n).nodes[k].id != n.id)
                && nodes_text(t.with_node(n).nodes) == nodes_text(t.with_node(n).nodes.take(i)) + node_line(n)
                    + nodes_text(t.with_node(n).nodes.skip(i + 1)),
{
    let after = t.with_node(n);
    lemma_node_index(t.nodes, n.id);
    let i: int = match node_index(t.nodes, n.id) {
        Some(j) => j,
        None => t.nodes.len() as int,
    };
    assert(after.nodes[i] == n);
    assert forall|a: int, b: int| 0 <= a < b < after.nodes.len() implies #[trigger] after.nodes[a].id
        != #[trigger] after.nodes[b].id by {
        if a != i && b != i {
            assert(t.nodes[a].id != t.nodes[b].id);
        }
    }
    lemma_node_index_at(after.nodes, i);
    assert forall|id: Seq<char>| id != n.id implies #[trigger] after.node(id) == t.node(id) by {
        lemma_node_index(t.nodes, id);
        lemma_node_index(after.nodes, id);
        match node_index(t.nodes, id) {
            Some(j) => {
                assert(after.nodes[j] == t.nodes[j]);
                lemma_node_index_at(after.nodes, j);
            },
            None => {
                match node_index(after.nodes, id) {
                    Some(k) => {
                        assert(k != i);
                        assert(t.nodes[k].id == id);
                    },
                    None => {},
                }
            },
        }
    }
    assert forall|s: u16| #[trigger] after.owner(s) == t.owner(s) && after.owns(s) == t.owns(s) by {}
    assert forall|k: int| 0 <= k < after.nodes.len() && k != i implies #[trigger] after.nodes[k].id != n.id by {
        if k < i {
            assert(after.nodes[k].id != after.nodes[i].id);
        } else {
            assert(after.nodes[i].id != after.nodes[k].id);
        }
    }
    let pre = after.nodes.take(i);
    let post = after.nodes.skip(i + 1);
    assert(after.nodes =~= pre + seq![n] + post);
    lemma_nodes_text_concat(pre + seq![n], post);
    lemma_nodes_text_concat(pre, seq![n]);
    assert(seq![n].drop_last() =~= Seq::<NodeView>::empty());
    assert(nodes_text(seq![n]) == nodes_text(Seq::<NodeView>::empty()) + node_line(n));
    assert(nodes_text(seq![n]) =~= node_line(n));
    assert(nodes_text(after.nodes) == nodes_text(pre) + node_line(n) + nodes_text(post));
    assert(0 <= i < after.nodes.len() && after.nodes[i] == n);
}

/// The node list text of two lists in a row is the two texts in a row.
pub proof fn lemma_nodes_text_concat(a: Seq<NodeView>, b: Seq<NodeView>)
    ensures
        nodes_text(a + b) == nodes_text(a) + nodes_text(b),
    decreases b.len(),
{
    if b.len() == 0 {
        assert(a + b =~= a);
    } else {
        lemma_nodes_text_concat(a, b.drop_last());
        assert((a + b).drop_last() =~= a + b.drop_last());
        assert(nodes_text(a) + (nodes_text(b.drop_last()) + node_line(b.last())) =~= nodes_text(a)
            + nodes_text(b.drop_last()) + node_line(b.last()));
    }
}

proof fn lemma_step_wf(t: TopologyView, op: TopologyStep)
    requires
        t.wf(),
    ensures
        t.step(op).wf(),
        t.step(op).myself_id == t.myself_id,
{
    match op {
        TopologyStep::AddNode(n) => {
            lemma_add_node(t, n);
        },
        TopologyStep::AssignRange(id, a, b) => {
            if a <= b && b < HASH_SLOTS && t.node(id) is Some {
                lemma_assign_owner(t, id, a, b, a);
            } else {
                lemma_node_index(t.nodes, id);
            }
        },
    }
}

/// Changes keep a topology well formed and this node's identifier: so this
/// node owns a slot, after any changes, exactly when the recorded owner
/// carries the identifier it had at the start.
pub proof fn lemma_steps_keep_myself(t: TopologyView, ops: Seq<TopologyStep>, slot: u16)
    requires
        t.wf(),
    ensures
        apply_steps(t, ops).wf(),
        apply_steps(t, ops).myself_id == t.myself_id,
        apply_steps(t, ops).owns(slot) <==> owner_id(apply_steps(t, ops).owner(slot)) == Some(t.myself_id),
    decreases ops.len(),
{
    if ops.len() > 0 {
        lemma_steps_keep_myself(t, ops.drop_last(), slot);
        lemma_step_wf(apply_steps(t, ops.drop_last()), ops.last());
    }
}

/// The last assignment wins: after any changes, the recorded owner of a
/// slot is the node of the last successful assignment of a range holding
/// it; where there was none, the slot keeps the owner it had (none, for a
/// new topology).
pub proof fn lemma_owner_is_last_assignment(t: TopologyView, ops: Seq<TopologyStep>, slot: u16)
    requires
        t.wf(),
    ensures
        apply_steps(t, ops).wf(),
        owner_id(apply_steps(t, ops).owner(slot)) == last_assigned(t, ops, slot),
    decreases ops.len(),
{
    if ops.len() > 0 {
        let prev = apply_steps(t, ops.drop_last());
        lemma_owner_is_last_assignment(t, ops.drop_last(), slot);
        lemma_step_wf(prev, ops.last());
        match ops.last() {
            TopologyStep::AddNode(n) => {
                lemma_add_node(prev, n);
            },
            TopologyStep::AssignRange(id, a, b) => {
                lemma_node_index(prev.nodes, id);
                if a <= b && b < HASH_SLOTS && prev.node(id) is Some {
                    lemma_assign_owner(prev, id, a, b, slot);
                }
            },
        }
    }
}

/// Successive assignments of valid ranges to a known node add those
/// ranges, in order, to the node's list, and leave its other fields as they
/// were (for this node: its slots after `new` and the assignments).
pub proof fn lemma_assignments_list_ranges(t: TopologyView, id: Seq<char>, rs: Seq<(u16, u16)>)
    requires
        t.wf(),
        t.node(id) is Some,
        forall|k: int| 0 <= k < rs.len() ==> (#[trigger] rs[k]).0 <= rs[k].1 && rs[k].1 < HASH_SLOTS,
    ensures
        apply_steps(t, assign_all(id, rs)).wf(),
        apply_steps(t, assign_all(id, rs)).node(id) == Some(
            NodeView { slots: t.node(id)->Some_0.slots + rs, ..t.node(id)->Some_0 },
        ),
    decreases rs.len(),
{
    let m = t.node(id)->Some_0;
    if rs.len() == 0 {
        assert(m.slots + rs =~= m.slots);
    } else {
        let ops = assign_all(id, rs);
        assert(ops.drop_last() =~= assign_all(id, rs.drop_last()));
        lemma_assignments_list_ranges(t, id, rs.drop_last());
        let prev = apply_steps(t, ops.drop_last());
        let r = rs.last();
        assert(rs[rs.len() - 1] == r);
        assert(ops.last() == TopologyStep::AssignRange(id, r.0, r.1));
        lemma_assign_owner(prev, id, r.0, r.1, r.0);
        let after = prev.assign(id, r.0, r.1).0;
        lemma_node_index(prev.nodes, id);
        let i = node_index(prev.nodes, id)->Some_0;
        lemma_node_index_at(after.nodes, i);
        assert((m.slots + rs.drop_last()).push(r) =~= m.slots + rs);
    }
}

proof fn lemma_steps_prepend(t: TopologyView, x: TopologyStep, rest: Seq<TopologyStep>)
    ensures
        apply_steps(t, seq![x] + rest) == apply_steps(t.step(x), rest),
    decreases rest.len(),
{
    if rest.len() == 0 {
        assert((seq![x] + rest).drop_last() =~= Seq::<TopologyStep>::empty());
        assert((seq![x] + rest).last() == x);
        assert(apply_steps(t, Seq::<TopologyStep>::empty()) == t);
        assert(apply_steps(t, seq![x] + rest) == apply_steps(t, Seq::<TopologyStep>::empty()).step(x));
        assert(apply_steps(t.step(x), rest) == t.step(x));
    } else {
        lemma_steps_prepend(t, x, rest.drop_last());
        assert((seq![x] + rest).drop_last() =~= seq![x] + rest.drop_last());
        assert((seq![x] + rest).last() == rest.last());
        assert(apply_steps(t, seq![x] + rest) == apply_steps(t, seq![x] + rest.drop_last()).step(rest.last()));
    }
}

proof fn lemma_unknown_node_assignments(t: TopologyView, id: Seq<char>, rs: Seq<(u16, u16)>)
    requires
        t.node(id) is None,
    ensures
        apply_steps(t, assign_all(id, rs)) == t,
    decreases rs.len(),
{
    if rs.len() > 0 {
        assert(assign_all(id, rs).drop_last() =~= assign_all(id, rs.drop_last()));
        lemma_unknown_node_assignments(t, id, rs.drop_last());
    }
}

/// The ranges a slot specification assigns: those of its non-empty parts,
/// up to the first part that does not name a valid range.
pub open spec fn parts_ranges(parts: Seq<Seq<char>>) -> Seq<(u16, u16)>
    decreases parts.len(),
{
    if parts.len() == 0 {
        Seq::empty()
    } else {
        let part = trim_text(parts[0]);
        if part.len() == 0 {
            parts_ranges(parts.drop_first())
        } else {
            match slot_bounds(part) {
                Err(_) => Seq::empty(),
                Ok((a, b)) => if a <= b && b < HASH_SLOTS {
                    seq![(a, b)] + parts_ranges(parts.drop_first())
                } else {
                    Seq::empty()
                },
            }
        }
    }
}

/// Assigning a slot specification is assigning its ranges one after the
/// other: what `parse_and_assign_slots` leaves is what those assignments
/// leave, so the laws on assignments cover it too.
pub proof fn lemma_parts_are_assignments(t: TopologyView, id: Seq<char>, parts: Seq<Seq<char>>)
    requires
        t.wf(),
    ensures
        assign_parts(t, id, parts).0 == apply_steps(t, assign_all(id, parts_ranges(parts))),
    decreases parts.len(),
{
    if parts.len() > 0 {
        let part = trim_text(parts[0]);
        if part.len() == 0 {
            lemma_parts_are_assignments(t, id, parts.drop_first());
        } else {
            match slot_bounds(part) {
                Err(_) => {},
                Ok((a, b)) => {
                    if a <= b && b < HASH_SLOTS {
                        let rest = parts_ranges(parts.drop_first());
                        assert(assign_all(id, seq![(a, b)] + rest) =~= seq![TopologyStep::AssignRange(id, a, b)]
                            + assign_all(id, rest));
                        lemma_steps_prepend(t, TopologyStep::AssignRange(id, a, b), assign_all(id, rest));
                        lemma_node_index(t.nodes, id);
                        if t.node(id) is Some {
                            lemma_assign_owner(t, id, a, b, a);
                            lemma_parts_are_assignments(t.assign(id, a, b).0, id, parts.drop_first());
                        } else {
                            lemma_unknown_node_assignments(t, id, rest);
                        }
                    }
                },
            }
        }
    }
}


proof fn lemma_count_assigned(slots: Seq<Option<NodeView>>)
    ensures
        count_assigned(slots) == slots.filter(|o: Option<NodeView>| o is Some).len(),
        count_assigned(slots) <= slots.len(),
        count_assigned(slots) == slots.len() <==> forall|s: int| 0 <= s < slots.len() ==> #[trigger] slots[s] is Some,
    decreases slots.len(),
{
    reveal(Seq::filter);
    if slots.len() > 0 {
        lemma_count_assigned(slots.drop_last());
        if count_assigned(slots) == slots.len() {
            assert forall|s: int| 0 <= s < slots.len() implies #[trigger] slots[s] is Some by {
                if s < slots.len() - 1 {
                    assert(slots.drop_last()[s] == slots[s]);
                }
            }
        }
        if forall|s: int| 0 <= s < slots.len() ==> #[trigger] slots[s] is Some {
            assert forall|s: int| 0 <= s < slots.drop_last().len() implies #[trigger] slots.drop_last()[s] is Some by {
                assert(slots[s] is Some);
            }
            assert(slots[slots.len() - 1] is Some);
        }
    }
}

proof fn lemma_count_masters(nodes: Seq<NodeView>)
    ensures
        count_masters(nodes) == nodes.filter(|n: NodeView| n.is_master).len(),
    decreases nodes.len(),
{
    reveal(Seq::filter);
    if nodes.len() > 0 {
        lemma_count_masters(nodes.drop_last());
    }
}

/// Node `i` of `nodes` is a master with identifier `id`.
pub open spec fn master_at(nodes: Seq<NodeView>, i: int, id: Seq<char>) -> bool {
    0 <= i < nodes.len() && nodes[i].id == id && nodes[i].is_master
}

proof fn lemma_assigned_set(slots: Seq<Option<NodeView>>)
    ensures
        Set::new(|s: int| 0 <= s < slots.len() && slots[s] is Some).finite(),
        count_assigned(slots) == Set::new(|s: int| 0 <= s < slots.len() && slots[s] is Some).len(),
    decreases slots.len(),
{
    let a = Set::new(|s: int| 0 <= s < slots.len() && slots[s] is Some);
    if slots.len() == 0 {
        assert(a =~= Set::empty());
    } else {
        let p = slots.drop_last();
        lemma_assigned_set(p);
        let b = Set::new(|s: int| 0 <= s < p.len() && p[s] is Some);
        if slots.last() is Some {
            assert(a =~= b.insert(slots.len() - 1));
            assert(!b.contains(slots.len() - 1));
        } else {
            assert(a =~= b);
        }
    }
}

proof fn lemma_master_set(nodes: Seq<NodeView>)
    requires
        forall|i: int, j: int| 0 <= i < j < nodes.len() ==> #[trigger] nodes[i].id != #[trigger] nodes[j].id,
    ensures
        Set::new(|id: Seq<char>| exists|i: int| #[trigger] master_at(nodes, i, id)).finite(),
        count_masters(nodes) == Set::new(|id: Seq<char>| exists|i: int| #[trigger] master_at(nodes, i, id)).len(),
    decreases nodes.len(),
{
    let a = Set::new(|id: Seq<char>| exists|i: int| #[trigger] master_at(nodes, i, id));
    if nodes.len() == 0 {
        assert(a =~= Set::empty());
    } else {
        let p = nodes.drop_last();
        let n = nodes.len() - 1;
        assert forall|i: int, j: int| 0 <= i < j < p.len() implies #[trigger] p[i].id != #[trigger] p[j].id by {
            assert(nodes[i].id != nodes[j].id);
        }
        lemma_master_set(p);
        let b = Set::new(|id: Seq<char>| exists|i: int| #[trigger] master_at(p, i, id));
        assert forall|id: Seq<char>| #[trigger] b.contains(id) implies a.contains(id) by {
            let i = choose|i: int| #[trigger] master_at(p, i, id);
            assert(master_at(nodes, i, id));
        }
        assert forall|id: Seq<char>| #[trigger] a.contains(id) && id != nodes[n].id implies b.contains(id) by {
            let i = choose|i: int| #[trigger] master_at(nodes, i, id);
            assert(i != n);
            assert(master_at(p, i, id));
        }
        assert(!b.contains(nodes[n].id)) by {
            if b.contains(nodes[n].id) {
                let i = choose|i: int| #[trigger] master_at(p, i, nodes[n].id);
                assert(nodes[i].id != nodes[n].id);
            }
        }
        if nodes[n].is_master {
            assert(master_at(nodes, n, nodes[n].id));
            assert(a =~= b.insert(nodes[n].id));
        } else {
            assert forall|id: Seq<char>| #[trigger] a.contains(id) implies id != nodes[n].id by {
                let i = choose|i: int| #[trigger] master_at(nodes, i, id);
                if i != n {
                    assert(nodes[i].id != nodes[n].id);
                }
            }
            assert(a =~= b);
        }
    }
}

/// What `CLUSTER INFO` counts: the slots assigned are those with an
/// owner, and the state is `ok` exactly when every slot has one; the known
/// nodes are the distinct identifiers, one node each; the size is the
/// number of masters among them.
pub proof fn lemma_cluster_info_counts(t: TopologyView)
    requires
        t.wf(),
    ensures
        count_assigned(t.slots) == Set::new(|s: int| 0 <= s < HASH_SLOTS && t.slots[s] is Some).len(),
        t.nodes.len() == t.nodes.map_values(|n: NodeView| n.id).to_set().len(),
        count_masters(t.nodes) == Set::new(|id: Seq<char>| exists|i: int| #[trigger] master_at(t.nodes, i, id)).len(),
        count_assigned(t.slots) == t.slots.filter(|o: Option<NodeView>| o is Some).len(),
        count_assigned(t.slots) == HASH_SLOTS <==> forall|s: u16| s < HASH_SLOTS ==> (#[trigger] t.owner(s)) is Some,
        t.nodes.map_values(|n: NodeView| n.id).no_duplicates(),
        t.nodes.map_values(|n: NodeView| n.id).len() == t.nodes.len(),
        count_masters(t.nodes) == t.nodes.filter(|n: NodeView| n.is_master).len(),
{
    lemma_count_assigned(t.slots);
    lemma_count_masters(t.nodes);
    lemma_assigned_set(t.slots);
    lemma_master_set(t.nodes);
    let ids = t.nodes.map_values(|n: NodeView| n.id);
    assert forall|i: int, j: int| 0 <= i < ids.len() && 0 <= j < ids.len() && i != j implies ids[i] != ids[j] by {
        if i < j {
            assert(t.nodes[i].id != t.nodes[j].id);
        } else {
            assert(t.nodes[j].id != t.nodes[i].id);
        }
    }
    ids.unique_seq_to_set();
    if count_assigned(t.slots) == HASH_SLOTS {
        assert forall|s: u16| s < HASH_SLOTS implies (#[trigger] t.owner(s)) is Some by {
            assert(t.slots[s as int] is Some);
        }
    }
    if forall|s: u16| s < HASH_SLOTS ==> (#[trigger] t.owner(s)) is Some {
        assert forall|s: int| 0 <= s < t.slots.len() implies #[trigger] t.slots[s] is Some by {
            assert(t.owner(s as u16) is Some);
        }
    }
}

proof fn lemma_run_end_holds(slots: Seq<Option<NodeView>>, i: int, id: Seq<char>)
    requires
        slot_held_by(slots, i, id),
    ensures
        i <= run_end(slots, i, id) < slots.len(),
        forall|k: int| i <= k <= run_end(slots, i, id) ==> slot_held_by(slots, k, id),
        !slot_held_by(slots, run_end(slots, i, id) + 1, id),
    decreases slots.len() - i,
{
    if slot_held_by(slots, i + 1, id) {
        lemma_run_end_holds(slots, i + 1, id);
    }
}

/// `CLUSTER SLOTS` describes the owners exactly. Its runs, from slot
/// `from` on, come in order of their first slot and do not overlap; each
/// run lies within the slots, names the node recorded for its first slot,
/// and every slot in it is held by that node's identifier; each run is
/// maximal (the slots just before and just after it are not held by that
/// identifier); and every slot that has an owner lies in a run.
#[verifier::spinoff_prover]
#[verifier::rlimit(40)]
pub proof fn lemma_slot_ranges(slots: Seq<Option<NodeView>>, from: int)
    requires
        0 <= from <= slots.len(),
    ensures
        forall|i: int|
            0 <= i < slot_ranges(slots, from).len() ==> {
                let r = #[trigger] slot_ranges(slots, from)[i];
                &&& from <= r.0 <= r.1 < slots.len()
                &&& slots[r.0] == Some(r.2)
                &&& !slot_held_by(slots, r.1 + 1, r.2.id)
                &&& (r.0 == from || !slot_held_by(slots, r.0 - 1, r.2.id))
                &&& forall|k: int| r.0 <= k <= r.1 ==> slot_held_by(slots, k, r.2.id)
            },
        forall|i: int, j: int|
            0 <= i < j < slot_ranges(slots, from).len() ==> (#[trigger] slot_ranges(slots, from)[i]).1
                < (#[trigger] slot_ranges(slots, from)[j]).0,
        forall|k: int|
            from <= k < slots.len() && #[trigger] slots[k] is Some ==> exists|i: int|
                0 <= i < slot_ranges(slots, from).len() && (#[trigger] slot_ranges(slots, from)[i]).0 <= k
                    <= slot_ranges(slots, from)[i].1,
    decreases slots.len() - from,
{
    let rs = slot_ranges(slots, from);
    if from < slots.len() {
        match slots[from] {
            None => {
                lemma_slot_ranges(slots, from + 1);
                assert forall|i: int| 0 <= i < rs.len() implies (#[trigger] rs[i]).0 == from || !slot_held_by(slots, rs[i].0 - 1, rs[i].2.id) by {
                }
                assert forall|k: int| from <= k < slots.len() && #[trigger] slots[k] is Some implies exists|i: int|
                    0 <= i < rs.len() && (#[trigger] rs[i]).0 <= k <= rs[i].1 by {
                    assert(k != from);
                }
            },
            Some(n) => {
                assert(slot_held_by(slots, from, n.id));
                lemma_run_end_holds(slots, from, n.id);
                let e = run_end(slots, from, n.id);
                let rest = slot_ranges(slots, e + 1);
                lemma_slot_ranges(slots, e + 1);
                assert(rs == seq![(from, e, n)] + rest);
                assert forall|i: int| 0 <= i < rs.len() implies {
                    let r = #[trigger] rs[i];
                    &&& from <= r.0 <= r.1 < slots.len()
                    &&& slots[r.0] == Some(r.2)
                    &&& !slot_held_by(slots, r.1 + 1, r.2.id)
                    &&& (r.0 == from || !slot_held_by(slots, r.0 - 1, r.2.id))
                    &&& forall|k: int| r.0 <= k <= r.1 ==> slot_held_by(slots, k, r.2.id)
                } by {
                    if i > 0 {
                        let r = rest[i - 1];
                        assert(rs[i] == r);
                        if r.0 == e + 1 {
                            assert(slot_held_by(slots, e, n.id));
                            assert(slots[e + 1] == Some(r.2));
                            assert(!slot_held_by(slots, e + 1, n.id));
                            assert(r.2.id != n.id);
                        }
                    }
                }
                assert forall|i: int, j: int| 0 <= i < j < rs.len() implies (#[trigger] rs[i]).1 < (#[trigger] rs[j]).0 by {
                    assert(rs[j] == rest[j - 1]);
                    if i > 0 {
                        assert(rs[i] == rest[i - 1]);
                    }
                }
                assert forall|k: int| from <= k < slots.len() && #[trigger] slots[k] is Some implies exists|i: int|
                    0 <= i < rs.len() && (#[trigger] rs[i]).0 <= k <= rs[i].1 by {
                    if k <= e {
                        assert(rs[0] == (from, e, n));
                    } else {
                        let i = choose|i: int| 0 <= i < rest.len() && (#[trigger] rest[i]).0 <= k <= rest[i].1;
                        assert(rs[i + 1] == rest[i]);
                    }
                }
            },
        }
    }
}

proof fn lemma_range_text_no_space(r: (u16, u16))
    ensures
        forall|i: int| 0 <= i < range_text(r).len() ==> #[trigger] range_text(r)[i] != ' ',
{
    crate::text::lemma_decimal_text_digits(r.0 as nat);
    crate::text::lemma_decimal_text_digits(r.1 as nat);
    let a = decimal_text(r.0 as nat);
    let b = decimal_text(r.1 as nat);
    if r.0 != r.1 {
        let t = a + "-"@ + b;
        reveal_strlit("-");
        assert forall|i: int| 0 <= i < t.len() implies #[trigger] t[i] != ' ' by {
            if i < a.len() {
                assert(t[i] == a[i]);
            } else if i == a.len() {
                assert(t[i] == '-');
            } else {
                assert(t[i] == b[i - a.len() - 1]);
            }
        }
    }
}

/// A node's slot list in `CLUSTER NODES` lists every range it holds, in
/// order: split at its spaces, the text gives back exactly the text of each
/// range (`start` alone for a single slot, `start-end` otherwise).
pub proof fn lemma_ranges_text_lists_every_range(rs: Seq<(u16, u16)>)
    requires
        rs.len() > 0,
    ensures
        crate::text::split_text(ranges_text(rs), ' ') == rs.map_values(|r: (u16, u16)| range_text(r)),
    decreases rs.len(),
{
    let last = rs.last();
    lemma_range_text_no_space(last);
    crate::text::lemma_split_text_none(range_text(last), ' ');
    if rs.len() == 1 {
        assert(rs.map_values(|r: (u16, u16)| range_text(r)) =~= seq![range_text(rs[0])]);
    } else {
        lemma_ranges_text_lists_every_range(rs.drop_last());
        crate::text::lemma_split_text_join(ranges_text(rs.drop_last()), range_text(last), ' ');
        assert(ranges_text(rs.drop_last()) + " "@ + range_text(last) =~= ranges_text(rs.drop_last()) + seq![' ']
            + range_text(last)) by {
            reveal_strlit(" ");
        }
        assert(rs.map_values(|r: (u16, u16)| range_text(r)) =~= rs.drop_last().map_values(|r: (u16, u16)| range_text(r))
            + seq![range_text(last)]);
    }
}

/// Each entry of `CLUSTER SLOTS` is a run `[start, end, [ip, port, id]]`
/// whose address is the client endpoint of the node recorded as owner of
/// its first slot: that node's IP, its client port (not its bus port) and
/// its identifier; every slot of the run is recorded for that identifier.
pub proof fn lemma_cluster_slots_entries(t: TopologyView)
    requires
        t.wf(),
    ensures
        cluster_slots_frame(t) matches Frame::Array(Some(es)) && es.len() == slot_ranges(t.slots, 0).len() && forall|i: int|
            0 <= i < es.len() ==> {
                let a = slot_ranges(t.slots, 0)[i].0;
                let b = slot_ranges(t.slots, 0)[i].1;
                let n = t.owner(a as u16)->Some_0;
                &&& 0 <= a <= b < HASH_SLOTS
                &&& t.owner(a as u16) is Some
                &&& #[trigger] es[i] == Frame::Array(Some(seq![
                    Frame::Integer(a),
                    Frame::Integer(b),
                    Frame::Array(Some(seq![
                        Frame::Bulk(Some(encode_utf8(n.ip))),
                        Frame::Integer(n.port as int),
                        Frame::Bulk(Some(encode_utf8(n.id))),
                    ])),
                ]))
                &&& forall|s: int| a <= s <= b ==> owner_id(#[trigger] t.owner(s as u16)) == Some(n.id)
            },
{
    lemma_slot_ranges(t.slots, 0);
    let rs = slot_ranges(t.slots, 0);
    let es = rs.map_values(|r: (int, int, NodeView)| range_frame(r));
    assert forall|i: int| 0 <= i < es.len() implies {
        let a = rs[i].0;
        let b = rs[i].1;
        let n = t.owner(a as u16)->Some_0;
        &&& 0 <= a <= b < HASH_SLOTS
        &&& t.owner(a as u16) is Some
        &&& #[trigger] es[i] == Frame::Array(Some(seq![
            Frame::Integer(a),
            Frame::Integer(b),
            Frame::Array(Some(seq![
                Frame::Bulk(Some(encode_utf8(n.ip))),
                Frame::Integer(n.port as int),
                Frame::Bulk(Some(encode_utf8(n.id))),
            ])),
        ]))
        &&& forall|s: int| a <= s <= b ==> owner_id(#[trigger] t.owner(s as u16)) == Some(n.id)
    } by {
        let r = rs[i];
        assert(t.slots[r.0] == Some(r.2));
        assert(t.owner(r.0 as u16) == Some(r.2));
        assert forall|s: int| r.0 <= s <= r.1 implies owner_id(#[trigger] t.owner(s as u16)) == Some(r.2.id) by {
            assert(slot_held_by(t.slots, s, r.2.id));
        }
    }
}
} // verus!
