//! Redis commands: the command type, its decoding from a RESP array
//! (`parse`) and its execution against the store, the replication state
//! and the cluster topology (`exec`).
pub mod exec;
pub mod parse;

use vstd::prelude::*;

verus! {

/// A subcommand of `CLUSTER`.
#[derive(Debug, Clone)]
pub enum ClusterSubcommand {
    KeySlot(String),
    Info,
    Nodes,
    Slots,
    Meet { ip: String, port: u16 },
    AddSlots(Vec<u16>),
}

/// A decoded command.
#[derive(Debug, Clone)]
pub enum Command {
    Ping(Option<String>),
    Echo(String),
    Get(String),
    SetValue { key: String, value: Vec<u8>, px_ms: Option<u64> },
    Del(Vec<String>),
    Exists(Vec<String>),
    Keys(String),
    Info(Option<String>),
    ReplConf(Vec<String>),
    Psync { repl_id: String, offset: String },
    Auth { username: Option<String>, password: String },
    Cluster(ClusterSubcommand),
    Quit,
    Command,
}

/// The content of a `CLUSTER` subcommand.
pub enum SubView {
    KeySlot(Seq<char>),
    Info,
    Nodes,
    Slots,
    Meet(Seq<char>, u16),
    AddSlots(Seq<u16>),
}

/// The content of a command.
pub enum CmdView {
    Ping(Option<Seq<char>>),
    Echo(Seq<char>),
    Get(Seq<char>),
    SetValue(Seq<char>, Seq<u8>, Option<u64>),
    Del(Seq<Seq<char>>),
    Exists(Seq<Seq<char>>),
    Keys(Seq<char>),
    Info(Option<Seq<char>>),
    ReplConf(Seq<Seq<char>>),
    Psync(Seq<char>, Seq<char>),
    Auth(Option<Seq<char>>, Seq<char>),
    Cluster(SubView),
    Quit,
    Command,
}

/// The texts of a list of strings.
pub open spec fn strings_view(v: Vec<String>) -> Seq<Seq<char>> {
    v@.map_values(|s: String| s@)
}

/// The text of an optional string.
pub open spec fn opt_string_view(o: Option<String>) -> Option<Seq<char>> {
    match o {
        Some(s) => Some(s@),
        None => None,
    }
}

impl View for ClusterSubcommand {
    type V = SubView;

    open spec fn view(&self) -> SubView {
        match self {
            ClusterSubcommand::KeySlot(k) => SubView::KeySlot(k@),
            ClusterSubcommand::Info => SubView::Info,
            ClusterSubcommand::Nodes => SubView::Nodes,
            ClusterSubcommand::Slots => SubView::Slots,
            ClusterSubcommand::Meet { ip, port } => SubView::Meet(ip@, *port),
            ClusterSubcommand::AddSlots(s) => SubView::AddSlots(s@),
        }
    }
}

impl View for Command {
    type V = CmdView;

    open spec fn view(&self) -> CmdView {
        match self {
            Command::Ping(m) => CmdView::Ping(opt_string_view(*m)),
            Command::Echo(m) => CmdView::Echo(m@),
            Command::Get(k) => CmdView::Get(k@),
            Command::SetValue { key, value, px_ms } => CmdView::SetValue(key@, value@, *px_ms),
            Command::Del(ks) => CmdView::Del(strings_view(*ks)),
            Command::Exists(ks) => CmdView::Exists(strings_view(*ks)),
            Command::Keys(p) => CmdView::Keys(p@),
            Command::Info(s) => CmdView::Info(opt_string_view(*s)),
            Command::ReplConf(a) => CmdView::ReplConf(strings_view(*a)),
            Command::Psync { repl_id, offset } => CmdView::Psync(repl_id@, offset@),
            Command::Auth { username, password } => CmdView::Auth(opt_string_view(*username), password@),
            Command::Cluster(sub) => CmdView::Cluster(sub@),
            Command::Quit => CmdView::Quit,
            Command::Command => CmdView::Command,
        }
    }
}

/// The key a command addresses, by which a cluster routes it: the key of
/// `GET` and `SET`, the first key of `DEL` and `EXISTS`.
pub open spec fn target_key_spec(c: CmdView) -> Option<Seq<char>> {
    match c {
        CmdView::Get(k) => Some(k),
        CmdView::SetValue(k, _, _) => Some(k),
        CmdView::Del(ks) => if ks.len() > 0 {
            Some(ks[0])
        } else {
            None
        },
        CmdView::Exists(ks) => if ks.len() > 0 {
            Some(ks[0])
        } else {
            None
        },
        _ => None,
    }
}

impl Command {
    /// The key this command addresses, if any.
    pub fn target_key(&self) -> (r: Option<&str>)
        ensures
            match target_key_spec(self@) {
                Some(k) => r matches Some(s) && s@ == k,
                None => r is None,
            },
    {
        match self {
            Command::Get(key) => Some(key.as_str()),
            Command::SetValue { key, .. } => Some(key.as_str()),
            Command::Del(keys) => {
                if keys.len() > 0 {
                    Some(keys[0].as_str())
                } else {
                    None
                }
            },
            Command::Exists(keys) => {
                if keys.len() > 0 {
                    Some(keys[0].as_str())
                } else {
                    None
                }
            },
            _ => None,
        }
    }
}

} // verus!
