//! Server settings: their defaults, how they are derived from the
//! startup options, and the `KEY=value` lines of a `.env` file.
use vstd::prelude::*;
use crate::commands::parse::number_u16;
use crate::text::{
    lemma_encode_utf8_empty, first_index_of, lines, lines_text, parse_u16, split_once_char, split_whitespace, starts_with,
    str_eq, strip_char, trim, trim_matches, trim_text, words,
};

verus! {

/// Server settings.
#[derive(Debug, Clone)]
pub struct ServerConfig {
    pub host: String,
    pub port: u16,
    pub tcp_nodelay: bool,
    pub max_connections: usize,
    pub max_payload_size: usize,
    pub requirepass: Option<String>,
    pub masterauth: Option<String>,
    pub worker_threads: usize,
    pub shard_count: usize,
    pub max_memory_bytes: usize,
    /// Interval of the expiry sweep, in milliseconds.
    pub ttl_interval_ms: u64,
    pub ttl_sample_size: usize,
    pub replicaof: Option<(String, u16)>,
    pub cluster_enabled: bool,
    pub cluster_node_id: Option<String>,
    pub cluster_announce_ip: String,
    pub cluster_announce_port: u16,
    pub cluster_announce_bus_port: u16,
    pub cluster_slots: Option<String>,
}

/// The default settings, listening on `port`: all interfaces, no
/// password, 128 shards, no memory limit, a sweep every 100 ms sampling 20
/// entries per shard, no master, cluster mode off.
pub open spec fn default_settings(r: ServerConfig, port: u16) -> bool {
    &&& r.host@ == "0.0.0.0"@
    &&& r.port == port
    &&& r.tcp_nodelay
    &&& r.max_connections == 10000
    &&& r.max_payload_size == 512 * 1024 * 1024
    &&& r.requirepass is None
    &&& r.masterauth is None
    &&& r.worker_threads == 0
    &&& r.shard_count == 128
    &&& r.max_memory_bytes == 0
    &&& r.ttl_interval_ms == 100
    &&& r.ttl_sample_size == 20
    &&& r.replicaof is None
    &&& !r.cluster_enabled
    &&& r.cluster_node_id is None
    &&& r.cluster_announce_ip@ == "127.0.0.1"@
    &&& r.cluster_announce_port == 6379
    &&& r.cluster_announce_bus_port == 16379
    &&& r.cluster_slots is None
}

impl Default for ServerConfig {
    /// The default settings, on port 6379.
    fn default() -> (r: Self)
        ensures
            default_settings(r, 6379),
    {
        ServerConfig {
            host: "0.0.0.0".to_owned(),
            port: 6379,
            tcp_nodelay: true,
            max_connections: 10000,
            max_payload_size: 512 * 1024 * 1024,
            requirepass: None,
            masterauth: None,
            worker_threads: 0,
            shard_count: 128,
            max_memory_bytes: 0,
            ttl_interval_ms: 100,
            ttl_sample_size: 20,
            replicaof: None,
            cluster_enabled: false,
            cluster_node_id: None,
            cluster_announce_ip: "127.0.0.1".to_owned(),
            cluster_announce_port: 6379,
            cluster_announce_bus_port: 16379,
            cluster_slots: None,
        }
    }
}

/// The setting of one line of a `.env` file: comments (`#`) and blank lines
/// set nothing; otherwise `KEY=value`, both trimmed, with the value's
/// surrounding double and then single quotes removed; a line without `=` or
/// with an empty key sets nothing.
pub open spec fn env_entry(line: Seq<char>) -> Option<(Seq<char>, Seq<char>)> {
    let t = trim_text(line);
    if t.len() == 0 || ("#"@.len() <= t.len() && t.take("#"@.len() as int) == "#"@) {
        None
    } else {
        match first_index_of(t, '=') {
            None => None,
            Some(i) => {
                let key = trim_text(t.take(i));
                let val = strip_char(strip_char(trim_text(t.skip(i + 1)), '"'), '\'');
                if key.len() == 0 {
                    None
                } else {
                    Some((key, val))
                }
            },
        }
    }
}

/// The settings of a `.env` file, line by line.
pub open spec fn env_entries(ls: Seq<Seq<char>>) -> Seq<(Seq<char>, Seq<char>)>
    decreases ls.len(),
{
    if ls.len() == 0 {
        Seq::empty()
    } else {
        match env_entry(ls.last()) {
            Some(e) => env_entries(ls.drop_last()).push(e),
            None => env_entries(ls.drop_last()),
        }
    }
}

/// The texts of a list of setting pairs.
pub open spec fn pairs_view(v: Seq<(String, String)>) -> Seq<(Seq<char>, Seq<char>)> {
    v.map_values(|p: (String, String)| (p.0@, p.1@))
}

/// The settings of a `.env` file's content, in order.
pub fn dotenv_entries(content: &str) -> (r: Vec<(String, String)>)
    ensures
        pairs_view(r@) == env_entries(lines_text(content@)),
{
    let ls = lines(content);
    let ghost lv = lines_text(content@);
    let mut out: Vec<(String, String)> = Vec::new();
    let mut i: usize = 0;
    while i < ls.len()
        invariant
            i <= ls@.len(),
            ls@.len() == lv.len(),
            lv == lines_text(content@),
            forall|k: int| 0 <= k < ls@.len() ==> #[trigger] ls@[k]@ == lv[k],
            pairs_view(out@) == env_entries(lv.take(i as int)),
        decreases ls@.len() - i,
    {
        proof {
            assert(lv.take(i + 1).drop_last() =~= lv.take(i as int));
            assert(lv.take(i + 1).last() == lv[i as int]);
        }
        let t = trim(ls[i]);
        proof {
            lemma_encode_utf8_empty(t@);
        }
        if t.as_bytes().len() > 0 && !starts_with(t, "#") {
            match split_once_char(t, '=') {
                Some((k, v)) => {
                    let key = trim(k);
                    proof {
                        lemma_encode_utf8_empty(key@);
                    }
                    if key.as_bytes().len() > 0 {
                        let val = trim_matches(trim_matches(trim(v), '"'), '\'');
                        let ghost before = out@;
                        out.push((key.to_owned(), val.to_owned()));
                        proof {
                            assert(pairs_view(out@) =~= pairs_view(before).push((key@, val@)));
                        }
                    }
                },
                None => {},
            }
        }
        i = i + 1;
    }
    assert(lv.take(i as int) =~= lv);
    out
}

/// The options a server starts with, as given on its command line or in
/// its environment.
pub struct StartupOptions {
    pub host: String,
    pub port: u16,
    pub tcp_nodelay: bool,
    pub max_connections: usize,
    pub max_payload_size: usize,
    pub requirepass: Option<String>,
    pub masterauth: Option<String>,
    pub worker_threads: usize,
    pub shard_count: usize,
    pub max_memory_bytes: usize,
    pub ttl_interval_ms: u64,
    pub ttl_sample_size: usize,
    pub replicaof: Option<Vec<String>>,
    pub replicaof_env: Option<String>,
    pub cluster_enabled: bool,
    pub cluster_node_id: Option<String>,
    pub cluster_announce_ip: Option<String>,
    pub cluster_announce_port: Option<u16>,
    pub cluster_announce_bus_port: Option<u16>,
    pub cluster_slots: Option<String>,
}

/// The words naming the master: the `--replicaof` pair, else the words of
/// the environment's setting when it has at least two.
pub open spec fn replica_words(replicaof: Option<Seq<Seq<char>>>, replicaof_env: Option<Seq<char>>) -> Option<Seq<Seq<char>>> {
    match replicaof {
        Some(a) => Some(a),
        None => match replicaof_env {
            Some(s) => if words(s).len() >= 2 {
                Some(words(s))
            } else {
                None
            },
            None => None,
        },
    }
}

/// The master to replicate: its host and its port (6379 when the port is
/// not a number).
pub open spec fn replica_target_spec(replicaof: Option<Seq<Seq<char>>>, replicaof_env: Option<Seq<char>>) -> Option<(Seq<char>, u16)> {
    match replica_words(replicaof, replicaof_env) {
        Some(a) => Some(
            (
                a[0],
                match number_u16(a[1]) {
                    Some(p) => p,
                    None => 6379,
                },
            ),
        ),
        None => None,
    }
}

/// The texts of an optional list of strings.
pub open spec fn opt_strings_view(o: Option<Vec<String>>) -> Option<Seq<Seq<char>>> {
    match o {
        Some(v) => Some(v@.map_values(|s: String| s@)),
        None => None,
    }
}

/// The text of an optional string.
pub open spec fn opt_text(o: Option<String>) -> Option<Seq<char>> {
    match o {
        Some(s) => Some(s@),
        None => None,
    }
}

/// A password option: an empty one counts as none.
pub open spec fn nonempty(o: Option<String>) -> Option<Seq<char>> {
    match o {
        Some(s) => if s@.len() > 0 {
            Some(s@)
        } else {
            None
        },
        None => None,
    }
}

fn port_or_default(s: &str) -> (r: u16)
    ensures
        r == match number_u16(s@) {
            Some(p) => p,
            None => 6379u16,
        },
{
    match parse_u16(s.as_bytes()) {
        Ok(p) => p,
        Err(_) => 6379,
    }
}

/// The master named by the startup options, if any.
pub fn replica_target(replicaof: &Option<Vec<String>>, replicaof_env: &Option<String>) -> (r: Option<(String, u16)>)
    requires
        replicaof matches Some(v) ==> v@.len() >= 2,
    ensures
        match replica_target_spec(opt_strings_view(*replicaof), opt_text(*replicaof_env)) {
            Some((h, p)) => r matches Some((host, port)) && host@ == h && port == p,
            None => r is None,
        },
{
    match replicaof {
        Some(args) => {
            assert(args@.map_values(|s: String| s@)[0] == args@[0]@);
            assert(args@.map_values(|s: String| s@)[1] == args@[1]@);
            let host = args[0].clone();
            let port = port_or_default(args[1].as_str());
            Some((host, port))
        },
        None => match replicaof_env {
            Some(val) => {
                let parts = split_whitespace(val.as_str());
                if parts.len() >= 2 {
                    let host = parts[0].to_owned();
                    let port = port_or_default(parts[1]);
                    Some((host, port))
                } else {
                    None
                }
            },
            None => None,
        },
    }
}

fn password(o: Option<String>) -> (r: Option<String>)
    ensures
        opt_text(r) == nonempty(o),
{
    match o {
        Some(p) => {
            proof {
                lemma_encode_utf8_empty(p@);
            }
            if p.as_str().as_bytes().len() > 0 {
                Some(p)
            } else {
                None
            }
        },
        None => None,
    }
}

impl ServerConfig {
    /// The settings for the startup options: cluster announcements default
    /// to the listening address (`127.0.0.1` for `0.0.0.0`) and port, and to
    /// that port plus 10000 (wrapping) for the bus; empty passwords count as
    /// none.
    pub fn from_options(opts: StartupOptions) -> (r: Self)
        requires
            opts.replicaof matches Some(v) ==> v@.len() >= 2,
        ensures
            r.host@ == opts.host@,
            r.port == opts.port,
            r.tcp_nodelay == opts.tcp_nodelay,
            r.max_connections == opts.max_connections,
            r.max_payload_size == opts.max_payload_size,
            opt_text(r.requirepass) == nonempty(opts.requirepass),
            opt_text(r.masterauth) == nonempty(opts.masterauth),
            r.worker_threads == opts.worker_threads,
            r.shard_count == opts.shard_count,
            r.max_memory_bytes == opts.max_memory_bytes,
            r.ttl_interval_ms == opts.ttl_interval_ms,
            r.ttl_sample_size == opts.ttl_sample_size,
            match replica_target_spec(opt_strings_view(opts.replicaof), opt_text(opts.replicaof_env)) {
                Some((h, p)) => r.replicaof matches Some((host, port)) && host@ == h && port == p,
                None => r.replicaof is None,
            },
            r.cluster_enabled == opts.cluster_enabled,
            opt_text(r.cluster_node_id) == opt_text(opts.cluster_node_id),
            r.cluster_announce_ip@ == match opts.cluster_announce_ip {
                Some(ip) => ip@,
                None => if opts.host@ == "0.0.0.0"@ {
                    "127.0.0.1"@
                } else {
                    opts.host@
                },
            },
            r.cluster_announce_port == match opts.cluster_announce_port {
                Some(p) => p,
                None => opts.port,
            },
            r.cluster_announce_bus_port == match opts.cluster_announce_bus_port {
                Some(b) => b,
                None => if r.cluster_announce_port + 10000 > u16::MAX {
                    (r.cluster_announce_port + 10000 - 65536) as u16
                } else {
                    (r.cluster_announce_port + 10000) as u16
                },
            },
            opt_text(r.cluster_slots) == opt_text(opts.cluster_slots),
    {
        let replicaof = replica_target(&opts.replicaof, &opts.replicaof_env);
        let announce_ip = match opts.cluster_announce_ip {
            Some(ip) => ip,
            None => {
                if str_eq(opts.host.as_str(), "0.0.0.0") {
                    "127.0.0.1".to_owned()
                } else {
                    opts.host.clone()
                }
            },
        };
        let announce_port = match opts.cluster_announce_port {
            Some(p) => p,
            None => opts.port,
        };
        let announce_bus_port = match opts.cluster_announce_bus_port {
            Some(b) => b,
            None => announce_port.wrapping_add(10000),
        };
        ServerConfig {
            host: opts.host,
            port: opts.port,
            tcp_nodelay: opts.tcp_nodelay,
            max_connections: opts.max_connections,
            max_payload_size: opts.max_payload_size,
            requirepass: password(opts.requirepass),
            masterauth: password(opts.masterauth),
            worker_threads: opts.worker_threads,
            shard_count: opts.shard_count,
            max_memory_bytes: opts.max_memory_bytes,
            ttl_interval_ms: opts.ttl_interval_ms,
            ttl_sample_size: opts.ttl_sample_size,
            replicaof,
            cluster_enabled: opts.cluster_enabled,
            cluster_node_id: opts.cluster_node_id,
            cluster_announce_ip: announce_ip,
            cluster_announce_port: announce_port,
            cluster_announce_bus_port: announce_bus_port,
            cluster_slots: opts.cluster_slots,
        }
    }
}

} // verus!
