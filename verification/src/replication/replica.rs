//! The replica side of replication: the requests of the handshake, the
//! master's replies to them, the snapshot header, and the frames of the
//! command stream that follows.
use vstd::prelude::*;
use vstd::utf8::*;
use crate::commands::exec::{bulk_text, db_step, fits_spec, forwarded_bytes};
use crate::commands::parse::parse_command;
use crate::commands::{CmdView, Command};
use crate::protocol::resp::{
    agree, encode_frame, frames_of, get_line, lemma_frames_of, lemma_parse_frame_agree,
    lemma_parse_frame_bounds, line_end, parse_frame, parse_prefix, Frame, ParseOutcome, Value,
};
use crate::storage::db::{Db, DbView};
use crate::text::{
    ascii_upper, decimal_string, decimal_text, parse_int_spec, parse_unsigned, split_whitespace,
    starts_with, str_eq, to_ascii_uppercase, trim, trim_text, utf8_error_text, utf8_str, words,
};
use super::state::{add_wrapping, ReplView, ReplicationState};

verus! {

broadcast use vstd::utf8::group_utf8_lib;

/// A command sent as an array of bulk strings.
pub open spec fn request_bytes(args: Seq<Seq<char>>) -> Seq<u8> {
    encode_frame(Frame::Array(Some(args.map_values(|a: Seq<char>| bulk_text(a)))))
}

fn request(args: &Vec<&str>) -> (r: Vec<u8>)
    ensures
        r@ == request_bytes(args@.map_values(|a: &str| a@)),
{
    let mut items: Vec<Value> = Vec::new();
    let mut i: usize = 0;
    while i < args.len()
        invariant
            i <= args@.len(),
            items@.len() == i,
            forall|j: int| 0 <= j < i ==> (#[trigger] items@[j])@ == bulk_text(args@[j]@),
        decreases args@.len() - i,
    {
        items.push(Value::string(args[i]));
        i = i + 1;
    }
    proof {
        lemma_frames_of(items@);
        assert(frames_of(items@) =~= args@.map_values(|a: &str| a@).map_values(|a: Seq<char>| bulk_text(a)));
    }
    let v = Value::Array(Some(items));
    let mut out: Vec<u8> = Vec::new();
    v.serialize(&mut out);
    assert(out@ =~= encode_frame(v@));
    out
}

/// `PING`, the first request of the handshake.
pub fn ping_request() -> (r: Vec<u8>)
    ensures
        r@ == request_bytes(seq!["PING"@]),
{
    let mut a: Vec<&str> = Vec::new();
    a.push("PING");
    assert(a@.map_values(|x: &str| x@) =~= seq!["PING"@]);
    request(&a)
}

/// `AUTH password`, sent when the replica has a password for its master.
pub fn auth_request(password: &str) -> (r: Vec<u8>)
    ensures
        r@ == request_bytes(seq!["AUTH"@, password@]),
{
    let mut a: Vec<&str> = Vec::new();
    a.push("AUTH");
    a.push(password);
    assert(a@.map_values(|x: &str| x@) =~= seq!["AUTH"@, password@]);
    request(&a)
}

/// `REPLCONF listening-port port`.
pub fn listening_port_request(port: u16) -> (r: Vec<u8>)
    ensures
        r@ == request_bytes(seq!["REPLCONF"@, "listening-port"@, decimal_text(port as nat)]),
{
    let p = decimal_string(port as u64);
    let mut a: Vec<&str> = Vec::new();
    a.push("REPLCONF");
    a.push("listening-port");
    a.push(p.as_str());
    assert(a@.map_values(|x: &str| x@) =~= seq!["REPLCONF"@, "listening-port"@, decimal_text(port as nat)]);
    request(&a)
}

/// `REPLCONF capa eof capa psync2`.
pub fn capa_request() -> (r: Vec<u8>)
    ensures
        r@ == request_bytes(seq!["REPLCONF"@, "capa"@, "eof"@, "capa"@, "psync2"@]),
{
    let mut a: Vec<&str> = Vec::new();
    a.push("REPLCONF");
    a.push("capa");
    a.push("eof");
    a.push("capa");
    a.push("psync2");
    assert(a@.map_values(|x: &str| x@) =~= seq!["REPLCONF"@, "capa"@, "eof"@, "capa"@, "psync2"@]);
    request(&a)
}

/// `PSYNC ? -1`: a full resynchronisation.
pub fn psync_request() -> (r: Vec<u8>)
    ensures
        r@ == request_bytes(seq!["PSYNC"@, "?"@, "-1"@]),
{
    let mut a: Vec<&str> = Vec::new();
    a.push("PSYNC");
    a.push("?");
    a.push("-1");
    assert(a@.map_values(|x: &str| x@) =~= seq!["PSYNC"@, "?"@, "-1"@]);
    request(&a)
}

/// The stages of the replica's handshake with its master.
#[derive(Debug, Clone, Copy, PartialEq, Eq)]
pub enum HandshakeStage {
    Ping,
    Auth,
    ListeningPort,
    Capa,
    Psync,
    Snapshot,
}

/// The stage after the master answered the request of `stage`: `PING`, then
/// `AUTH` when the replica has a password for its master, then
/// `REPLCONF listening-port`, `REPLCONF capa`, `PSYNC`, and last the
/// snapshot, which ends the handshake.
pub open spec fn next_stage_spec(stage: HandshakeStage, has_auth: bool) -> HandshakeStage {
    match stage {
        HandshakeStage::Ping => if has_auth {
            HandshakeStage::Auth
        } else {
            HandshakeStage::ListeningPort
        },
        HandshakeStage::Auth => HandshakeStage::ListeningPort,
        HandshakeStage::ListeningPort => HandshakeStage::Capa,
        HandshakeStage::Capa => HandshakeStage::Psync,
        HandshakeStage::Psync => HandshakeStage::Snapshot,
        HandshakeStage::Snapshot => HandshakeStage::Snapshot,
    }
}

/// The request the replica sends at a stage; none for the snapshot, which
/// is only read, and none for `AUTH` without a password.
pub open spec fn stage_request_spec(stage: HandshakeStage, port: u16, auth: Option<Seq<char>>) -> Option<Seq<u8>> {
    match stage {
        HandshakeStage::Ping => Some(request_bytes(seq!["PING"@])),
        HandshakeStage::Auth => match auth {
            Some(p) => Some(request_bytes(seq!["AUTH"@, p])),
            None => None,
        },
        HandshakeStage::ListeningPort => Some(
            request_bytes(seq!["REPLCONF"@, "listening-port"@, decimal_text(port as nat)]),
        ),
        HandshakeStage::Capa => Some(request_bytes(seq!["REPLCONF"@, "capa"@, "eof"@, "capa"@, "psync2"@])),
        HandshakeStage::Psync => Some(request_bytes(seq!["PSYNC"@, "?"@, "-1"@])),
        HandshakeStage::Snapshot => None,
    }
}

/// The stage that follows `stage` once the master has answered it.
pub fn next_stage(stage: HandshakeStage, has_auth: bool) -> (r: HandshakeStage)
    ensures
        r == next_stage_spec(stage, has_auth),
{
    match stage {
        HandshakeStage::Ping => if has_auth {
            HandshakeStage::Auth
        } else {
            HandshakeStage::ListeningPort
        },
        HandshakeStage::Auth => HandshakeStage::ListeningPort,
        HandshakeStage::ListeningPort => HandshakeStage::Capa,
        HandshakeStage::Capa => HandshakeStage::Psync,
        HandshakeStage::Psync => HandshakeStage::Snapshot,
        HandshakeStage::Snapshot => HandshakeStage::Snapshot,
    }
}

/// The request to send at `stage`, for a replica listening on `port` with
/// the password `masterauth` for its master, if any.
pub fn stage_request(stage: HandshakeStage, port: u16, masterauth: Option<&str>) -> (r: Option<Vec<u8>>)
    ensures
        match r {
            Some(v) => stage_request_spec(stage, port, match masterauth {
                Some(p) => Some(p@),
                None => None,
            }) == Some(v@),
            None => stage_request_spec(stage, port, match masterauth {
                Some(p) => Some(p@),
                None => None,
            }) is None,
        },
{
    match stage {
        HandshakeStage::Ping => Some(ping_request()),
        HandshakeStage::Auth => match masterauth {
            Some(p) => Some(auth_request(p)),
            None => None,
        },
        HandshakeStage::ListeningPort => Some(listening_port_request(port)),
        HandshakeStage::Capa => Some(capa_request()),
        HandshakeStage::Psync => Some(psync_request()),
        HandshakeStage::Snapshot => None,
    }
}

/// The handshake's order: from `PING`, the stages run through `AUTH` (only
/// with a password), `REPLCONF listening-port`, `REPLCONF capa` and `PSYNC`
/// to the snapshot, and each sends its request.
pub proof fn lemma_handshake_order(has_auth: bool)
    ensures
        ({
            let s1 = next_stage_spec(HandshakeStage::Ping, has_auth);
            let s2 = if has_auth { next_stage_spec(s1, has_auth) } else { s1 };
            &&& has_auth ==> s1 == HandshakeStage::Auth
            &&& s2 == HandshakeStage::ListeningPort
            &&& next_stage_spec(s2, has_auth) == HandshakeStage::Capa
            &&& next_stage_spec(HandshakeStage::Capa, has_auth) == HandshakeStage::Psync
            &&& next_stage_spec(HandshakeStage::Psync, has_auth) == HandshakeStage::Snapshot
        }),
{
}

/// `REPLCONF ACK offset`, the answer to `GETACK`.
pub fn ack_reply(offset: u64) -> (r: Vec<u8>)
    ensures
        r@ == request_bytes(seq!["REPLCONF"@, "ACK"@, decimal_text(offset as nat)]),
{
    let o = decimal_string(offset);
    let mut a: Vec<&str> = Vec::new();
    a.push("REPLCONF");
    a.push("ACK");
    a.push(o.as_str());
    assert(a@.map_values(|x: &str| x@) =~= seq!["REPLCONF"@, "ACK"@, decimal_text(offset as nat)]);
    request(&a)
}

/// The length of the master's one-line reply at the start of `buf`, with
/// its `\r\n`, once it has fully arrived.
pub fn simple_reply_len(buf: &[u8]) -> (r: Option<usize>)
    ensures
        match line_end(buf@) {
            Some(e) => r == Some((e + 2) as usize),
            None => r is None,
        },
{
    match get_line(buf) {
        Some((_, n)) => Some(n),
        None => None,
    }
}

/// What the master's answer to `PSYNC` (one line, with its `\r\n`) says: the
/// replication identifier of `+FULLRESYNC id offset`, nothing when the line
/// has fewer words, or why the line is refused.
pub open spec fn fullresync_outcome(line: Seq<u8>) -> Result<Option<Seq<char>>, Seq<char>> {
    if !valid_utf8(line) {
        Err(utf8_error_text(line))
    } else {
        let s = decode_utf8(line);
        if "+FULLRESYNC"@.len() <= s.len() && s.take("+FULLRESYNC"@.len() as int) == "+FULLRESYNC"@ {
            let parts = words(trim_text(s));
            if parts.len() >= 3 {
                Ok(Some(parts[1]))
            } else {
                Ok(None)
            }
        } else {
            Err("Expected +FULLRESYNC, got: "@ + trim_text(s))
        }
    }
}

/// Reads the master's answer to `PSYNC` from the start of `buf`: `None` until
/// a whole line has arrived, else the bytes it takes and whether it was
/// accepted; an accepted identifier becomes the replication identifier.
pub fn take_fullresync(buf: &[u8], repl: &mut ReplicationState) -> (r: Option<(usize, Result<(), String>)>)
    ensures
        match line_end(buf@) {
            None => r is None && final(repl)@ == old(repl)@,
            Some(e) => r matches Some((n, res)) && n == e + 2 && match fullresync_outcome(buf@.take(e + 2)) {
                Ok(Some(id)) => res is Ok && final(repl)@ == (ReplView { replid: id, ..old(repl)@ }),
                Ok(None) => res is Ok && final(repl)@ == old(repl)@,
                Err(m) => res matches Err(x) && x@ == m && final(repl)@ == old(repl)@,
            },
        },
{
    let n = match get_line(buf) {
        Some((_, n)) => n,
        None => {
            return None;
        },
    };
    proof {
        crate::protocol::resp::lemma_crlf_from(buf@, 0);
    }
    let line = &buf[0..n];
    assert(line@ =~= buf@.take(n as int));
    let s = match utf8_str(line) {
        Ok(s) => s,
        Err(m) => {
            return Some((n, Err(m)));
        },
    };
    if starts_with(s, "+FULLRESYNC") {
        let parts = split_whitespace(trim(s));
        if parts.len() >= 3 {
            let id = parts[1].to_owned();
            repl.set_replid(id);
        }
        Some((n, Ok(())))
    } else {
        let mut m = "Expected +FULLRESYNC, got: ".to_owned();
        m.append(trim(s));
        Some((n, Err(m)))
    }
}

/// The header `$length\r\n` of the snapshot that follows `FULLRESYNC`.
pub enum RdbHeader {
    /// More bytes are needed (the buffer does not start with `$`, or its
    /// line has not fully arrived).
    NeedMore,
    /// The header takes `header_len` bytes and announces `payload_len` bytes.
    Ready { header_len: usize, payload_len: usize },
    /// The length is not a number.
    Invalid(String),
}

/// What the start of `buf` says of the snapshot header.
pub open spec fn rdb_header_spec(buf: Seq<u8>) -> Result<Option<(int, int)>, Seq<char>> {
    if buf.len() == 0 || buf[0] != 36 {
        Ok(None)
    } else {
        match line_end(buf) {
            None => Ok(None),
            Some(e) => {
                let digits = buf.subrange(1, e);
                if !valid_utf8(digits) {
                    Err(utf8_error_text(digits))
                } else {
                    match parse_int_spec(digits, 0, usize::MAX as int) {
                        Ok(v) => Ok(Some((e + 2, v))),
                        Err(_) => Err("Invalid RDB length"@),
                    }
                }
            },
        }
    }
}

/// Reads the snapshot header from the start of `buf`.
pub fn take_rdb_header(buf: &[u8]) -> (r: RdbHeader)
    ensures
        match rdb_header_spec(buf@) {
            Ok(None) => r is NeedMore,
            Ok(Some((h, p))) => r matches RdbHeader::Ready { header_len, payload_len } && header_len == h
                && payload_len == p,
            Err(m) => r matches RdbHeader::Invalid(x) && x@ == m,
        },
{
    if buf.len() == 0 || buf[0] != 36 {
        return RdbHeader::NeedMore;
    }
    let (line, n) = match get_line(buf) {
        Some(x) => x,
        None => {
            return RdbHeader::NeedMore;
        },
    };
    proof {
        crate::protocol::resp::lemma_crlf_from(buf@, 0);
    }
    let e = n - 2;
    let digits = &buf[1..e];
    assert(digits@ =~= buf@.subrange(1, e as int));
    proof {
        crate::text::lemma_parse_int_bounds(digits@, 0, usize::MAX as int);
    }
    match utf8_str(digits) {
        Err(m) => RdbHeader::Invalid(m),
        Ok(_) => match parse_unsigned(digits, usize::MAX as u64) {
            Ok(v) => RdbHeader::Ready { header_len: n, payload_len: v as usize },
            Err(_) => RdbHeader::Invalid("Invalid RDB length".to_owned()),
        },
    }
}

/// A frame at the start of the replication stream.
pub enum ReplicaFrame {
    /// The frame has not fully arrived.
    NeedMore,
    /// `REPLCONF GETACK`, taking that many bytes: the master asks for the
    /// processed offset.
    GetAck(usize),
    /// A command to apply, taking that many bytes.
    Apply(Command, usize),
    /// A frame that is not applied (any other `REPLCONF`, or one that is not
    /// a command), taking that many bytes.
    Skip(usize),
    /// The stream is corrupt at its first byte, which is dropped.
    Corrupt,
}

/// The content of a stream frame.
pub enum ReplicaFrameView {
    NeedMore,
    GetAck(int),
    Apply(CmdView, int),
    Skip(int),
    Corrupt,
}

impl View for ReplicaFrame {
    type V = ReplicaFrameView;

    open spec fn view(&self) -> ReplicaFrameView {
        match self {
            ReplicaFrame::NeedMore => ReplicaFrameView::NeedMore,
            ReplicaFrame::GetAck(n) => ReplicaFrameView::GetAck(*n as int),
            ReplicaFrame::Apply(c, n) => ReplicaFrameView::Apply(c@, *n as int),
            ReplicaFrame::Skip(n) => ReplicaFrameView::Skip(*n as int),
            ReplicaFrame::Corrupt => ReplicaFrameView::Corrupt,
        }
    }
}

/// How the replica reads the frame at the start of its stream: `REPLCONF
/// GETACK` asks for the processed offset, other `REPLCONF`s and frames that
/// are not commands are passed over, every other command is applied.
pub open spec fn replica_frame_spec(buf: Seq<u8>) -> ReplicaFrameView {
    match parse_frame(buf) {
        ParseOutcome::Incomplete => ReplicaFrameView::NeedMore,
        ParseOutcome::Invalid(_, _) => ReplicaFrameView::Corrupt,
        ParseOutcome::Complete(f, k) => match parse_command(f) {
            Ok(CmdView::ReplConf(args)) => if args.len() > 0 && ascii_upper(args[0]) == "GETACK"@ {
                ReplicaFrameView::GetAck(k)
            } else {
                ReplicaFrameView::Skip(k)
            },
            Ok(c) => ReplicaFrameView::Apply(c, k),
            Err(_) => ReplicaFrameView::Skip(k),
        },
    }
}

/// Classifies the frame at the start of the replication stream.
pub fn replica_frame(buf: &[u8]) -> (r: ReplicaFrame)
    ensures
        r@ == replica_frame_spec(buf@),
{
    match parse_prefix(buf) {
        Ok(None) => ReplicaFrame::NeedMore,
        Err(_) => ReplicaFrame::Corrupt,
        Ok(Some((v, k))) => match Command::from_value(&v) {
            Ok(Command::ReplConf(args)) => {
                if args.len() > 0 {
                    assert(crate::commands::strings_view(args)[0] == args@[0]@);
                    let sub = to_ascii_uppercase(args[0].as_str());
                    if str_eq(sub.as_str(), "GETACK") {
                        return ReplicaFrame::GetAck(k);
                    }
                }
                ReplicaFrame::Skip(k)
            },
            Ok(cmd) => ReplicaFrame::Apply(cmd, k),
            Err(_) => ReplicaFrame::Skip(k),
        },
    }
}

/// Answers `GETACK`: the `n` bytes of the request count as processed, and
/// the reply reports the new count.
pub fn acknowledge(repl: &mut ReplicationState, n: usize) -> (r: Vec<u8>)
    ensures
        final(repl)@ == (ReplView { processed: add_wrapping(old(repl)@.processed, n as nat), ..old(repl)@ }),
        r@ == request_bytes(seq!["REPLCONF"@, "ACK"@, decimal_text(add_wrapping(old(repl)@.processed, n as nat) as nat)]),
{
    let total = repl.record_processed(n);
    ack_reply(total)
}

/// Applies a command from the master's stream at time `now` and counts its
/// `n` bytes as processed. Nothing is forwarded, and no password applies.
pub fn apply_replicated(cmd: &Command, db: &mut Db, repl: &mut ReplicationState, n: usize, now: u64)
    requires
        old(db).inv(),
        fits_spec(cmd@, old(db)@),
    ensures
        final(db).inv(),
        final(db)@ == db_step(cmd@, old(db)@, now),
        final(repl)@ == (ReplView { processed: add_wrapping(old(repl)@.processed, n as nat), ..old(repl)@ }),
{
    let mut authenticated = true;
    let _ = cmd.execute_at(db, repl, None, None, &mut authenticated, None, now);
    repl.record_processed(n);
}

/// A replica applies what its master forwards: the bytes a master forwards
/// for a command it decoded from a client's input are read by the replica as
/// that same command, taking all of those bytes.
pub proof fn lemma_replica_applies_forwarded(
    input: Seq<u8>,
    f: Frame,
    k: int,
    c: CmdView,
    db: DbView,
    repl: ReplView,
)
    requires
        parse_frame(input) == ParseOutcome::Complete(f, k),
        parse_command(f) == Ok::<CmdView, Seq<char>>(c),
        forwarded_bytes(c, db, repl, Some(input.take(k))) is Some,
    ensures
        replica_frame_spec(forwarded_bytes(c, db, repl, Some(input.take(k)))->0) == ReplicaFrameView::Apply(c, k),
{
    lemma_parse_frame_bounds(input);
    assert(agree(input, input.take(k), k));
    lemma_parse_frame_agree(input, input.take(k));
}

} // verus!
