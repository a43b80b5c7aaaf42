//! Decoding commands from RESP arrays: the command name is matched without
//! regard to ASCII case, and each command reads its arguments by position.
use vstd::prelude::*;
use vstd::utf8::*;
use crate::protocol::resp::{frame_text, frames_of, lemma_frames_of, Frame, Value};
use crate::text::{ascii_upper, parse_int_spec, parse_u16, parse_u64, str_eq, to_ascii_uppercase};
use super::{opt_string_view, strings_view, ClusterSubcommand, CmdView, Command, SubView};

verus! {

broadcast use vstd::utf8::group_utf8_lib;

/// The text, or `d` where there is none.
pub open spec fn or_text(o: Option<Seq<char>>, d: Seq<char>) -> Seq<char> {
    match o {
        Some(t) => t,
        None => d,
    }
}

/// The text of element `i`, if there is such an element and it has text.
pub open spec fn text_at(items: Seq<Frame>, i: int) -> Option<Seq<char>> {
    if 0 <= i < items.len() {
        frame_text(items[i])
    } else {
        None
    }
}

/// The texts of the elements that have one, in order.
pub open spec fn texts(items: Seq<Frame>) -> Seq<Seq<char>>
    decreases items.len(),
{
    if items.len() == 0 {
        Seq::empty()
    } else {
        match frame_text(items.last()) {
            Some(t) => texts(items.drop_last()).push(t),
            None => texts(items.drop_last()),
        }
    }
}

/// A decimal `u64` (`str::parse::<u64>`).
pub open spec fn number_u64(t: Seq<char>) -> Option<u64> {
    match parse_int_spec(encode_utf8(t), 0, u64::MAX as int) {
        Ok(v) => Some(v as u64),
        Err(_) => None,
    }
}

/// A decimal `u16` (`str::parse::<u16>`).
pub open spec fn number_u16(t: Seq<char>) -> Option<u16> {
    match parse_int_spec(encode_utf8(t), 0, u16::MAX as int) {
        Ok(v) => Some(v as u16),
        Err(_) => None,
    }
}

/// The options of `SET` from position `idx` on: each `PX` (any case) that
/// has a following element takes it as the expiry in milliseconds, which
/// is unset when that element has text that is not a number; the last
/// such option wins.
pub open spec fn px_scan(items: Seq<Frame>, idx: int, px: Option<u64>) -> Option<u64>
    decreases items.len() - idx,
{
    if idx < 0 || idx >= items.len() {
        px
    } else if ascii_upper(or_text(frame_text(items[idx]), ""@)) == "PX"@ && idx + 1 < items.len() {
        let next = match frame_text(items[idx + 1]) {
            Some(ms) => number_u64(ms),
            None => px,
        };
        px_scan(items, idx + 2, next)
    } else {
        px_scan(items, idx + 1, px)
    }
}

/// The value of `SET`: the bytes of a bulk string, else the UTF-8 bytes of
/// the element's text (none: empty).
pub open spec fn set_value(f: Frame) -> Seq<u8> {
    match f {
        Frame::Bulk(Some(b)) => b,
        _ => encode_utf8(or_text(frame_text(f), ""@)),
    }
}

/// A slot number written as an element.
pub open spec fn slot_number(f: Frame) -> Option<u16> {
    match frame_text(f) {
        Some(t) => number_u16(t),
        None => None,
    }
}

/// The slots of `CLUSTER ADDSLOTS`: every element must be a `u16`.
pub open spec fn slots_of(items: Seq<Frame>) -> Result<Seq<u16>, Seq<char>> {
    if forall|k: int| 0 <= k < items.len() ==> #[trigger] slot_number(items[k]) is Some {
        Ok(Seq::new(items.len(), |k: int| slot_number(items[k])->0))
    } else {
        Err("Invalid slot integer"@)
    }
}

/// `CLUSTER` and its subcommands.
pub open spec fn parse_cluster(items: Seq<Frame>) -> Result<CmdView, Seq<char>> {
    if items.len() < 2 {
        Err("ERR wrong number of arguments for 'cluster' command"@)
    } else {
        match frame_text(items[1]) {
            None => Err("Subcommand must be string"@),
            Some(sub) => {
                let up = ascii_upper(sub);
                if up == "KEYSLOT"@ {
                    if items.len() < 3 {
                        Err("ERR wrong number of arguments for 'cluster keyslot' command"@)
                    } else {
                        Ok(CmdView::Cluster(SubView::KeySlot(or_text(frame_text(items[2]), ""@))))
                    }
                } else if up == "INFO"@ {
                    Ok(CmdView::Cluster(SubView::Info))
                } else if up == "NODES"@ {
                    Ok(CmdView::Cluster(SubView::Nodes))
                } else if up == "SLOTS"@ {
                    Ok(CmdView::Cluster(SubView::Slots))
                } else if up == "MEET"@ {
                    if items.len() < 4 {
                        Err("ERR wrong number of arguments for 'cluster meet' command"@)
                    } else {
                        match slot_number(items[3]) {
                            Some(port) => Ok(CmdView::Cluster(SubView::Meet(or_text(frame_text(items[2]), "127.0.0.1"@), port))),
                            None => Err("Invalid port for 'cluster meet'"@),
                        }
                    }
                } else if up == "ADDSLOTS"@ {
                    if items.len() < 3 {
                        Err("ERR wrong number of arguments for 'cluster addslots' command"@)
                    } else {
                        match slots_of(items.skip(2)) {
                            Ok(s) => Ok(CmdView::Cluster(SubView::AddSlots(s))),
                            Err(e) => Err(e),
                        }
                    }
                } else {
                    Err("ERR unknown cluster subcommand '"@ + up + "'"@)
                }
            },
        }
    }
}

/// A command whose upper-cased name is `up`, with its elements (the name
/// first).
pub open spec fn parse_named(up: Seq<char>, items: Seq<Frame>) -> Result<CmdView, Seq<char>> {
    if up == "PING"@ {
        Ok(CmdView::Ping(text_at(items, 1)))
    } else if up == "ECHO"@ {
        if items.len() < 2 {
            Err("ERR wrong number of arguments for 'echo' command"@)
        } else {
            Ok(CmdView::Echo(or_text(frame_text(items[1]), ""@)))
        }
    } else if up == "GET"@ {
        if items.len() < 2 {
            Err("ERR wrong number of arguments for 'get' command"@)
        } else {
            match frame_text(items[1]) {
                Some(k) => Ok(CmdView::Get(k)),
                None => Err("Key must be string"@),
            }
        }
    } else if up == "SET"@ {
        if items.len() < 3 {
            Err("ERR wrong number of arguments for 'set' command"@)
        } else {
            match frame_text(items[1]) {
                Some(k) => Ok(CmdView::SetValue(k, set_value(items[2]), px_scan(items, 3, None))),
                None => Err("Key must be string"@),
            }
        }
    } else if up == "DEL"@ {
        if items.len() < 2 {
            Err("ERR wrong number of arguments for 'del' command"@)
        } else {
            Ok(CmdView::Del(texts(items.skip(1))))
        }
    } else if up == "EXISTS"@ {
        if items.len() < 2 {
            Err("ERR wrong number of arguments for 'exists' command"@)
        } else {
            Ok(CmdView::Exists(texts(items.skip(1))))
        }
    } else if up == "KEYS"@ {
        Ok(CmdView::Keys(if items.len() > 1 { or_text(frame_text(items[1]), "*"@) } else { "*"@ }))
    } else if up == "INFO"@ {
        Ok(CmdView::Info(text_at(items, 1)))
    } else if up == "REPLCONF"@ {
        Ok(CmdView::ReplConf(texts(items.skip(1))))
    } else if up == "PSYNC"@ {
        Ok(CmdView::Psync(or_text(text_at(items, 1), "?"@), or_text(text_at(items, 2), "-1"@)))
    } else if up == "AUTH"@ {
        if items.len() == 2 {
            Ok(CmdView::Auth(None, or_text(frame_text(items[1]), ""@)))
        } else if items.len() >= 3 {
            Ok(CmdView::Auth(frame_text(items[1]), or_text(frame_text(items[2]), ""@)))
        } else {
            Err("ERR wrong number of arguments for 'auth' command"@)
        }
    } else if up == "CLUSTER"@ {
        parse_cluster(items)
    } else if up == "QUIT"@ {
        Ok(CmdView::Quit)
    } else if up == "COMMAND"@ {
        Ok(CmdView::Command)
    } else {
        Err("unknown command '"@ + up + "'"@)
    }
}

/// Decoding a command: an array whose first element names it.
pub open spec fn parse_command(f: Frame) -> Result<CmdView, Seq<char>> {
    match f {
        Frame::Array(Some(items)) => {
            if items.len() == 0 {
                Err("Empty command array"@)
            } else {
                match frame_text(items[0]) {
                    Some(name) => parse_named(ascii_upper(name), items),
                    None => Err("First element must be string command name"@),
                }
            }
        },
        _ => Err("Expected Array frame for Redis command"@),
    }
}

/// The content of a decoding result.
pub open spec fn parsed(r: Result<Command, String>) -> Result<CmdView, Seq<char>> {
    match r {
        Ok(c) => Ok(c@),
        Err(m) => Err(m@),
    }
}

/// The text of an element, owned.
fn text_of(v: &Value) -> (r: Option<String>)
    ensures
        opt_string_view(r) == frame_text(v@),
{
    match v.as_str() {
        Some(s) => Some(s.to_owned()),
        None => None,
    }
}

/// The text of an element, owned, or `d`.
fn text_or(v: &Value, d: &str) -> (r: String)
    ensures
        r@ == or_text(frame_text(v@), d@),
{
    match v.as_str() {
        Some(s) => s.to_owned(),
        None => d.to_owned(),
    }
}

/// The texts of the elements from `start` on that have one.
fn texts_from(items: &Vec<Value>, start: usize) -> (r: Vec<String>)
    requires
        start <= items@.len(),
    ensures
        strings_view(r) == texts(frames_of(items@).skip(start as int)),
{
    let ghost fs = frames_of(items@);
    proof {
        lemma_frames_of(items@);
    }
    let mut out: Vec<String> = Vec::new();
    let mut i: usize = start;
    proof {
        assert(fs.subrange(start as int, start as int) =~= Seq::<Frame>::empty());
        assert(strings_view(out) =~= Seq::<Seq<char>>::empty());
    }
    while i < items.len()
        invariant
            start <= i <= items@.len(),
            fs == frames_of(items@),
            fs.len() == items@.len(),
            forall|k: int| 0 <= k < items@.len() ==> #[trigger] fs[k] == items@[k]@,
            strings_view(out) == texts(fs.subrange(start as int, i as int)),
        decreases items@.len() - i,
    {
        proof {
            assert(fs.subrange(start as int, i + 1).drop_last() =~= fs.subrange(start as int, i as int));
            assert(fs.subrange(start as int, i + 1).last() == fs[i as int]);
        }
        match text_of(&items[i]) {
            Some(t) => {
                let ghost before = strings_view(out);
                out.push(t);
                assert(strings_view(out) =~= before.push(t@));
            },
            None => {},
        }
        i = i + 1;
    }
    assert(fs.subrange(start as int, i as int) =~= fs.skip(start as int));
    out
}

/// The expiry options of `SET`.
fn scan_px(items: &Vec<Value>) -> (r: Option<u64>)
    ensures
        r == px_scan(frames_of(items@), 3, None),
{
    let ghost fs = frames_of(items@);
    let ghost target = px_scan(fs, 3, None);
    proof {
        lemma_frames_of(items@);
    }
    let mut px: Option<u64> = None;
    let mut idx: usize = 3;
    while idx < items.len()
        invariant
            fs == frames_of(items@),
            fs.len() == items@.len(),
            forall|k: int| 0 <= k < items@.len() ==> #[trigger] fs[k] == items@[k]@,
            px_scan(fs, idx as int, px) == target,
        decreases items@.len() - idx,
    {
        let opt = match items[idx].as_str() {
            Some(s) => to_ascii_uppercase(s),
            None => to_ascii_uppercase(""),
        };
        assert(fs[idx as int] == items@[idx as int]@);
        if str_eq(opt.as_str(), "PX") && idx + 1 < items.len() {
            assert(fs[idx + 1] == items@[idx + 1]@);
            match items[idx + 1].as_str() {
                Some(ms) => {
                    px = match parse_u64(ms.as_bytes()) {
                        Ok(v) => Some(v),
                        Err(_) => None,
                    };
                },
                None => {},
            }
            idx = idx + 2;
        } else {
            idx = idx + 1;
        }
    }
    px
}

/// A slot number written as an element.
fn slot_from(v: &Value) -> (r: Option<u16>)
    ensures
        r == slot_number(v@),
{
    match v.as_str() {
        Some(s) => match parse_u16(s.as_bytes()) {
            Ok(n) => Some(n),
            Err(_) => None,
        },
        None => None,
    }
}

/// The slots of `CLUSTER ADDSLOTS`, from element 2 on.
fn slots_from(items: &Vec<Value>) -> (r: Result<Vec<u16>, String>)
    requires
        2 <= items@.len(),
    ensures
        match slots_of(frames_of(items@).skip(2)) {
            Ok(s) => r matches Ok(v) && v@ == s,
            Err(e) => r matches Err(m) && m@ == e,
        },
{
    let ghost fs = frames_of(items@);
    let ghost rest = fs.skip(2);
    proof {
        lemma_frames_of(items@);
    }
    let mut out: Vec<u16> = Vec::new();
    let mut i: usize = 2;
    while i < items.len()
        invariant
            2 <= i <= items@.len(),
            fs == frames_of(items@),
            rest == fs.skip(2),
            fs.len() == items@.len(),
            forall|k: int| 0 <= k < items@.len() ==> #[trigger] fs[k] == items@[k]@,
            out@.len() == i - 2,
            forall|k: int| 0 <= k < i - 2 ==> slot_number(#[trigger] rest[k]) == Some(out@[k]),
        decreases items@.len() - i,
    {
        assert(rest[i - 2] == fs[i as int]);
        match slot_from(&items[i]) {
            Some(s) => {
                out.push(s);
            },
            None => {
                assert(slot_number(rest[i - 2]) is None);
                return Err("Invalid slot integer".to_owned());
            },
        }
        i = i + 1;
    }
    assert(out@ =~= Seq::new(rest.len(), |k: int| slot_number(rest[k])->0));
    Ok(out)
}

impl Command {
    /// `CLUSTER` and its subcommands.
    fn from_cluster(items: &Vec<Value>) -> (r: Result<Command, String>)
        ensures
            parsed(r) == parse_cluster(frames_of(items@)),
    {
        let ghost fs = frames_of(items@);
        proof {
            lemma_frames_of(items@);
        }
        if items.len() < 2 {
            return Err("ERR wrong number of arguments for 'cluster' command".to_owned());
        }
        assert(fs[1] == items@[1]@);
        let sub = match items[1].as_str() {
            Some(s) => to_ascii_uppercase(s),
            None => {
                return Err("Subcommand must be string".to_owned());
            },
        };
        let up = sub.as_str();
        if str_eq(up, "KEYSLOT") {
            if items.len() < 3 {
                return Err("ERR wrong number of arguments for 'cluster keyslot' command".to_owned());
            }
            assert(fs[2] == items@[2]@);
            Ok(Command::Cluster(ClusterSubcommand::KeySlot(text_or(&items[2], ""))))
        } else if str_eq(up, "INFO") {
            Ok(Command::Cluster(ClusterSubcommand::Info))
        } else if str_eq(up, "NODES") {
            Ok(Command::Cluster(ClusterSubcommand::Nodes))
        } else if str_eq(up, "SLOTS") {
            Ok(Command::Cluster(ClusterSubcommand::Slots))
        } else if str_eq(up, "MEET") {
            if items.len() < 4 {
                return Err("ERR wrong number of arguments for 'cluster meet' command".to_owned());
            }
            assert(fs[2] == items@[2]@ && fs[3] == items@[3]@);
            let ip = text_or(&items[2], "127.0.0.1");
            match slot_from(&items[3]) {
                Some(port) => Ok(Command::Cluster(ClusterSubcommand::Meet { ip, port })),
                None => Err("Invalid port for 'cluster meet'".to_owned()),
            }
        } else if str_eq(up, "ADDSLOTS") {
            if items.len() < 3 {
                return Err("ERR wrong number of arguments for 'cluster addslots' command".to_owned());
            }
            match slots_from(items) {
                Ok(s) => Ok(Command::Cluster(ClusterSubcommand::AddSlots(s))),
                Err(e) => Err(e),
            }
        } else {
            let mut m = "ERR unknown cluster subcommand '".to_owned();
            m.append(up);
            m.append("'");
            Err(m)
        }
    }

    /// `SET key value [PX ms]...`.
    fn from_set(items: &Vec<Value>) -> (r: Result<Command, String>)
        requires
            items@.len() >= 3,
        ensures
            parsed(r) == (match frame_text(frames_of(items@)[1]) {
                Some(k) => Ok(CmdView::SetValue(k, set_value(frames_of(items@)[2]), px_scan(frames_of(items@), 3, None))),
                None => Err("Key must be string"@),
            }),
    {
        let ghost fs = frames_of(items@);
        proof {
            lemma_frames_of(items@);
        }
        assert(fs[1] == items@[1]@ && fs[2] == items@[2]@);
        let key = match text_of(&items[1]) {
            Some(k) => k,
            None => {
                return Err("Key must be string".to_owned());
            },
        };
        let value = match items[2].as_bytes() {
            Some(b) => vstd::slice::slice_to_vec(b.as_slice()),
            None => {
                let t = text_or(&items[2], "");
                vstd::slice::slice_to_vec(t.as_str().as_bytes())
            },
        };
        let px_ms = scan_px(items);
        Ok(Command::SetValue { key, value, px_ms })
    }

    /// A command whose upper-cased name is `up`.
    fn from_named(up: &str, items: &Vec<Value>) -> (r: Result<Command, String>)
        requires
            items@.len() >= 1,
        ensures
            parsed(r) == parse_named(up@, frames_of(items@)),
    {
        let ghost fs = frames_of(items@);
        proof {
            lemma_frames_of(items@);
        }
        let n = items.len();
        if str_eq(up, "PING") {
            let msg = if n > 1 {
                assert(fs[1] == items@[1]@);
                text_of(&items[1])
            } else {
                None
            };
            Ok(Command::Ping(msg))
        } else if str_eq(up, "ECHO") {
            if n < 2 {
                return Err("ERR wrong number of arguments for 'echo' command".to_owned());
            }
            assert(fs[1] == items@[1]@);
            Ok(Command::Echo(text_or(&items[1], "")))
        } else if str_eq(up, "GET") {
            if n < 2 {
                return Err("ERR wrong number of arguments for 'get' command".to_owned());
            }
            assert(fs[1] == items@[1]@);
            match text_of(&items[1]) {
                Some(k) => Ok(Command::Get(k)),
                None => Err("Key must be string".to_owned()),
            }
        } else if str_eq(up, "SET") {
            if n < 3 {
                return Err("ERR wrong number of arguments for 'set' command".to_owned());
            }
            Self::from_set(items)
        } else if str_eq(up, "DEL") {
            if n < 2 {
                return Err("ERR wrong number of arguments for 'del' command".to_owned());
            }
            Ok(Command::Del(texts_from(items, 1)))
        } else if str_eq(up, "EXISTS") {
            if n < 2 {
                return Err("ERR wrong number of arguments for 'exists' command".to_owned());
            }
            Ok(Command::Exists(texts_from(items, 1)))
        } else if str_eq(up, "KEYS") {
            let pattern = if n > 1 {
                assert(fs[1] == items@[1]@);
                text_or(&items[1], "*")
            } else {
                "*".to_owned()
            };
            Ok(Command::Keys(pattern))
        } else if str_eq(up, "INFO") {
            let section = if n > 1 {
                assert(fs[1] == items@[1]@);
                text_of(&items[1])
            } else {
                None
            };
            Ok(Command::Info(section))
        } else if str_eq(up, "REPLCONF") {
            Ok(Command::ReplConf(texts_from(items, 1)))
        } else if str_eq(up, "PSYNC") {
            let repl_id = if n > 1 {
                assert(fs[1] == items@[1]@);
                text_or(&items[1], "?")
            } else {
                "?".to_owned()
            };
            let offset = if n > 2 {
                assert(fs[2] == items@[2]@);
                text_or(&items[2], "-1")
            } else {
                "-1".to_owned()
            };
            Ok(Command::Psync { repl_id, offset })
        } else if str_eq(up, "AUTH") {
            if n == 2 {
                assert(fs[1] == items@[1]@);
                Ok(Command::Auth { username: None, password: text_or(&items[1], "") })
            } else if n >= 3 {
                assert(fs[1] == items@[1]@ && fs[2] == items@[2]@);
                let username = text_of(&items[1]);
                let password = text_or(&items[2], "");
                Ok(Command::Auth { username, password })
            } else {
                Err("ERR wrong number of arguments for 'auth' command".to_owned())
            }
        } else if str_eq(up, "CLUSTER") {
            Self::from_cluster(items)
        } else if str_eq(up, "QUIT") {
            Ok(Command::Quit)
        } else if str_eq(up, "COMMAND") {
            Ok(Command::Command)
        } else {
            let mut m = "unknown command '".to_owned();
            m.append(up);
            m.append("'");
            Err(m)
        }
    }

    /// Decodes a command from a RESP array whose first element names it.
    pub fn from_value(val: &Value) -> (r: Result<Command, String>)
        ensures
            parsed(r) == parse_command(val@),
    {
        match val {
            Value::Array(Some(items)) => {
                proof {
                    lemma_frames_of(items@);
                }
                if items.len() == 0 {
                    return Err("Empty command array".to_owned());
                }
                assert(frames_of(items@)[0] == items@[0]@);
                let up = match items[0].as_str() {
                    Some(s) => to_ascii_uppercase(s),
                    None => {
                        return Err("First element must be string command name".to_owned());
                    },
                };
                Self::from_named(up.as_str(), items)
            },
            _ => Err("Expected Array frame for Redis command".to_owned()),
        }
    }
}

/// The options of `SET` depend only on the elements they scan.
pub proof fn lemma_px_scan_same(a: Seq<Frame>, b: Seq<Frame>, idx: int, px: Option<u64>)
    requires
        a.len() == b.len(),
        forall|k: int| idx <= k < a.len() ==> a[k] == b[k],
    ensures
        px_scan(a, idx, px) == px_scan(b, idx, px),
    decreases a.len() - idx,
{
    if 0 <= idx < a.len() {
        if idx + 1 < a.len() {
            let next = match frame_text(a[idx + 1]) {
                Some(ms) => number_u64(ms),
                None => px,
            };
            lemma_px_scan_same(a, b, idx + 2, next);
        }
        lemma_px_scan_same(a, b, idx + 1, px);
    }
}

/// Command names are matched without regard to ASCII case: a name written
/// in other letters with the same upper case decodes the same.
pub proof fn lemma_command_name_case(items: Seq<Frame>, name: Seq<char>, alt: Seq<char>)
    requires
        items.len() > 0,
        frame_text(items[0]) == Some(name),
        ascii_upper(alt) == ascii_upper(name),
    ensures
        parse_command(Frame::Array(Some(items.update(0, Frame::Simple(alt))))) == parse_command(
            Frame::Array(Some(items)),
        ),
{
    let other = items.update(0, Frame::Simple(alt));
    assert(other.skip(1) =~= items.skip(1));
    if items.len() >= 2 {
        assert(other.skip(2) =~= items.skip(2));
    }
    lemma_px_scan_same(other, items, 3, None);
    assert(forall|k: int| 1 <= k < items.len() ==> other[k] == items[k]);
}


proof fn lemma_auth_named(items: Seq<Frame>)
    ensures
        parse_named("AUTH"@, items) == if items.len() == 2 {
            Ok::<CmdView, Seq<char>>(CmdView::Auth(None, or_text(frame_text(items[1]), ""@)))
        } else if items.len() >= 3 {
            Ok(CmdView::Auth(frame_text(items[1]), or_text(frame_text(items[2]), ""@)))
        } else {
            Err("ERR wrong number of arguments for 'auth' command"@)
        },
{
    let a = "AUTH"@;
    reveal_strlit("AUTH");
    assert(a != "PING"@) by { reveal_strlit("PING"); assert(a[0] != "PING"@[0]); }
    assert(a != "ECHO"@) by { reveal_strlit("ECHO"); assert(a[0] != "ECHO"@[0]); }
    assert(a != "GET"@) by { reveal_strlit("GET"); assert(a.len() != "GET"@.len()); }
    assert(a != "SET"@) by { reveal_strlit("SET"); assert(a.len() != "SET"@.len()); }
    assert(a != "DEL"@) by { reveal_strlit("DEL"); assert(a.len() != "DEL"@.len()); }
    assert(a != "EXISTS"@) by { reveal_strlit("EXISTS"); assert(a.len() != "EXISTS"@.len()); }
    assert(a != "KEYS"@) by { reveal_strlit("KEYS"); assert(a[0] != "KEYS"@[0]); }
    assert(a != "INFO"@) by { reveal_strlit("INFO"); assert(a[0] != "INFO"@[0]); }
    assert(a != "REPLCONF"@) by { reveal_strlit("REPLCONF"); assert(a.len() != "REPLCONF"@.len()); }
    assert(a != "PSYNC"@) by { reveal_strlit("PSYNC"); assert(a.len() != "PSYNC"@.len()); }
}

proof fn lemma_bulk_text(t: Seq<char>)
    ensures
        frame_text(Frame::Bulk(Some(encode_utf8(t)))) == Some(t),
{
    encode_utf8_valid_utf8(t);
    encode_utf8_decode_utf8(t);
}

/// `AUTH` takes its password from its last argument: `AUTH password`
/// decodes to a password with no username, and `AUTH username password` to
/// that username and that password, whatever case the name is written in.
pub proof fn lemma_auth_arguments(name: Seq<char>, user: Seq<char>, password: Seq<char>)
    requires
        ascii_upper(name) == "AUTH"@,
    ensures
        parse_command(
            Frame::Array(Some(seq![
                Frame::Bulk(Some(encode_utf8(name))),
                Frame::Bulk(Some(encode_utf8(password))),
            ])),
        ) == Ok::<CmdView, Seq<char>>(CmdView::Auth(None, password)),
        parse_command(
            Frame::Array(Some(seq![
                Frame::Bulk(Some(encode_utf8(name))),
                Frame::Bulk(Some(encode_utf8(user))),
                Frame::Bulk(Some(encode_utf8(password))),
            ])),
        ) == Ok::<CmdView, Seq<char>>(CmdView::Auth(Some(user), password)),
{
    lemma_bulk_text(name);
    lemma_bulk_text(user);
    lemma_bulk_text(password);
    let two = seq![Frame::Bulk(Some(encode_utf8(name))), Frame::Bulk(Some(encode_utf8(password)))];
    let three = seq![
        Frame::Bulk(Some(encode_utf8(name))),
        Frame::Bulk(Some(encode_utf8(user))),
        Frame::Bulk(Some(encode_utf8(password))),
    ];
    lemma_auth_named(two);
    lemma_auth_named(three);
    assert(frame_text(two[0]) == Some(name));
    assert(frame_text(two[1]) == Some(password));
    assert(frame_text(three[0]) == Some(name));
    assert(frame_text(three[1]) == Some(user));
    assert(frame_text(three[2]) == Some(password));
}

} // verus!
