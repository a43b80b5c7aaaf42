//! RESP (REdis Serialization Protocol) values: constructors, accessors,
//! serialization and an incremental parser that never consumes a partial
//! frame.
use vstd::prelude::*;
use vstd::utf8::*;
use crate::text::{
    decimal_int_string, decimal_int_text, decimal_text, ascii_text, decimal_digits, decimal_int, decimal_string, is_ascii_bytes,
    lemma_ascii_text_encoding, lemma_decimal_digits_ascii, lemma_decimal_int_ascii,
    lemma_encode_utf8_concat, lemma_parse_decimal_int, parse_i64,
    parse_int_spec, parse_isize, push_decimal, push_decimal_signed, utf8_error_text, utf8_str,
};

verus! {

broadcast use vstd::utf8::group_utf8_lib;

/// A RESP value.
#[derive(Debug, PartialEq, Eq)]
pub enum Value {
    SimpleString(String),
    Error(String),
    Integer(i64),
    BulkString(Option<Vec<u8>>),
    Array(Option<Vec<Value>>),
}

/// The mathematical content of a RESP value.
pub enum Frame {
    Simple(Seq<char>),
    Error(Seq<char>),
    Integer(int),
    Bulk(Option<Seq<u8>>),
    Array(Option<Seq<Frame>>),
}

/// The content of a value.
pub open spec fn frame_of(v: Value) -> Frame
    decreases v, 0nat,
{
    match v {
        Value::SimpleString(s) => Frame::Simple(s@),
        Value::Error(s) => Frame::Error(s@),
        Value::Integer(i) => Frame::Integer(i as int),
        Value::BulkString(b) => match b {
            Some(d) => Frame::Bulk(Some(d@)),
            None => Frame::Bulk(None),
        },
        Value::Array(a) => match a {
            Some(items) => Frame::Array(Some(frames_of(items@))),
            None => Frame::Array(None),
        },
    }
}

/// The contents of a sequence of values.
pub open spec fn frames_of(s: Seq<Value>) -> Seq<Frame>
    decreases s, 1nat,
{
    if s.len() == 0 {
        Seq::empty()
    } else {
        seq![frame_of(s[0])] + frames_of(s.subrange(1, s.len() as int))
    }
}

impl View for Value {
    type V = Frame;

    open spec fn view(&self) -> Frame {
        frame_of(*self)
    }
}

pub proof fn lemma_frames_of(s: Seq<Value>)
    ensures
        frames_of(s).len() == s.len(),
        forall|i: int| 0 <= i < s.len() ==> #[trigger] frames_of(s)[i] == frame_of(s[i]),
    decreases s.len(),
{
    if s.len() > 0 {
        let rest = s.subrange(1, s.len() as int);
        lemma_frames_of(rest);
        assert forall|i: int| 0 <= i < s.len() implies #[trigger] frames_of(s)[i] == frame_of(s[i]) by {
            if i > 0 {
                assert(frames_of(s)[i] == frames_of(rest)[i - 1]);
                assert(rest[i - 1] == s[i]);
            }
        }
    }
}

/// The line terminator `\r\n`.
pub open spec fn crlf() -> Seq<u8> {
    seq![13u8, 10u8]
}

/// The bytes that encode a frame on the wire.
pub open spec fn encode_frame(f: Frame) -> Seq<u8>
    decreases f, 0nat,
{
    match f {
        Frame::Simple(s) => seq![43u8] + encode_utf8(s) + crlf(),
        Frame::Error(s) => seq![45u8, 69u8, 82u8, 82u8, 32u8] + encode_utf8(s) + crlf(),
        Frame::Integer(i) => seq![58u8] + decimal_int(i) + crlf(),
        Frame::Bulk(b) => match b {
            None => seq![36u8, 45u8, 49u8] + crlf(),
            Some(d) => seq![36u8] + decimal_digits(d.len()) + crlf() + d + crlf(),
        },
        Frame::Array(a) => match a {
            None => seq![42u8, 45u8, 49u8] + crlf(),
            Some(items) => seq![42u8] + decimal_digits(items.len()) + crlf() + encode_frames(items),
        },
    }
}

/// The concatenated encodings of a sequence of frames.
pub open spec fn encode_frames(s: Seq<Frame>) -> Seq<u8>
    decreases s, 1nat,
{
    if s.len() == 0 {
        Seq::empty()
    } else {
        encode_frame(s[0]) + encode_frames(s.subrange(1, s.len() as int))
    }
}

pub(crate) fn push_bytes(buf: &mut Vec<u8>, b: &[u8])
    ensures
        final(buf)@ == old(buf)@ + b@,
{
    let mut i: usize = 0;
    while i < b.len()
        invariant
            i <= b@.len(),
            buf@ == old(buf)@ + b@.take(i as int),
        decreases b@.len() - i,
    {
        buf.push(b[i]);
        i = i + 1;
        assert(b@.take(i as int) =~= b@.take((i - 1) as int).push(b@[i - 1]));
    }
    assert(b@.take(i as int) =~= b@);
}

fn push_crlf(buf: &mut Vec<u8>)
    ensures
        final(buf)@ == old(buf)@ + crlf(),
{
    buf.push(13u8);
    buf.push(10u8);
    assert(final(buf)@ =~= old(buf)@ + crlf());
}

impl Value {
    /// `+OK`
    pub fn ok() -> (r: Value)
        ensures
            r@ == Frame::Simple("OK"@),
    {
        Value::SimpleString("OK".to_owned())
    }

    /// `+PONG`
    pub fn pong() -> (r: Value)
        ensures
            r@ == Frame::Simple("PONG"@),
    {
        Value::SimpleString("PONG".to_owned())
    }

    /// The null bulk string.
    pub fn null_bulk() -> (r: Value)
        ensures
            r@ == Frame::Bulk(None),
    {
        Value::BulkString(None)
    }

    /// The null array.
    pub fn null_array() -> (r: Value)
        ensures
            r@ == Frame::Array(None),
    {
        Value::Array(None)
    }

    /// An error reply carrying `msg`.
    pub fn error(msg: &str) -> (r: Value)
        ensures
            r@ == Frame::Error(msg@),
    {
        Value::Error(msg.to_owned())
    }

    /// A bulk string holding the UTF-8 bytes of `s`.
    pub fn string(s: &str) -> (r: Value)
        ensures
            r@ == Frame::Bulk(Some(encode_utf8(s@))),
    {
        Value::BulkString(Some(vstd::slice::slice_to_vec(s.as_bytes())))
    }

    /// The payload of a non-null bulk string.
    pub fn as_bytes(&self) -> (r: Option<&Vec<u8>>)
        ensures
            match self@ {
                Frame::Bulk(Some(d)) => r matches Some(b) && b@ == d,
                _ => r is None,
            },
    {
        match self {
            Value::BulkString(Some(b)) => Some(b),
            _ => None,
        }
    }

    /// The text of a simple string, or of a bulk string whose bytes are UTF-8.
    pub fn as_str(&self) -> (r: Option<&str>)
        ensures
            match frame_text(self@) {
                Some(t) => r matches Some(s) && s@ == t,
                None => r is None,
            },
    {
        match self {
            Value::SimpleString(s) => Some(s.as_str()),
            Value::BulkString(Some(b)) => match utf8_str(b.as_slice()) {
                Ok(s) => Some(s),
                Err(_) => None,
            },
            _ => None,
        }
    }

    /// Appends the wire encoding of this value to `buf`.
    pub fn serialize(&self, buf: &mut Vec<u8>)
        ensures
            final(buf)@ == old(buf)@ + encode_frame(self@),
        decreases encode_frame(self@).len(),
    {
        match self {
            Value::SimpleString(s) => {
                buf.push(43u8);
                push_bytes(buf, s.as_str().as_bytes());
                push_crlf(buf);
                assert(final(buf)@ =~= old(buf)@ + encode_frame(self@));
            },
            Value::Error(s) => {
                push_bytes(buf, "-ERR ".as_bytes());
                proof {
                    reveal_strlit("-ERR ");
                    assert("-ERR "@ =~= seq!['-', 'E', 'R', 'R', ' ']);
                    lemma_ascii_text_encoding(seq![45u8, 69u8, 82u8, 82u8, 32u8]);
                    assert(ascii_text(seq![45u8, 69u8, 82u8, 82u8, 32u8]) =~= "-ERR "@);
                }
                push_bytes(buf, s.as_str().as_bytes());
                push_crlf(buf);
                assert(final(buf)@ =~= old(buf)@ + encode_frame(self@));
            },
            Value::Integer(i) => {
                buf.push(58u8);
                push_decimal_signed(buf, *i);
                push_crlf(buf);
                assert(final(buf)@ =~= old(buf)@ + encode_frame(self@));
            },
            Value::BulkString(None) => {
                buf.push(36u8);
                buf.push(45u8);
                buf.push(49u8);
                push_crlf(buf);
                assert(final(buf)@ =~= old(buf)@ + encode_frame(self@));
            },
            Value::BulkString(Some(data)) => {
                buf.push(36u8);
                push_decimal(buf, data.len() as u64);
                push_crlf(buf);
                push_bytes(buf, data.as_slice());
                push_crlf(buf);
                assert(final(buf)@ =~= old(buf)@ + encode_frame(self@));
            },
            Value::Array(None) => {
                buf.push(42u8);
                buf.push(45u8);
                buf.push(49u8);
                push_crlf(buf);
                assert(final(buf)@ =~= old(buf)@ + encode_frame(self@));
            },
            Value::Array(Some(elements)) => {
                buf.push(42u8);
                push_decimal(buf, elements.len() as u64);
                push_crlf(buf);
                let ghost header = buf@;
                proof {
                    lemma_frames_of(elements@);
                }
                let mut i: usize = 0;
                while i < elements.len()
                    invariant
                        i <= elements@.len(),
                        frames_of(elements@).len() == elements@.len(),
                        forall|k: int| 0 <= k < elements@.len() ==> #[trigger] frames_of(elements@)[k] == frame_of(elements@[k]),
                        buf@ == header + encode_frames(frames_of(elements@).take(i as int)),
                        self@ == Frame::Array(Some(frames_of(elements@))),
                    decreases elements@.len() - i,
                {
                    proof {
                        lemma_encode_frames_element_len(frames_of(elements@), i as int);
                        assert(elements@[i as int]@ == frames_of(elements@)[i as int]);
                        assert(encode_frame(elements@[i as int]@).len() < encode_frame(self@).len());
                    }
                    elements[i].serialize(buf);
                    proof {
                        lemma_encode_frames_push(frames_of(elements@).take(i as int), frames_of(elements@)[i as int]);
                        assert(frames_of(elements@).take(i + 1) =~= frames_of(elements@).take(i as int).push(frames_of(elements@)[i as int]));
                    }
                    i = i + 1;
                }
                assert(frames_of(elements@).take(i as int) =~= frames_of(elements@));
                assert(final(buf)@ =~= old(buf)@ + encode_frame(self@));
            },
        }
    }
}

/// How `bytes::Bytes` displays one byte in its `Debug` form: the escapes of
/// a byte string literal, printable ASCII as itself, anything else as
/// `\xNN` in lowercase hexadecimal.
pub open spec fn byte_escape(b: u8) -> Seq<char> {
    if b == 10 {
        "\\n"@
    } else if b == 13 {
        "\\r"@
    } else if b == 9 {
        "\\t"@
    } else if b == 92 || b == 34 {
        seq!['\\', b as char]
    } else if b == 0 {
        "\\0"@
    } else if 0x20 <= b < 0x7f {
        seq![b as char]
    } else {
        seq!['\\', 'x', hex_char(b / 16), hex_char(b % 16)]
    }
}

/// A lowercase hexadecimal digit.
pub open spec fn hex_char(d: u8) -> char {
    if d < 10 {
        (48 + d) as char
    } else {
        (87 + d) as char
    }
}

/// The escapes of a byte string, in order.
pub open spec fn bytes_escaped(b: Seq<u8>) -> Seq<char>
    decreases b.len(),
{
    if b.len() == 0 {
        Seq::empty()
    } else {
        bytes_escaped(b.drop_last()) + byte_escape(b.last())
    }
}

/// The `Debug` form of `bytes::Bytes`: `b"..."` with each byte escaped.
pub open spec fn bytes_debug_text(b: Seq<u8>) -> Seq<char> {
    "b\""@ + bytes_escaped(b) + "\""@
}

/// Trusted bridge to `<bytes::Bytes as Debug>::fmt`: `b"..."` with each
/// byte shown as `byte_escape` says (the crate's `BytesRef` formatting).
#[verifier::external_body]
fn bytes_debug(b: &[u8]) -> (r: String)
    ensures
        r@ == bytes_debug_text(b@),
{
    format!("{:?}", bytes::Bytes::copy_from_slice(b))
}

/// The display form of a frame: strings quoted, errors and integers
/// labelled, nulls as `(nil)`, arrays as numbered lines between brackets;
/// bulk bytes that are not UTF-8 in their `Debug` form.
pub open spec fn display_text(f: Frame) -> Seq<char>
    decreases f, 0nat,
{
    match f {
        Frame::Simple(s) => "\""@ + s + "\""@,
        Frame::Error(s) => "(error) "@ + s,
        Frame::Integer(i) => "(integer) "@ + decimal_int_text(i),
        Frame::Bulk(None) => "(nil)"@,
        Frame::Bulk(Some(b)) => if valid_utf8(b) {
            "\""@ + decode_utf8(b) + "\""@
        } else {
            bytes_debug_text(b)
        },
        Frame::Array(None) => "(nil)"@,
        Frame::Array(Some(items)) => "[\n"@ + items_display(items) + "]"@,
    }
}

/// The numbered lines of an array's elements.
pub open spec fn items_display(items: Seq<Frame>) -> Seq<char>
    decreases items, 1nat,
{
    if items.len() == 0 {
        Seq::empty()
    } else {
        items_display(items.subrange(0, items.len() - 1)) + "  "@ + decimal_text(items.len()) + ": "@
            + display_text(items[items.len() - 1]) + "\n"@
    }
}

impl Clone for Value {
    fn clone(&self) -> (r: Self)
        ensures
            r@ == self@,
        decreases encode_frame(self@).len(),
    {
        match self {
            Value::SimpleString(s) => Value::SimpleString(s.clone()),
            Value::Error(s) => Value::Error(s.clone()),
            Value::Integer(i) => Value::Integer(*i),
            Value::BulkString(None) => Value::BulkString(None),
            Value::BulkString(Some(b)) => Value::BulkString(Some(vstd::slice::slice_to_vec(b.as_slice()))),
            Value::Array(None) => Value::Array(None),
            Value::Array(Some(elements)) => {
                proof {
                    lemma_frames_of(elements@);
                }
                let ghost fs = frames_of(elements@);
                let mut out: Vec<Value> = Vec::new();
                let mut i: usize = 0;
                while i < elements.len()
                    invariant
                        i <= elements@.len(),
                        fs == frames_of(elements@),
                        fs.len() == elements@.len(),
                        forall|k: int| 0 <= k < elements@.len() ==> #[trigger] fs[k] == frame_of(elements@[k]),
                        out@.len() == i,
                        forall|k: int| 0 <= k < i ==> (#[trigger] out@[k])@ == fs[k],
                        self@ == Frame::Array(Some(fs)),
                    decreases elements@.len() - i,
                {
                    proof {
                        lemma_encode_frames_element_len(fs, i as int);
                        assert(elements@[i as int]@ == fs[i as int]);
                        assert(encode_frame(elements@[i as int]@).len() < encode_frame(self@).len());
                    }
                    let c = elements[i].clone();
                    out.push(c);
                    i = i + 1;
                }
                proof {
                    lemma_frames_of(out@);
                    assert(frames_of(out@) =~= fs);
                }
                Value::Array(Some(out))
            },
        }
    }
}

impl Value {
    /// The display form of the value.
    pub fn display(&self) -> (r: String)
        ensures
            r@ == display_text(self@),
        decreases encode_frame(self@).len(),
    {
        match self {
            Value::SimpleString(s) => {
                let mut out = "\"".to_owned();
                out.append(s.as_str());
                out.append("\"");
                out
            },
            Value::Error(s) => {
                let mut out = "(error) ".to_owned();
                out.append(s.as_str());
                out
            },
            Value::Integer(i) => {
                let mut out = "(integer) ".to_owned();
                let d = decimal_int_string(*i);
                out.append(d.as_str());
                out
            },
            Value::BulkString(None) => "(nil)".to_owned(),
            Value::BulkString(Some(b)) => match utf8_str(b.as_slice()) {
                Ok(text) => {
                    let mut out = "\"".to_owned();
                    out.append(text);
                    out.append("\"");
                    out
                },
                Err(_) => bytes_debug(b.as_slice()),
            },
            Value::Array(None) => "(nil)".to_owned(),
            Value::Array(Some(elements)) => {
                let mut out = "[\n".to_owned();
                proof {
                    lemma_frames_of(elements@);
                }
                let ghost fs = frames_of(elements@);
                let mut i: usize = 0;
                while i < elements.len()
                    invariant
                        i <= elements@.len(),
                        fs == frames_of(elements@),
                        fs.len() == elements@.len(),
                        forall|k: int| 0 <= k < elements@.len() ==> #[trigger] fs[k] == frame_of(elements@[k]),
                        out@ == "[\n"@ + items_display(fs.take(i as int)),
                        self@ == Frame::Array(Some(fs)),
                    decreases elements@.len() - i,
                {
                    proof {
                        lemma_encode_frames_element_len(fs, i as int);
                        assert(elements@[i as int]@ == fs[i as int]);
                        assert(encode_frame(elements@[i as int]@).len() < encode_frame(self@).len());
                    }
                    out.append("  ");
                    let n = decimal_string((i + 1) as u64);
                    out.append(n.as_str());
                    out.append(": ");
                    let item = elements[i].display();
                    out.append(item.as_str());
                    out.append("\n");
                    proof {
                        let t = fs.take(i + 1);
                        assert(t.subrange(0, t.len() - 1) =~= fs.take(i as int));
                        assert(t[t.len() - 1] == fs[i as int]);
                    }
                    i = i + 1;
                }
                assert(fs.take(i as int) =~= fs);
                out.append("]");
                out
            },
        }
    }
}

/// The text that `as_str` finds in a frame.
pub open spec fn frame_text(f: Frame) -> Option<Seq<char>> {
    match f {
        Frame::Simple(s) => Some(s),
        Frame::Bulk(Some(b)) => if valid_utf8(b) {
            Some(decode_utf8(b))
        } else {
            None
        },
        _ => None,
    }
}

/// Each frame's encoding is part of the encoding of a sequence holding it.
pub proof fn lemma_encode_frames_element_len(s: Seq<Frame>, i: int)
    requires
        0 <= i < s.len(),
    ensures
        encode_frame(s[i]).len() <= encode_frames(s).len(),
    decreases s.len(),
{
    if i > 0 {
        let rest = s.subrange(1, s.len() as int);
        lemma_encode_frames_element_len(rest, i - 1);
        assert(rest[i - 1] == s[i]);
    }
}

pub proof fn lemma_encode_frames_push(s: Seq<Frame>, f: Frame)
    ensures
        encode_frames(s.push(f)) == encode_frames(s) + encode_frame(f),
    decreases s.len(),
{
    if s.len() == 0 {
        let one = s.push(f);
        assert(one.subrange(1, one.len() as int) =~= Seq::<Frame>::empty());
        assert(encode_frames(Seq::<Frame>::empty()) == Seq::<u8>::empty());
        assert(one[0] == f);
        assert(encode_frames(one) =~= encode_frame(f));
    } else {
        let rest = s.subrange(1, s.len() as int);
        lemma_encode_frames_push(rest, f);
        assert(s.push(f).subrange(1, s.len() + 1 as int) =~= rest.push(f));
        assert(encode_frames(s.push(f)) =~= encode_frames(s) + encode_frame(f));
    }
}


/// Why a frame could not be parsed.
#[derive(Debug)]
pub enum RespParseError {
    UnknownPrefix(u8),
    InvalidInteger,
    Protocol(String),
}

/// The content of a parse error.
pub enum ParseFailure {
    UnknownPrefix(u8),
    InvalidInteger,
    Protocol(Seq<char>),
}

impl View for RespParseError {
    type V = ParseFailure;

    open spec fn view(&self) -> ParseFailure {
        match self {
            RespParseError::UnknownPrefix(b) => ParseFailure::UnknownPrefix(*b),
            RespParseError::InvalidInteger => ParseFailure::InvalidInteger,
            RespParseError::Protocol(m) => ParseFailure::Protocol(m@),
        }
    }
}

/// The display text of a parse error.
pub open spec fn parse_failure_text(e: ParseFailure) -> Seq<char> {
    match e {
        ParseFailure::UnknownPrefix(b) => "Unknown RESP prefix byte: "@ + ascii_text(decimal_digits(b as nat)),
        ParseFailure::InvalidInteger => "Invalid integer in protocol"@,
        ParseFailure::Protocol(m) => "Protocol error: "@ + m,
    }
}

impl RespParseError {
    /// The error's display text.
    pub fn message(&self) -> (r: String)
        ensures
            r@ == parse_failure_text(self@),
    {
        match self {
            RespParseError::UnknownPrefix(b) => {
                let mut r = "Unknown RESP prefix byte: ".to_owned();
                let d = decimal_string(*b as u64);
                r.append(d.as_str());
                r
            },
            RespParseError::InvalidInteger => "Invalid integer in protocol".to_owned(),
            RespParseError::Protocol(m) => {
                let mut r = "Protocol error: ".to_owned();
                r.append(m.as_str());
                r
            },
        }
    }
}

/// What parsing the start of a buffer yields: more bytes are needed, a frame
/// and the number of bytes it occupies, or an error and the number of bytes
/// the parser had already consumed when it failed.
pub enum ParseOutcome {
    Incomplete,
    Complete(Frame, int),
    Invalid(ParseFailure, int),
}

/// What parsing the elements of an array yields.
pub enum ItemsOutcome {
    Incomplete,
    Complete(Seq<Frame>, int),
    Invalid(ParseFailure),
}

/// `s` holds `\r\n` at index `j`.
pub open spec fn crlf_at(s: Seq<u8>, j: int) -> bool {
    0 <= j && j + 1 < s.len() && s[j] == 13 && s[j + 1] == 10
}

/// The first `\r\n` at or after index `i`.
pub open spec fn crlf_from(s: Seq<u8>, i: nat) -> Option<int>
    decreases s.len() - i,
{
    if i + 1 >= s.len() {
        None
    } else if crlf_at(s, i as int) {
        Some(i as int)
    } else {
        crlf_from(s, i + 1)
    }
}

/// Index of the first `\r\n` in `s`: the end of its first line.
pub open spec fn line_end(s: Seq<u8>) -> Option<int> {
    crlf_from(s, 0)
}

pub open spec fn neg_bulk_text() -> Seq<char> {
    "Negative bulk string length other than -1"@
}

pub open spec fn missing_crlf_text() -> Seq<char> {
    "Expected CRLF after bulk string data"@
}

pub open spec fn neg_array_text() -> Seq<char> {
    "Negative array count other than -1"@
}

/// Parses one frame from the start of `s`.
pub open spec fn parse_frame(s: Seq<u8>) -> ParseOutcome
    decreases s.len(), 0nat,
{
    if s.len() == 0 {
        ParseOutcome::Incomplete
    } else if s[0] != 43 && s[0] != 45 && s[0] != 58 && s[0] != 36 && s[0] != 42 {
        ParseOutcome::Invalid(ParseFailure::UnknownPrefix(s[0]), 0)
    } else {
        match line_end(s) {
            None => ParseOutcome::Incomplete,
            Some(e) => {
                let body = s.subrange(1, e);
                if !valid_utf8(body) {
                    ParseOutcome::Invalid(ParseFailure::Protocol(utf8_error_text(body)), 0)
                } else if s[0] == 43 {
                    ParseOutcome::Complete(Frame::Simple(decode_utf8(body)), e + 2)
                } else if s[0] == 45 {
                    ParseOutcome::Complete(Frame::Error(decode_utf8(body)), e + 2)
                } else if s[0] == 58 {
                    match parse_int_spec(body, i64::MIN as int, i64::MAX as int) {
                        Ok(n) => ParseOutcome::Complete(Frame::Integer(n), e + 2),
                        Err(_) => ParseOutcome::Invalid(ParseFailure::InvalidInteger, 0),
                    }
                } else if s[0] == 36 {
                    match parse_int_spec(body, isize::MIN as int, isize::MAX as int) {
                        Err(_) => ParseOutcome::Invalid(ParseFailure::InvalidInteger, 0),
                        Ok(n) => if n == -1 {
                            ParseOutcome::Complete(Frame::Bulk(None), e + 2)
                        } else if n < 0 {
                            ParseOutcome::Invalid(ParseFailure::Protocol(neg_bulk_text()), 0)
                        } else if s.len() < e + n + 4 {
                            ParseOutcome::Incomplete
                        } else if s[e + 2 + n] == 13 && s[e + 3 + n] == 10 {
                            ParseOutcome::Complete(
                                Frame::Bulk(Some(s.subrange(e + 2, e + 2 + n))),
                                e + n + 4,
                            )
                        } else {
                            ParseOutcome::Invalid(ParseFailure::Protocol(missing_crlf_text()), e + 2 + n)
                        },
                    }
                } else {
                    match parse_int_spec(body, isize::MIN as int, isize::MAX as int) {
                        Err(_) => ParseOutcome::Invalid(ParseFailure::InvalidInteger, 0),
                        Ok(n) => if n == -1 {
                            ParseOutcome::Complete(Frame::Array(None), e + 2)
                        } else if n < 0 {
                            ParseOutcome::Invalid(ParseFailure::Protocol(neg_array_text()), 0)
                        } else {
                            proof {
                                lemma_crlf_from(s, 0);
                            }
                            match parse_items(s.subrange(e + 2, s.len() as int), n as nat) {
                                ItemsOutcome::Incomplete => ParseOutcome::Incomplete,
                                ItemsOutcome::Invalid(err) => ParseOutcome::Invalid(err, 0),
                                ItemsOutcome::Complete(items, k) => ParseOutcome::Complete(
                                    Frame::Array(Some(items)),
                                    e + 2 + k,
                                ),
                            }
                        },
                    }
                }
            },
        }
    }
}

/// Parses `n` consecutive frames from the start of `s`.
pub open spec fn parse_items(s: Seq<u8>, n: nat) -> ItemsOutcome
    decreases s.len(), n,
{
    if n == 0 {
        ItemsOutcome::Complete(Seq::empty(), 0)
    } else {
        match parse_frame(s) {
            ParseOutcome::Incomplete => ItemsOutcome::Incomplete,
            ParseOutcome::Invalid(err, _) => ItemsOutcome::Invalid(err),
            ParseOutcome::Complete(f, k) => if 0 < k <= s.len() {
                match parse_items(s.subrange(k, s.len() as int), (n - 1) as nat) {
                    ItemsOutcome::Complete(fs, j) => ItemsOutcome::Complete(seq![f] + fs, k + j),
                    other => other,
                }
            } else {
                // Unreachable: a complete frame occupies part of the buffer
                // (`lemma_parse_frame_bounds`).
                ItemsOutcome::Incomplete
            },
        }
    }
}

pub proof fn lemma_crlf_from(s: Seq<u8>, i: nat)
    ensures
        match crlf_from(s, i) {
            Some(e) => i <= e && crlf_at(s, e) && forall|j: int| i <= j < e ==> !#[trigger] crlf_at(s, j),
            None => forall|j: int| i <= j ==> !#[trigger] crlf_at(s, j),
        },
    decreases s.len() - i,
{
    if i + 1 < s.len() && !crlf_at(s, i as int) {
        lemma_crlf_from(s, i + 1);
    }
}


/// A parsed frame occupies a non-empty prefix of the buffer, and a failed
/// parse consumed no more than the buffer holds.
pub proof fn lemma_parse_frame_bounds(s: Seq<u8>)
    ensures
        parse_frame(s) matches ParseOutcome::Complete(_, k) ==> 0 < k <= s.len(),
        parse_frame(s) matches ParseOutcome::Invalid(_, c) ==> 0 <= c <= s.len(),
    decreases s.len(), 0nat,
{
    if s.len() > 0 {
        lemma_crlf_from(s, 0);
        match line_end(s) {
            None => {},
            Some(e) => {
                if s[0] == 42 {
                    let body = s.subrange(1, e);
                    match parse_int_spec(body, isize::MIN as int, isize::MAX as int) {
                        Ok(n) => {
                            if n >= 0 {
                                lemma_parse_items_bounds(s.subrange(e + 2, s.len() as int), n as nat);
                            }
                        },
                        Err(_) => {},
                    }
                }
            },
        }
    }
}

pub proof fn lemma_parse_items_bounds(s: Seq<u8>, n: nat)
    ensures
        parse_items(s, n) matches ItemsOutcome::Complete(fs, k) ==> 0 <= k <= s.len() && fs.len() == n,
    decreases s.len(), n,
{
    if n > 0 {
        lemma_parse_frame_bounds(s);
        match parse_frame(s) {
            ParseOutcome::Complete(f, k) => {
                if 0 < k <= s.len() {
                    lemma_parse_items_bounds(s.subrange(k, s.len() as int), (n - 1) as nat);
                }
            },
            _ => {},
        }
    }
}

/// `s` and `t` hold the same first `k` bytes.
pub open spec fn agree(s: Seq<u8>, t: Seq<u8>, k: int) -> bool {
    &&& 0 <= k <= s.len()
    &&& k <= t.len()
    &&& forall|i: int| 0 <= i < k ==> s[i] == t[i]
}

/// A line that ends within the bytes two buffers share ends at the same
/// place in both.
pub proof fn lemma_line_end_agree(s: Seq<u8>, t: Seq<u8>, k: int)
    requires
        line_end(s) matches Some(e) && e + 2 <= k,
        agree(s, t, k),
    ensures
        line_end(t) == line_end(s),
{
    lemma_crlf_from(s, 0);
    lemma_crlf_from(t, 0);
    let e = line_end(s)->0;
    assert(crlf_at(t, e));
    match line_end(t) {
        Some(e2) => {
            if e2 < e {
                assert(crlf_at(s, e2));
            }
        },
        None => {},
    }
}

/// A complete frame parses the same from any buffer that starts with its
/// bytes: what follows a frame does not change it.
pub proof fn lemma_parse_frame_agree(s: Seq<u8>, t: Seq<u8>)
    requires
        parse_frame(s) matches ParseOutcome::Complete(_, k) && agree(s, t, k),
    ensures
        parse_frame(t) == parse_frame(s),
    decreases s.len(), 0nat,
{
    let k = parse_frame(s)->Complete_1;
    lemma_parse_frame_bounds(s);
    lemma_crlf_from(s, 0);
    let e = line_end(s)->0;
    let body = s.subrange(1, e);
    if s[0] == 42 {
        match parse_int_spec(body, isize::MIN as int, isize::MAX as int) {
            Ok(n) => {
                if n >= 0 {
                    lemma_parse_items_bounds(s.subrange(e + 2, s.len() as int), n as nat);
                }
            },
            Err(_) => {},
        }
    }
    assert(e + 2 <= k);
    lemma_line_end_agree(s, t, k);
    assert(s.subrange(1, e) =~= t.subrange(1, e));
    assert(s[0] == t[0]);
    if s[0] == 36 {
        match parse_int_spec(body, isize::MIN as int, isize::MAX as int) {
            Ok(n) => {
                if n >= 0 {
                    assert(s.subrange(e + 2, e + 2 + n) =~= t.subrange(e + 2, e + 2 + n));
                    assert(s[e + 2 + n] == t[e + 2 + n]);
                    assert(s[e + 3 + n] == t[e + 3 + n]);
                }
            },
            Err(_) => {},
        }
    } else if s[0] == 42 {
        match parse_int_spec(body, isize::MIN as int, isize::MAX as int) {
            Ok(n) => {
                if n >= 0 {
                    let rs = s.subrange(e + 2, s.len() as int);
                    let rt = t.subrange(e + 2, t.len() as int);
                    let j = parse_items(rs, n as nat)->Complete_1;
                    assert(agree(rs, rt, j));
                    lemma_parse_items_agree(rs, rt, n as nat);
                }
            },
            Err(_) => {},
        }
    }
}

/// Complete elements parse the same from any buffer that starts with
/// their bytes.
pub proof fn lemma_parse_items_agree(s: Seq<u8>, t: Seq<u8>, n: nat)
    requires
        parse_items(s, n) matches ItemsOutcome::Complete(_, j) && agree(s, t, j),
    ensures
        parse_items(t, n) == parse_items(s, n),
    decreases s.len(), n,
{
    if n > 0 {
        lemma_parse_frame_bounds(s);
        let k = parse_frame(s)->Complete_1;
        let rs = s.subrange(k, s.len() as int);
        lemma_parse_items_bounds(rs, (n - 1) as nat);
        let j2 = parse_items(rs, (n - 1) as nat)->Complete_1;
        assert(agree(s, t, k));
        lemma_parse_frame_agree(s, t);
        let rt = t.subrange(k, t.len() as int);
        assert(agree(rs, rt, j2));
        lemma_parse_items_agree(rs, rt, (n - 1) as nat);
    }
}

/// The outcome that an executable parse result stands for.
pub open spec fn outcome_of(r: Result<Option<(Value, usize)>, (RespParseError, usize)>) -> ParseOutcome {
    match r {
        Ok(None) => ParseOutcome::Incomplete,
        Ok(Some((v, k))) => ParseOutcome::Complete(v@, k as int),
        Err((e, c)) => ParseOutcome::Invalid(e@, c as int),
    }
}

/// The outcome of parsing an array whose header line ends at `e` and whose
/// elements parse to `items`.
pub open spec fn array_outcome(items: ItemsOutcome, e: int) -> ParseOutcome {
    match items {
        ItemsOutcome::Incomplete => ParseOutcome::Incomplete,
        ItemsOutcome::Invalid(err) => ParseOutcome::Invalid(err, 0),
        ItemsOutcome::Complete(fs, k) => ParseOutcome::Complete(Frame::Array(Some(fs)), e + 2 + k),
    }
}

/// The first line of `src`, without its `\r\n`, and the number of bytes it
/// takes with the terminator.
pub fn get_line(src: &[u8]) -> (r: Option<(&[u8], usize)>)
    ensures
        match line_end(src@) {
            Some(e) => r matches Some((l, n)) && l@ == src@.take(e) && n == e + 2,
            None => r is None,
        },
{
    match find_line_end(src) {
        Some(e) => {
            proof {
                lemma_crlf_from(src@, 0);
            }
            assert(e + 2 <= src.len());
            let l = &src[0..e];
            assert(l@ =~= src@.take(e as int));
            Some((l, e + 2))
        },
        None => None,
    }
}

/// Index of the first `\r\n` in `src`.
fn find_line_end(src: &[u8]) -> (r: Option<usize>)
    ensures
        match line_end(src@) {
            Some(e) => r == Some(e as usize),
            None => r is None,
        },
{
    proof {
        lemma_crlf_from(src@, 0);
    }
    let n = src.len();
    if n < 2 {
        return None;
    }
    let mut i: usize = 0;
    while i < n - 1
        invariant
            n == src@.len(),
            n >= 2,
            i <= n - 1,
            forall|j: int| 0 <= j < i ==> !#[trigger] crlf_at(src@, j),
        decreases n - i,
    {
        if src[i] == 13 && src[i + 1] == 10 {
            assert(crlf_at(src@, i as int));
            proof {
                lemma_crlf_from(src@, 0);
                match line_end(src@) {
                    Some(e) => {
                        if e < i {
                            assert(!crlf_at(src@, e));
                        }
                        if e > i {
                            assert(!crlf_at(src@, i as int));
                        }
                    },
                    None => {
                        assert(!crlf_at(src@, i as int));
                    },
                }
            }
            return Some(i);
        }
        assert(!crlf_at(src@, i as int));
        i = i + 1;
    }
    assert(forall|j: int| i <= j ==> !#[trigger] crlf_at(src@, j));
    None
}

/// Prepends already parsed frames (occupying `off` bytes) to the outcome of
/// parsing the rest of an array.
pub open spec fn prepend_items(fs: Seq<Frame>, off: int, out: ItemsOutcome) -> ItemsOutcome {
    match out {
        ItemsOutcome::Complete(gs, j) => ItemsOutcome::Complete(fs + gs, off + j),
        other => other,
    }
}

/// Parses one frame from the start of `src`, reporting the bytes it occupies
/// (or, for an error, the bytes consumed before the error was found).
pub fn parse_prefix(src: &[u8]) -> (r: Result<Option<(Value, usize)>, (RespParseError, usize)>)
    ensures
        outcome_of(r) == parse_frame(src@),
    decreases src@.len(),
{
    let n = src.len();
    if n == 0 {
        return Ok(None);
    }
    let tag = src[0];
    if tag != 43 && tag != 45 && tag != 58 && tag != 36 && tag != 42 {
        return Err((RespParseError::UnknownPrefix(tag), 0));
    }
    proof {
        lemma_crlf_from(src@, 0);
    }
    let e = match find_line_end(src) {
        None => {
            return Ok(None);
        },
        Some(e) => e,
    };
    let body = &src[1..e];
    assert(body@ =~= src@.subrange(1, e as int));
    let text = match utf8_str(body) {
        Err(m) => {
            return Err((RespParseError::Protocol(m), 0));
        },
        Ok(t) => t,
    };
    if tag == 43 {
        return Ok(Some((Value::SimpleString(text.to_owned()), e + 2)));
    }
    if tag == 45 {
        return Ok(Some((Value::Error(text.to_owned()), e + 2)));
    }
    if tag == 58 {
        proof {
            crate::text::lemma_parse_int_bounds(body@, i64::MIN as int, i64::MAX as int);
        }
        return match parse_i64(body) {
            Ok(v) => Ok(Some((Value::Integer(v), e + 2))),
            Err(_) => Err((RespParseError::InvalidInteger, 0)),
        };
    }
    proof {
        crate::text::lemma_parse_int_bounds(body@, isize::MIN as int, isize::MAX as int);
    }
    let len = match parse_isize(body) {
        Ok(v) => v,
        Err(_) => {
            return Err((RespParseError::InvalidInteger, 0));
        },
    };
    if tag == 36 {
        if len == -1 {
            return Ok(Some((Value::BulkString(None), e + 2)));
        }
        if len < 0 {
            return Err((RespParseError::Protocol("Negative bulk string length other than -1".to_owned()), 0));
        }
        let len = len as usize;
        if n - (e + 2) < len || n - (e + 2) - len < 2 {
            return Ok(None);
        }
        let start = e + 2;
        let stop = start + len;
        if src[stop] == 13 && src[stop + 1] == 10 {
            let data = vstd::slice::slice_to_vec(&src[start..stop]);
            assert(data@ =~= src@.subrange(start as int, stop as int));
            return Ok(Some((Value::BulkString(Some(data)), stop + 2)));
        }
        return Err((RespParseError::Protocol("Expected CRLF after bulk string data".to_owned()), stop));
    }
    // An array of `len` frames.
    if len == -1 {
        return Ok(Some((Value::Array(None), e + 2)));
    }
    if len < 0 {
        return Err((RespParseError::Protocol("Negative array count other than -1".to_owned()), 0));
    }
    let count = len as usize;
    let start = e + 2;
    let ghost rest0 = src@.subrange(start as int, n as int);
    assert(parse_frame(src@) == array_outcome(parse_items(rest0, count as nat), e as int));
    let mut elements: Vec<Value> = Vec::new();
    let mut pos = start;
    let mut i: usize = 0;
    proof {
        assert(frames_of(elements@) =~= Seq::<Frame>::empty());
        assert(rest0.subrange(0, rest0.len() as int) =~= rest0);
        assert(Seq::<Frame>::empty() + Seq::<Frame>::empty() =~= Seq::<Frame>::empty());
    }
    while i < count
        invariant
            n == src@.len(),
            3 <= start <= pos <= n,
            i <= count,
            rest0 == src@.subrange(start as int, n as int),
            start == e + 2,
            parse_frame(src@) == array_outcome(parse_items(rest0, count as nat), e as int),
            parse_items(rest0, count as nat) == prepend_items(
                frames_of(elements@),
                pos - start,
                parse_items(src@.subrange(pos as int, n as int), (count - i) as nat),
            ),
        decreases count - i,
    {
        let rest = &src[pos..n];
        assert(rest@ =~= src@.subrange(pos as int, n as int));
        let got = parse_prefix(rest);
        proof {
            lemma_parse_frame_bounds(rest@);
        }
        match got {
            Ok(None) => {
                return Ok(None);
            },
            Err((err, _)) => {
                return Err((err, 0));
            },
            Ok(Some((v, k))) => {
                let ghost f = v@;
                let ghost before = frames_of(elements@);
                proof {
                    let tail = rest@.subrange(k as int, rest@.len() as int);
                    assert(tail =~= src@.subrange(pos + k, n as int));
                    lemma_frames_push(elements@, v);
                    match parse_items(tail, (count - i - 1) as nat) {
                        ItemsOutcome::Complete(fs, j) => {
                            assert(before + (seq![f] + fs) =~= before.push(f) + fs);
                        },
                        _ => {},
                    }
                }
                elements.push(v);
                pos = pos + k;
                i = i + 1;
            },
        }
    }
    proof {
        assert(parse_items(src@.subrange(pos as int, n as int), 0) == ItemsOutcome::Complete(Seq::<Frame>::empty(), 0));
        assert(frames_of(elements@) + Seq::<Frame>::empty() =~= frames_of(elements@));
    }
    Ok(Some((Value::Array(Some(elements)), pos)))
}

pub proof fn lemma_frames_push(s: Seq<Value>, v: Value)
    ensures
        frames_of(s.push(v)) == frames_of(s).push(frame_of(v)),
{
    lemma_frames_of(s);
    lemma_frames_of(s.push(v));
    assert(frames_of(s.push(v)) =~= frames_of(s).push(frame_of(v)));
}


impl Value {
    /// Parses one frame from the start of `src`. A complete frame is removed
    /// from `src`; when more bytes are needed, `src` is left untouched; on an
    /// error, the bytes consumed before the error was found are removed.
    pub fn parse(src: &mut Vec<u8>) -> (r: Result<Option<Value>, RespParseError>)
        ensures
            match parse_frame(old(src)@) {
                ParseOutcome::Incomplete => r matches Ok(None) && final(src)@ == old(src)@,
                ParseOutcome::Complete(f, k) => r matches Ok(Some(v)) && v@ == f
                    && final(src)@ == old(src)@.subrange(k, old(src)@.len() as int),
                ParseOutcome::Invalid(e, c) => r matches Err(err) && err@ == e
                    && final(src)@ == old(src)@.subrange(c, old(src)@.len() as int),
            },
    {
        proof {
            lemma_parse_frame_bounds(src@);
        }
        match parse_prefix(src.as_slice()) {
            Ok(None) => Ok(None),
            Ok(Some((v, k))) => {
                let rest = src.split_off(k);
                *src = rest;
                Ok(Some(v))
            },
            Err((e, c)) => {
                let rest = src.split_off(c);
                *src = rest;
                Err(e)
            },
        }
    }
}


/// No `\r\n` occurs anywhere in `b`.
pub open spec fn no_crlf(b: Seq<u8>) -> bool {
    forall|j: int| !#[trigger] crlf_at(b, j)
}

/// A frame that survives the trip through the wire: its simple and error
/// strings hold no `\r\n`, and its integers and lengths fit the types the
/// parser reads them into.
pub open spec fn wire_safe(f: Frame) -> bool
    decreases f, 0nat,
{
    match f {
        Frame::Simple(s) => no_crlf(encode_utf8(s)),
        Frame::Error(s) => no_crlf(encode_utf8(s)),
        Frame::Integer(i) => i64::MIN <= i <= i64::MAX,
        Frame::Bulk(b) => match b {
            Some(d) => d.len() <= isize::MAX,
            None => true,
        },
        Frame::Array(a) => match a {
            Some(items) => items.len() <= isize::MAX && all_wire_safe(items),
            None => true,
        },
    }
}

pub open spec fn all_wire_safe(s: Seq<Frame>) -> bool
    decreases s, 1nat,
{
    s.len() == 0 || (wire_safe(s[0]) && all_wire_safe(s.subrange(1, s.len() as int)))
}

/// What parsing the encoding of a frame gives back: the frame itself, except
/// that an error reply is read back with the `ERR ` prefix that encoding
/// added.
pub open spec fn echoed(f: Frame) -> Frame
    decreases f, 0nat,
{
    match f {
        Frame::Error(s) => Frame::Error(seq!['E', 'R', 'R', ' '] + s),
        Frame::Array(a) => match a {
            Some(items) => Frame::Array(Some(echoed_all(items))),
            None => Frame::Array(None),
        },
        other => other,
    }
}

pub open spec fn echoed_all(s: Seq<Frame>) -> Seq<Frame>
    decreases s, 1nat,
{
    if s.len() == 0 {
        Seq::empty()
    } else {
        seq![echoed(s[0])] + echoed_all(s.subrange(1, s.len() as int))
    }
}

proof fn lemma_line_end_at(s: Seq<u8>, e: int)
    requires
        crlf_at(s, e),
        forall|j: int| 0 <= j < e ==> !#[trigger] crlf_at(s, j),
    ensures
        line_end(s) == Some(e),
{
    lemma_crlf_from(s, 0);
    match line_end(s) {
        Some(k) => {
            if k > e {
                assert(crlf_at(s, e));
            }
        },
        None => {
            assert(crlf_at(s, e));
        },
    }
}

/// A line `tag body \r\n` (followed by anything) ends right after `body`
/// when `body` holds no `\r\n`.
proof fn lemma_line(tag: u8, body: Seq<u8>, rest: Seq<u8>)
    requires
        tag != 13,
        no_crlf(body),
    ensures
        line_end(seq![tag] + body + crlf() + rest) == Some(1 + body.len() as int),
        (seq![tag] + body + crlf() + rest).subrange(1, 1 + body.len() as int) == body,
{
    let s = seq![tag] + body + crlf() + rest;
    let e: int = 1 + body.len() as int;
    assert(s[e] == 13 && s[e + 1] == 10);
    assert forall|j: int| 0 <= j < e implies !#[trigger] crlf_at(s, j) by {
        if j == 0 {
            assert(s[0] == tag);
        } else if j + 1 < e {
            assert(s[j] == body[j - 1] && s[j + 1] == body[j]);
            assert(!crlf_at(body, j - 1));
        } else {
            assert(s[j + 1] == 13);
        }
    }
    lemma_line_end_at(s, e);
    assert(s.subrange(1, 1 + body.len() as int) =~= body);
}

proof fn lemma_digits_no_crlf(d: Seq<u8>)
    requires
        forall|i: int| 0 <= i < d.len() ==> #[trigger] d[i] != 13,
    ensures
        no_crlf(d),
{
    assert forall|j: int| !#[trigger] crlf_at(d, j) by {
        if 0 <= j && j + 1 < d.len() {
            assert(d[j] != 13);
        }
    }
}

proof fn lemma_decimal_no_crlf(n: nat)
    ensures
        no_crlf(decimal_digits(n)),
        is_ascii_bytes(decimal_digits(n)),
{
    lemma_decimal_digits_ascii(n);
    let d = decimal_digits(n);
    assert forall|i: int| 0 <= i < d.len() implies #[trigger] d[i] != 13 by {
        assert(48 <= d[i] <= 57);
    }
    lemma_digits_no_crlf(d);
}

/// Parsing the decimal rendering of a length in a header.
proof fn lemma_header(tag: u8, n: nat, rest: Seq<u8>)
    requires
        tag != 13,
        n <= isize::MAX,
    ensures
        ({
            let s = seq![tag] + decimal_digits(n) + crlf() + rest;
            let e: int = 1 + decimal_digits(n).len() as int;
            &&& line_end(s) == Some(e)
            &&& s.subrange(1, e) == decimal_digits(n)
            &&& valid_utf8(decimal_digits(n))
            &&& parse_int_spec(decimal_digits(n), isize::MIN as int, isize::MAX as int) == Ok::<int, crate::text::IntErrorKind>(n as int)
        }),
{
    lemma_decimal_no_crlf(n);
    lemma_line(tag, decimal_digits(n), rest);
    lemma_ascii_text_encoding(decimal_digits(n));
    lemma_parse_decimal_int(n as int, isize::MIN as int, isize::MAX as int);
}

/// The RESP encoding reads back: parsing the encoding of a wire-safe frame,
/// followed by any bytes, yields the frame (an error reply with its `ERR `
/// prefix, see [`echoed`]) and consumes exactly its encoding.
pub proof fn lemma_parse_encode(f: Frame, rest: Seq<u8>)
    requires
        wire_safe(f),
    ensures
        parse_frame(encode_frame(f) + rest) == ParseOutcome::Complete(echoed(f), encode_frame(f).len() as int),
    decreases f, 0nat,
{
    let s = encode_frame(f) + rest;
    match f {
        Frame::Simple(t) => {
            let body = encode_utf8(t);
            assert(s =~= seq![43u8] + body + crlf() + rest);
            lemma_line(43u8, body, rest);
        },
        Frame::Error(t) => {
            let prefix = seq!['E', 'R', 'R', ' '];
            let pb = seq![69u8, 82u8, 82u8, 32u8];
            assert(ascii_text(pb) =~= prefix);
            lemma_ascii_text_encoding(pb);
            lemma_encode_utf8_concat(prefix, t);
            let body = encode_utf8(prefix + t);
            assert(body =~= pb + encode_utf8(t));
            assert forall|j: int| !#[trigger] crlf_at(body, j) by {
                if 0 <= j && j + 1 < body.len() {
                    if j >= 4 {
                        assert(body[j] == encode_utf8(t)[j - 4] && body[j + 1] == encode_utf8(t)[j - 3]);
                        assert(!crlf_at(encode_utf8(t), j - 4));
                    } else {
                        assert(body[j] == pb[j]);
                    }
                }
            }
            assert(s =~= seq![45u8] + body + crlf() + rest);
            lemma_line(45u8, body, rest);
        },
        Frame::Integer(i) => {
            let body = decimal_int(i);
            lemma_decimal_int_ascii(i);
            assert forall|k: int| 0 <= k < body.len() implies #[trigger] body[k] != 13 by {
                assert(body[k] < 128);
                if i < 0 {
                    if k > 0 {
                        lemma_decimal_digits_ascii((-i) as nat);
                        assert(body[k] == decimal_digits((-i) as nat)[k - 1]);
                    }
                } else {
                    lemma_decimal_digits_ascii(i as nat);
                }
            }
            lemma_digits_no_crlf(body);
            assert(s =~= seq![58u8] + body + crlf() + rest);
            lemma_line(58u8, body, rest);
            lemma_ascii_text_encoding(body);
            lemma_parse_decimal_int(i, i64::MIN as int, i64::MAX as int);
        },
        Frame::Bulk(b) => match b {
            None => {
                let body = seq![45u8, 49u8];
                lemma_digits_no_crlf(body);
                assert(s =~= seq![36u8] + body + crlf() + rest);
                lemma_line(36u8, body, rest);
                lemma_ascii_text_encoding(body);
                lemma_parse_decimal_int(-1, isize::MIN as int, isize::MAX as int);
                assert(decimal_int(-1) =~= body);
            },
            Some(d) => {
                let n = d.len();
                let ni = n as int;
                let tail = d + crlf() + rest;
                assert(s =~= seq![36u8] + decimal_digits(n) + crlf() + tail);
                lemma_header(36u8, n, tail);
                let e: int = 1 + decimal_digits(n).len() as int;
                assert(s.subrange(e + 2, e + 2 + ni) =~= d);
                assert(s[e + 2 + ni] == 13 && s[e + 3 + ni] == 10);
            },
        },
        Frame::Array(a) => match a {
            None => {
                let body = seq![45u8, 49u8];
                lemma_digits_no_crlf(body);
                assert(s =~= seq![42u8] + body + crlf() + rest);
                lemma_line(42u8, body, rest);
                lemma_ascii_text_encoding(body);
                lemma_parse_decimal_int(-1, isize::MIN as int, isize::MAX as int);
                assert(decimal_int(-1) =~= body);
            },
            Some(items) => {
                let n = items.len();
                let tail = encode_frames(items) + rest;
                assert(s =~= seq![42u8] + decimal_digits(n) + crlf() + tail);
                lemma_header(42u8, n, tail);
                let e: int = 1 + decimal_digits(n).len() as int;
                assert(s.subrange(e + 2, s.len() as int) =~= tail);
                lemma_parse_items_encode(items, rest);
            },
        },
    }
}

/// Parsing the concatenated encodings of wire-safe frames, followed by any
/// bytes, yields those frames.
pub proof fn lemma_parse_items_encode(fs: Seq<Frame>, rest: Seq<u8>)
    requires
        all_wire_safe(fs),
    ensures
        parse_items(encode_frames(fs) + rest, fs.len()) == ItemsOutcome::Complete(echoed_all(fs), encode_frames(fs).len() as int),
    decreases fs, 1nat,
{
    if fs.len() == 0 {
        assert(echoed_all(fs) =~= Seq::<Frame>::empty());
    } else {
        let tail = fs.subrange(1, fs.len() as int);
        let s = encode_frames(fs) + rest;
        let later = encode_frames(tail) + rest;
        assert(s =~= encode_frame(fs[0]) + later);
        lemma_parse_encode(fs[0], later);
        let k = encode_frame(fs[0]).len() as int;
        lemma_parse_frame_bounds(s);
        assert(s.subrange(k, s.len() as int) =~= later);
        lemma_parse_items_encode(tail, rest);
        assert((fs.len() - 1) as nat == tail.len());
    }
}


/// No `\r\n` ends before index `m` of a line `tag body \r\n` (`body`
/// without `\r\n`) when `m` stops short of the line's `\n`.
proof fn lemma_no_line_yet(tag: u8, body: Seq<u8>, rest: Seq<u8>, m: int)
    requires
        tag != 13,
        no_crlf(body),
        0 <= m <= 1 + body.len(),
    ensures
        line_end((seq![tag] + body + crlf() + rest).take(m + 1)) is None,
{
    let s = seq![tag] + body + crlf() + rest;
    let p = s.take(m + 1);
    lemma_crlf_from(p, 0);
    assert forall|j: int| 0 <= j implies !#[trigger] crlf_at(p, j) by {
        if 0 <= j && j + 1 < p.len() {
            assert(p[j] == s[j] && p[j + 1] == s[j + 1]);
            if j == 0 {
                assert(s[0] == tag);
            } else if j + 1 <= body.len() {
                assert(s[j] == body[j - 1] && s[j + 1] == body[j]);
                assert(!crlf_at(body, j - 1));
            } else {
                assert(s[j + 1] == 13);
            }
        }
    }
    match line_end(p) {
        Some(e) => {
            assert(crlf_at(p, e));
        },
        None => {},
    }
}

/// A partial frame is never taken for a whole one: parsing any proper prefix
/// of the encoding of a wire-safe frame asks for more bytes.
pub proof fn lemma_parse_partial(f: Frame, m: int)
    requires
        wire_safe(f),
        0 <= m < encode_frame(f).len(),
    ensures
        parse_frame(encode_frame(f).take(m)) == ParseOutcome::Incomplete,
    decreases f, 0nat,
{
    let enc = encode_frame(f);
    let p = enc.take(m);
    if m == 0 {
        return;
    }
    match f {
        Frame::Simple(t) => {
            let body = encode_utf8(t);
            assert(enc =~= seq![43u8] + body + crlf() + Seq::<u8>::empty());
            lemma_no_line_yet(43u8, body, Seq::<u8>::empty(), m - 1);
        },
        Frame::Error(t) => {
            let prefix = seq!['E', 'R', 'R', ' '];
            let pb = seq![69u8, 82u8, 82u8, 32u8];
            let body = pb + encode_utf8(t);
            assert forall|j: int| !#[trigger] crlf_at(body, j) by {
                if 0 <= j && j + 1 < body.len() {
                    if j >= 4 {
                        assert(body[j] == encode_utf8(t)[j - 4] && body[j + 1] == encode_utf8(t)[j - 3]);
                        assert(!crlf_at(encode_utf8(t), j - 4));
                    } else {
                        assert(body[j] == pb[j]);
                    }
                }
            }
            assert(enc =~= seq![45u8] + body + crlf() + Seq::<u8>::empty());
            lemma_no_line_yet(45u8, body, Seq::<u8>::empty(), m - 1);
        },
        Frame::Integer(i) => {
            let body = decimal_int(i);
            lemma_decimal_int_ascii(i);
            assert forall|k: int| 0 <= k < body.len() implies #[trigger] body[k] != 13 by {
                if i < 0 {
                    if k > 0 {
                        lemma_decimal_digits_ascii((-i) as nat);
                        assert(body[k] == decimal_digits((-i) as nat)[k - 1]);
                    }
                } else {
                    lemma_decimal_digits_ascii(i as nat);
                }
            }
            lemma_digits_no_crlf(body);
            assert(enc =~= seq![58u8] + body + crlf() + Seq::<u8>::empty());
            lemma_no_line_yet(58u8, body, Seq::<u8>::empty(), m - 1);
        },
        Frame::Bulk(b) => match b {
            None => {
                let body = seq![45u8, 49u8];
                lemma_digits_no_crlf(body);
                assert(enc =~= seq![36u8] + body + crlf() + Seq::<u8>::empty());
                lemma_no_line_yet(36u8, body, Seq::<u8>::empty(), m - 1);
            },
            Some(d) => {
                let n = d.len();
                let digits = decimal_digits(n);
                let e: int = 1 + digits.len() as int;
                let tail = d + crlf();
                lemma_decimal_no_crlf(n);
                assert(enc =~= seq![36u8] + digits + crlf() + tail);
                if m <= e + 1 {
                    lemma_no_line_yet(36u8, digits, tail, m - 1);
                } else {
                    let ptail = tail.take(m - e - 2);
                    assert(p =~= seq![36u8] + digits + crlf() + ptail);
                    lemma_header(36u8, n, ptail);
                }
            },
        },
        Frame::Array(a) => match a {
            None => {
                let body = seq![45u8, 49u8];
                lemma_digits_no_crlf(body);
                assert(enc =~= seq![42u8] + body + crlf() + Seq::<u8>::empty());
                lemma_no_line_yet(42u8, body, Seq::<u8>::empty(), m - 1);
            },
            Some(items) => {
                let n = items.len();
                let digits = decimal_digits(n);
                let e: int = 1 + digits.len() as int;
                let tail = encode_frames(items);
                lemma_decimal_no_crlf(n);
                assert(enc =~= seq![42u8] + digits + crlf() + tail);
                if m <= e + 1 {
                    lemma_no_line_yet(42u8, digits, tail, m - 1);
                } else {
                    let ptail = tail.take(m - e - 2);
                    assert(p =~= seq![42u8] + digits + crlf() + ptail);
                    lemma_header(42u8, n, ptail);
                    assert(p.subrange(e + 2, p.len() as int) =~= ptail);
                    lemma_parse_items_partial(items, m - e - 2);
                }
            },
        },
    }
}

/// Parsing a proper prefix of the encodings of wire-safe frames asks for
/// more bytes.
pub proof fn lemma_parse_items_partial(fs: Seq<Frame>, m: int)
    requires
        all_wire_safe(fs),
        0 <= m < encode_frames(fs).len(),
    ensures
        parse_items(encode_frames(fs).take(m), fs.len()) == ItemsOutcome::Incomplete,
    decreases fs, 1nat,
{
    let tail = fs.subrange(1, fs.len() as int);
    let first = encode_frame(fs[0]);
    let q = encode_frames(fs).take(m);
    assert(encode_frames(fs) == first + encode_frames(tail));
    if m < first.len() {
        assert(q =~= first.take(m));
        lemma_parse_partial(fs[0], m);
    } else {
        let later = encode_frames(tail).take(m - first.len());
        assert(q =~= first + later);
        lemma_parse_encode(fs[0], later);
        let k = first.len() as int;
        assert(q.subrange(k, q.len() as int) =~= later);
        lemma_parse_items_partial(tail, m - first.len());
        assert((fs.len() - 1) as nat == tail.len());
    }
}

} // verus!
