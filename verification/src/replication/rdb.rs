//! The empty snapshot a master sends to a replica after `FULLRESYNC`.
use vstd::prelude::*;
use vstd::utf8::encode_utf8;

verus! {

/// An empty RDB snapshot, in hexadecimal.
pub const EMPTY_RDB_HEX: &'static str = "524544495330303131fa0972656469732d76657205372e322e30fa0a72656469732d62697473c040fa056374696d65c26d086265fa08757365642d6d656dc2b0c41000fa08616f662d62617365c000fff62278d2db30eb16";

/// The value of a hexadecimal digit.
pub open spec fn hex_value(b: u8) -> Option<nat> {
    if 48 <= b <= 57 {
        Some((b - 48) as nat)
    } else if 97 <= b <= 102 {
        Some((b - 87) as nat)
    } else if 65 <= b <= 70 {
        Some((b - 55) as nat)
    } else {
        None
    }
}

/// The byte written by two characters in base 16 (`u8::from_str_radix`,
/// which also takes a leading `+`), or 0 where they are not a number.
pub open spec fn hex_pair(h: u8, l: u8) -> u8 {
    match (hex_value(h), hex_value(l)) {
        (Some(a), Some(b)) => (16 * a + b) as u8,
        (None, Some(b)) => if h == 43 {
            b as u8
        } else {
            0
        },
        _ => 0,
    }
}

/// The bytes written by consecutive pairs of characters.
pub open spec fn hex_decode(s: Seq<u8>) -> Seq<u8>
    decreases s.len(),
{
    if s.len() < 2 {
        Seq::empty()
    } else {
        seq![hex_pair(s[0], s[1])] + hex_decode(s.skip(2))
    }
}

fn hex_digit(b: u8) -> (r: Option<u8>)
    ensures
        match hex_value(b) {
            Some(v) => r == Some(v as u8),
            None => r is None,
        },
{
    if 48 <= b && b <= 57 {
        Some(b - 48)
    } else if 97 <= b && b <= 102 {
        Some(b - 87)
    } else if 65 <= b && b <= 70 {
        Some(b - 55)
    } else {
        None
    }
}

proof fn lemma_hex_decode_step(s: Seq<u8>, i: int)
    requires
        0 <= i,
        i + 1 < s.len(),
    ensures
        hex_decode(s.skip(i)) == seq![hex_pair(s[i], s[i + 1])] + hex_decode(s.skip(i + 2)),
{
    assert(s.skip(i).skip(2) =~= s.skip(i + 2));
}

/// The bytes of a snapshot written in hexadecimal.
fn decode_hex(hex: &[u8]) -> (r: Vec<u8>)
    ensures
        r@ == hex_decode(hex@),
{
    let mut out: Vec<u8> = Vec::new();
    let mut i: usize = 0;
    proof {
        assert(hex@.skip(0) =~= hex@);
    }
    while hex.len() - i > 1
        invariant
            i <= hex@.len(),
            out@ + hex_decode(hex@.skip(i as int)) == hex_decode(hex@),
        decreases hex@.len() - i,
    {
        proof {
            lemma_hex_decode_step(hex@, i as int);
        }
        let b = match (hex_digit(hex[i]), hex_digit(hex[i + 1])) {
            (Some(a), Some(b)) => 16 * a + b,
            (None, Some(b)) => if hex[i] == 43 {
                b
            } else {
                0
            },
            _ => 0,
        };
        let ghost before = out@;
        out.push(b);
        assert(out@ + hex_decode(hex@.skip(i + 2)) =~= before + hex_decode(hex@.skip(i as int)));
        i = i + 2;
    }
    assert(hex_decode(hex@.skip(i as int)) =~= Seq::<u8>::empty());
    assert(out@ =~= out@ + Seq::<u8>::empty());
    out
}

/// The bytes of the empty snapshot.
pub fn get_empty_rdb_bytes() -> (r: Vec<u8>)
    ensures
        r@ == hex_decode(encode_utf8(EMPTY_RDB_HEX@)),
{
    decode_hex(EMPTY_RDB_HEX.as_bytes())
}

} // verus!
