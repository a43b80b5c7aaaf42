//! Redis Cluster key hashing: CRC16 (XMODEM variant), hash tags and the
//! mapping of a key to one of the 16384 hash slots.
use vstd::prelude::*;

verus! {

/// Number of hash slots in the key space.
pub const HASH_SLOTS: u16 = 16384;

/// One shift of the CRC16 register with the polynomial 0x1021.
pub open spec fn crc16_shift(crc: u16) -> u16 {
    if crc & 0x8000 != 0 {
        ((crc << 1u16) ^ 0x1021u16) as u16
    } else {
        (crc << 1u16) as u16
    }
}

/// `k` shifts of the CRC16 register.
pub open spec fn crc16_shifts(crc: u16, k: nat) -> u16
    decreases k,
{
    if k == 0 {
        crc
    } else {
        crc16_shifts(crc16_shift(crc), (k - 1) as nat)
    }
}

/// The register after feeding one byte, most significant bit first.
pub open spec fn crc16_feed(crc: u16, b: u8) -> u16 {
    crc16_shifts(crc ^ ((b as u16) << 8u16), 8)
}

/// CRC16-CCITT (XMODEM: initial value 0, no reflection, no final xor) of `data`.
pub open spec fn crc16_spec(data: Seq<u8>) -> u16
    decreases data.len(),
{
    if data.len() == 0 {
        0
    } else {
        crc16_feed(crc16_spec(data.drop_last()), data.last())
    }
}

/// Index of the first byte equal to `b` in `s`.
pub open spec fn first_byte_index(s: Seq<u8>, b: u8) -> Option<int>
    decreases s.len(),
{
    if s.len() == 0 {
        None
    } else if s[0] == b {
        Some(0)
    } else {
        match first_byte_index(s.drop_first(), b) {
            Some(i) => Some(i + 1),
            None => None,
        }
    }
}

/// The part of a key that is hashed: the bytes between the first `{` and the
/// first `}` after it, when that part is non-empty; otherwise the whole key.
pub open spec fn hashtag(key: Seq<u8>) -> Seq<u8> {
    match first_byte_index(key, 123u8) {
        None => key,
        Some(open) => match first_byte_index(key.skip(open + 1), 125u8) {
            None => key,
            Some(len) => if len == 0 {
                key
            } else {
                key.subrange(open + 1, open + 1 + len)
            },
        },
    }
}

/// The hash slot of a key.
pub open spec fn key_slot_spec(key: Seq<u8>) -> u16 {
    crc16_spec(hashtag(key)) & 0x3fffu16
}

pub proof fn lemma_first_byte_index(s: Seq<u8>, b: u8)
    ensures
        match first_byte_index(s, b) {
            Some(i) => 0 <= i < s.len() && s[i] == b && forall|j: int| 0 <= j < i ==> s[j] != b,
            None => forall|j: int| 0 <= j < s.len() ==> s[j] != b,
        },
    decreases s.len(),
{
    if s.len() > 0 {
        lemma_first_byte_index(s.drop_first(), b);
        if s[0] != b {
            match first_byte_index(s.drop_first(), b) {
                Some(i) => {
                    assert forall|j: int| 0 <= j < i + 1 implies s[j] != b by {
                        if j > 0 {
                            assert(s[j] == s.drop_first()[j - 1]);
                        }
                    }
                },
                None => {
                    assert forall|j: int| 0 <= j < s.len() implies s[j] != b by {
                        if j > 0 {
                            assert(s[j] == s.drop_first()[j - 1]);
                        }
                    }
                },
            }
        }
    }
}

/// The index of the first `b` at or after `from`, found by a linear scan.
fn find_byte(s: &[u8], from: usize, b: u8) -> (r: Option<usize>)
    requires
        from <= s@.len(),
    ensures
        r matches Some(i) ==> from <= i < s@.len(),
        match first_byte_index(s@.skip(from as int), b) {
            Some(i) => r == Some((from + i) as usize),
            None => r is None,
        },
{
    let mut i = from;
    while i < s.len()
        invariant
            from <= i <= s@.len(),
            forall|j: int| from <= j < i ==> s@[j] != b,
        decreases s@.len() - i,
    {
        if s[i] == b {
            proof {
                lemma_first_byte_index(s@.skip(from as int), b);
                let t = s@.skip(from as int);
                match first_byte_index(t, b) {
                    Some(k) => {
                        if k < i - from {
                            assert(t[k] == s@[from + k]);
                        }
                        if k > i - from {
                            assert(t[i - from] == s@[i as int]);
                        }
                    },
                    None => {
                        assert(t[i - from] == s@[i as int]);
                    },
                }
            }
            return Some(i);
        }
        i = i + 1;
    }
    proof {
        lemma_first_byte_index(s@.skip(from as int), b);
        let t = s@.skip(from as int);
        match first_byte_index(t, b) {
            Some(k) => {
                assert(t[k] == s@[from + k]);
            },
            None => {},
        }
    }
    None
}

/// The part of `key` that decides its slot (see [`hashtag`]).
pub fn extract_hashtag(key: &[u8]) -> (r: &[u8])
    ensures
        r@ == hashtag(key@),
{
    let n = key.len();
    assert(key@.skip(0) =~= key@);
    proof {
        lemma_first_byte_index(key@, 123u8);
    }
    match find_byte(key, 0, 123u8) {
        None => key,
        Some(open) => {
            assert(open < n);
            proof {
                lemma_first_byte_index(key@.skip(open + 1), 125u8);
            }
            match find_byte(key, open + 1, 125u8) {
                None => key,
                Some(close) => {
                    if close == open + 1 {
                        key
                    } else {
                        let r = &key[open + 1..close];
                        assert(r@ =~= key@.subrange(open + 1, close as int));
                        r
                    }
                },
            }
        },
    }
}

/// CRC16-CCITT (XMODEM) checksum used by Redis Cluster.
pub fn crc16(data: &[u8]) -> (r: u16)
    ensures
        r == crc16_spec(data@),
{
    let mut crc: u16 = 0;
    let mut i: usize = 0;
    while i < data.len()
        invariant
            i <= data@.len(),
            crc == crc16_spec(data@.take(i as int)),
        decreases data@.len() - i,
    {
        let start: u16 = crc ^ ((data[i] as u16) << 8u16);
        let mut c: u16 = start;
        let mut k: usize = 0;
        while k < 8
            invariant
                k <= 8,
                crc16_shifts(start, 8) == crc16_shifts(c, (8 - k) as nat),
            decreases 8 - k,
        {
            if c & 0x8000 != 0 {
                c = (c << 1u16) ^ 0x1021u16;
            } else {
                c = c << 1u16;
            }
            k = k + 1;
        }
        assert(data@.take(i + 1).drop_last() =~= data@.take(i as int));
        assert(data@.take(i + 1).last() == data@[i as int]);
        crc = c;
        i = i + 1;
    }
    assert(data@.take(i as int) =~= data@);
    crc
}

/// The hash slot (0..16384) that a key belongs to.
pub fn key_slot(key: &[u8]) -> (r: u16)
    ensures
        r == key_slot_spec(key@),
        r < HASH_SLOTS,
{
    let tag = extract_hashtag(key);
    let c = crc16(tag);
    let r = c & 0x3fffu16;
    assert(r < 16384) by (bit_vector)
        requires
            r == c & 0x3fffu16,
    ;
    r
}


proof fn lemma_first_byte_index_at(s: Seq<u8>, b: u8, i: int)
    requires
        0 <= i < s.len(),
        s[i] == b,
        forall|j: int| 0 <= j < i ==> s[j] != b,
    ensures
        first_byte_index(s, b) == Some(i),
{
    lemma_first_byte_index(s, b);
}

proof fn lemma_hashtag_without_close(t: Seq<u8>)
    requires
        forall|j: int| 0 <= j < t.len() ==> t[j] != 125u8,
    ensures
        hashtag(t) == t,
{
    lemma_first_byte_index(t, 123u8);
    match first_byte_index(t, 123u8) {
        None => {},
        Some(open) => {
            let rest = t.skip(open + 1);
            lemma_first_byte_index(rest, 125u8);
            match first_byte_index(rest, 125u8) {
                None => {},
                Some(k) => {
                    assert(rest[k] == t[open + 1 + k]);
                },
            }
        },
    }
}

/// Hash tags co-locate keys: a key that holds `{tag}` after a prefix without
/// `{` (and `tag` is non-empty and holds no `}`) lands in the slot of `tag`
/// itself, whatever follows.
pub proof fn lemma_hashtag_colocation(prefix: Seq<u8>, tag: Seq<u8>, suffix: Seq<u8>)
    requires
        forall|j: int| 0 <= j < prefix.len() ==> prefix[j] != 123u8,
        tag.len() > 0,
        forall|j: int| 0 <= j < tag.len() ==> tag[j] != 125u8,
    ensures
        hashtag(prefix + seq![123u8] + tag + seq![125u8] + suffix) == tag,
        key_slot_spec(prefix + seq![123u8] + tag + seq![125u8] + suffix) == key_slot_spec(tag),
{
    let key = prefix + seq![123u8] + tag + seq![125u8] + suffix;
    let open = prefix.len() as int;
    assert(key[open] == 123u8);
    assert forall|j: int| 0 <= j < open implies key[j] != 123u8 by {
        assert(key[j] == prefix[j]);
    }
    lemma_first_byte_index_at(key, 123u8, open);
    let rest = key.skip(open + 1);
    assert(rest =~= tag + seq![125u8] + suffix);
    assert(rest[tag.len() as int] == 125u8);
    assert forall|j: int| 0 <= j < tag.len() implies rest[j] != 125u8 by {
        assert(rest[j] == tag[j]);
    }
    lemma_first_byte_index_at(rest, 125u8, tag.len() as int);
    assert(key.subrange(open + 1, open + 1 + tag.len()) =~= tag);
    lemma_hashtag_without_close(tag);
}

/// Every key lands in one of the [`HASH_SLOTS`] slots.
pub proof fn lemma_key_slot_in_range(key: Seq<u8>)
    ensures
        key_slot_spec(key) < HASH_SLOTS,
{
    let c = crc16_spec(hashtag(key));
    assert(c & 0x3fffu16 < 16384) by (bit_vector);
}

} // verus!
