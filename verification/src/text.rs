//! Text helpers shared by the protocol, command and cluster code: decimal and
//! hexadecimal rendering, integer parsing with the standard library's grammar,
//! and thin trusted bridges to a few `str` operations of the standard library.
use vstd::prelude::*;
use vstd::utf8::*;

verus! {

broadcast use vstd::utf8::group_utf8_lib;

/// The ASCII byte of a decimal digit value `d` (0..=9).
pub open spec fn digit_byte(d: nat) -> u8 {
    (48 + d) as u8
}

/// Decimal digits of `n`, most significant first, without leading zeros.
pub open spec fn decimal_digits(n: nat) -> Seq<u8>
    decreases n,
{
    if n < 10 {
        seq![digit_byte(n)]
    } else {
        decimal_digits(n / 10).push(digit_byte(n % 10))
    }
}

/// Decimal rendering of a signed integer, with a leading `-` for negatives.
pub open spec fn decimal_int(i: int) -> Seq<u8> {
    if i < 0 {
        seq![45u8] + decimal_digits((-i) as nat)
    } else {
        decimal_digits(i as nat)
    }
}

/// Every byte of `b` is ASCII.
pub open spec fn is_ascii_bytes(b: Seq<u8>) -> bool {
    forall|i: int| 0 <= i < b.len() ==> b[i] < 128
}

/// The characters denoted by an ASCII byte sequence.
pub open spec fn ascii_text(b: Seq<u8>) -> Seq<char> {
    Seq::new(b.len(), |i: int| b[i] as char)
}

/// Decimal text of a natural number.
pub open spec fn decimal_text(n: nat) -> Seq<char> {
    ascii_text(decimal_digits(n))
}

/// Decimal text of an integer.
pub open spec fn decimal_int_text(i: int) -> Seq<char> {
    ascii_text(decimal_int(i))
}

pub proof fn lemma_decimal_digits_ascii(n: nat)
    ensures
        is_ascii_bytes(decimal_digits(n)),
        decimal_digits(n).len() >= 1,
        forall|i: int| 0 <= i < decimal_digits(n).len() ==> 48 <= #[trigger] decimal_digits(n)[i] <= 57,
    decreases n,
{
    if n >= 10 {
        lemma_decimal_digits_ascii(n / 10);
    }
}

pub proof fn lemma_decimal_int_ascii(i: int)
    ensures
        is_ascii_bytes(decimal_int(i)),
{
    if i < 0 {
        lemma_decimal_digits_ascii((-i) as nat);
        assert(is_ascii_bytes(decimal_int(i))) by {
            let d = decimal_digits((-i) as nat);
            assert forall|k: int| 0 <= k < decimal_int(i).len() implies decimal_int(i)[k] < 128 by {
                if k > 0 {
                    assert(decimal_int(i)[k] == d[k - 1]);
                }
            }
        }
    } else {
        lemma_decimal_digits_ascii(i as nat);
    }
}

/// The UTF-8 encoding of ASCII text is the ASCII byte sequence itself.
pub proof fn lemma_ascii_text_encoding(b: Seq<u8>)
    requires
        is_ascii_bytes(b),
    ensures
        encode_utf8(ascii_text(b)) == b,
        valid_utf8(b),
        decode_utf8(b) == ascii_text(b),
        is_ascii_chars(ascii_text(b)),
{
    let t = ascii_text(b);
    assert forall|i: int| 0 <= i < t.len() implies '\0' <= #[trigger] t[i] <= '\u{7f}' by {
        assert(t[i] == b[i] as char);
    }
    is_ascii_chars_encode_utf8(t);
    assert forall|i: int| 0 <= i < t.len() implies encode_utf8(t)[i] == b[i] by {
        assert(t[i] as u8 == b[i]);
    }
    assert(encode_utf8(t) =~= b);
    encode_utf8_valid_utf8(t);
    encode_utf8_decode_utf8(t);
}

/// Appends the decimal digits of `n` to `out`.
pub fn push_decimal(out: &mut Vec<u8>, n: u64)
    ensures
        final(out)@ == old(out)@ + decimal_digits(n as nat),
    decreases n,
{
    if n >= 10 {
        push_decimal(out, n / 10);
    }
    let d = (n % 10) as u8;
    out.push(48 + d);
}

/// Appends the decimal rendering of `i` (with a `-` sign when negative).
pub fn push_decimal_signed(out: &mut Vec<u8>, i: i64)
    ensures
        final(out)@ == old(out)@ + decimal_int(i as int),
{
    if i < 0 {
        out.push(45u8);
        let magnitude: u64 = (0i128 - (i as i128)) as u64;
        push_decimal(out, magnitude);
        assert(final(out)@ =~= old(out)@ + decimal_int(i as int));
    } else {
        push_decimal(out, i as u64);
    }
}

/// Text of an ASCII byte sequence.
pub fn ascii_string(b: &[u8]) -> (r: String)
    requires
        is_ascii_bytes(b@),
    ensures
        r@ == ascii_text(b@),
{
    proof {
        lemma_ascii_text_encoding(b@);
    }
    match utf8_str(b) {
        Ok(s) => s.to_owned(),
        Err(_) => String::new(),
    }
}

/// Decimal text of an unsigned number (`u64::to_string`).
pub fn decimal_string(n: u64) -> (r: String)
    ensures
        r@ == decimal_text(n as nat),
{
    let mut b: Vec<u8> = Vec::new();
    push_decimal(&mut b, n);
    proof {
        lemma_decimal_digits_ascii(n as nat);
        assert(b@ =~= decimal_digits(n as nat));
    }
    ascii_string(b.as_slice())
}

/// Decimal text of a signed number (`i64::to_string`).
pub fn decimal_int_string(i: i64) -> (r: String)
    ensures
        r@ == decimal_int_text(i as int),
{
    let mut b: Vec<u8> = Vec::new();
    push_decimal_signed(&mut b, i);
    proof {
        lemma_decimal_int_ascii(i as int);
        assert(b@ =~= decimal_int(i as int));
    }
    ascii_string(b.as_slice())
}

/// What the standard library's `Utf8Error` displays for an invalid UTF-8 byte
/// sequence; it depends on the bytes alone.
pub uninterp spec fn utf8_error_text(bytes: Seq<u8>) -> Seq<char>;

/// Trusted bridge to `std::str::from_utf8`: the bytes are accepted exactly
/// when they are valid UTF-8, and then denote the characters that vstd's
/// `decode_utf8` gives; a rejection carries the error's display text.
#[verifier::external_body]
pub(crate) fn utf8_str(bytes: &[u8]) -> (r: Result<&str, String>)
    ensures
        r is Ok <==> valid_utf8(bytes@),
        r matches Ok(s) ==> s@ == decode_utf8(bytes@),
        r matches Err(m) ==> m@ == utf8_error_text(bytes@),
{
    match std::str::from_utf8(bytes) {
        Ok(s) => Ok(s),
        Err(e) => Err(e.to_string()),
    }
}


/// Why an integer literal was refused, as the standard library classifies it.
#[derive(Debug, Clone, Copy, PartialEq, Eq)]
pub enum IntErrorKind {
    Empty,
    InvalidDigit,
    PosOverflow,
    NegOverflow,
}

pub open spec fn is_digit(b: u8) -> bool {
    48 <= b <= 57
}

/// Reads decimal digits upward from `acc`, refusing a non-digit and any
/// intermediate value above `max`.
pub open spec fn scan_up(d: Seq<u8>, acc: int, max: int) -> Result<int, IntErrorKind>
    decreases d.len(),
{
    if d.len() == 0 {
        Ok(acc)
    } else if !is_digit(d[0]) {
        Err(IntErrorKind::InvalidDigit)
    } else if acc * 10 + (d[0] - 48) > max {
        Err(IntErrorKind::PosOverflow)
    } else {
        scan_up(d.drop_first(), acc * 10 + (d[0] - 48), max)
    }
}

/// Reads decimal digits downward (for a negative literal) from `acc`,
/// refusing a non-digit and any intermediate value below `min`.
pub open spec fn scan_down(d: Seq<u8>, acc: int, min: int) -> Result<int, IntErrorKind>
    decreases d.len(),
{
    if d.len() == 0 {
        Ok(acc)
    } else if !is_digit(d[0]) {
        Err(IntErrorKind::InvalidDigit)
    } else if acc * 10 - (d[0] - 48) < min {
        Err(IntErrorKind::NegOverflow)
    } else {
        scan_down(d.drop_first(), acc * 10 - (d[0] - 48), min)
    }
}

/// The result of `str::parse` for an integer type whose range is `min..=max`,
/// on the UTF-8 bytes `s`: an optional sign (`-` only when `min < 0`) and
/// one or more ASCII digits.
pub open spec fn parse_int_spec(s: Seq<u8>, min: int, max: int) -> Result<int, IntErrorKind> {
    if s.len() == 0 {
        Err(IntErrorKind::Empty)
    } else if (s[0] == 43 || s[0] == 45) && s.len() == 1 {
        Err(IntErrorKind::InvalidDigit)
    } else if s[0] == 43 {
        scan_up(s.drop_first(), 0, max)
    } else if s[0] == 45 && min < 0 {
        scan_down(s.drop_first(), 0, min)
    } else {
        scan_up(s, 0, max)
    }
}

proof fn lemma_scan_up_bounds(d: Seq<u8>, acc: int, max: int)
    requires
        0 <= acc <= max,
    ensures
        scan_up(d, acc, max) matches Ok(v) ==> 0 <= v <= max,
    decreases d.len(),
{
    if d.len() > 0 && is_digit(d[0]) && acc * 10 + (d[0] - 48) <= max {
        lemma_scan_up_bounds(d.drop_first(), acc * 10 + (d[0] - 48), max);
    }
}

proof fn lemma_scan_down_bounds(d: Seq<u8>, acc: int, min: int)
    requires
        min <= acc <= 0,
    ensures
        scan_down(d, acc, min) matches Ok(v) ==> min <= v <= 0,
    decreases d.len(),
{
    if d.len() > 0 && is_digit(d[0]) && acc * 10 - (d[0] - 48) >= min {
        lemma_scan_down_bounds(d.drop_first(), acc * 10 - (d[0] - 48), min);
    }
}

pub proof fn lemma_parse_int_bounds(s: Seq<u8>, min: int, max: int)
    requires
        min <= 0 <= max,
    ensures
        parse_int_spec(s, min, max) matches Ok(v) ==> min <= v <= max,
{
    if s.len() > 0 {
        lemma_scan_up_bounds(s.drop_first(), 0, max);
        lemma_scan_up_bounds(s, 0, max);
        lemma_scan_down_bounds(s.drop_first(), 0, min);
    }
}

fn scan_up_exec(s: &[u8], start: usize, max: u64) -> (r: Result<u64, IntErrorKind>)
    requires
        start <= s@.len(),
    ensures
        match scan_up(s@.skip(start as int), 0, max as int) {
            Ok(v) => r == Ok::<u64, IntErrorKind>(v as u64),
            Err(k) => r == Err::<u64, IntErrorKind>(k),
        },
{
    let mut acc: u64 = 0;
    let mut i = start;
    while i < s.len()
        invariant
            start <= i <= s@.len(),
            acc <= max,
            scan_up(s@.skip(start as int), 0, max as int) == scan_up(s@.skip(i as int), acc as int, max as int),
        decreases s@.len() - i,
    {
        let c = s[i];
        assert(s@.skip(i as int)[0] == c);
        assert(s@.skip(i as int).drop_first() =~= s@.skip(i + 1));
        if c < 48 || c > 57 {
            return Err(IntErrorKind::InvalidDigit);
        }
        let next: u128 = (acc as u128) * 10 + ((c - 48) as u128);
        if next > max as u128 {
            return Err(IntErrorKind::PosOverflow);
        }
        acc = next as u64;
        i = i + 1;
    }
    assert(s@.skip(i as int).len() == 0);
    Ok(acc)
}

fn scan_down_exec(s: &[u8], start: usize, min: i64) -> (r: Result<i64, IntErrorKind>)
    requires
        start <= s@.len(),
        min <= 0,
    ensures
        match scan_down(s@.skip(start as int), 0, min as int) {
            Ok(v) => r == Ok::<i64, IntErrorKind>(v as i64),
            Err(k) => r == Err::<i64, IntErrorKind>(k),
        },
{
    let mut acc: i64 = 0;
    let mut i = start;
    while i < s.len()
        invariant
            start <= i <= s@.len(),
            min <= acc <= 0,
            scan_down(s@.skip(start as int), 0, min as int) == scan_down(s@.skip(i as int), acc as int, min as int),
        decreases s@.len() - i,
    {
        let c = s[i];
        assert(s@.skip(i as int)[0] == c);
        assert(s@.skip(i as int).drop_first() =~= s@.skip(i + 1));
        if c < 48 || c > 57 {
            return Err(IntErrorKind::InvalidDigit);
        }
        let next: i128 = (acc as i128) * 10 - ((c - 48) as i128);
        if next < min as i128 {
            return Err(IntErrorKind::NegOverflow);
        }
        acc = next as i64;
        i = i + 1;
    }
    assert(s@.skip(i as int).len() == 0);
    Ok(acc)
}

/// `str::parse` for an unsigned type whose largest value is `max`.
pub fn parse_unsigned(s: &[u8], max: u64) -> (r: Result<u64, IntErrorKind>)
    ensures
        match parse_int_spec(s@, 0, max as int) {
            Ok(v) => r == Ok::<u64, IntErrorKind>(v as u64),
            Err(k) => r == Err::<u64, IntErrorKind>(k),
        },
{
    if s.len() == 0 {
        return Err(IntErrorKind::Empty);
    }
    if (s[0] == 43 || s[0] == 45) && s.len() == 1 {
        return Err(IntErrorKind::InvalidDigit);
    }
    if s[0] == 43 {
        assert(s@.skip(1) =~= s@.drop_first());
        scan_up_exec(s, 1, max)
    } else {
        assert(s@.skip(0) =~= s@);
        scan_up_exec(s, 0, max)
    }
}

/// `str::parse` for a signed type whose range is `min..=max`.
pub fn parse_signed(s: &[u8], min: i64, max: i64) -> (r: Result<i64, IntErrorKind>)
    requires
        min < 0 <= max,
    ensures
        match parse_int_spec(s@, min as int, max as int) {
            Ok(v) => r == Ok::<i64, IntErrorKind>(v as i64),
            Err(k) => r == Err::<i64, IntErrorKind>(k),
        },
{
    if s.len() == 0 {
        return Err(IntErrorKind::Empty);
    }
    if (s[0] == 43 || s[0] == 45) && s.len() == 1 {
        return Err(IntErrorKind::InvalidDigit);
    }
    proof {
        lemma_parse_int_bounds(s@, min as int, max as int);
    }
    if s[0] == 45 {
        assert(s@.skip(1) =~= s@.drop_first());
        scan_down_exec(s, 1, min)
    } else {
        let r = if s[0] == 43 {
            assert(s@.skip(1) =~= s@.drop_first());
            scan_up_exec(s, 1, max as u64)
        } else {
            assert(s@.skip(0) =~= s@);
            scan_up_exec(s, 0, max as u64)
        };
        proof {
            lemma_scan_up_bounds(s@.drop_first(), 0, max as int);
            lemma_scan_up_bounds(s@, 0, max as int);
            assert(s@.skip(1) =~= s@.drop_first());
            assert(s@.skip(0) =~= s@);
        }
        match r {
            Ok(v) => Ok(v as i64),
            Err(k) => Err(k),
        }
    }
}

/// `str::parse::<u64>` on the UTF-8 bytes of the text.
pub fn parse_u64(s: &[u8]) -> (r: Result<u64, IntErrorKind>)
    ensures
        match parse_int_spec(s@, 0, u64::MAX as int) {
            Ok(v) => r == Ok::<u64, IntErrorKind>(v as u64),
            Err(k) => r == Err::<u64, IntErrorKind>(k),
        },
{
    parse_unsigned(s, u64::MAX)
}

/// `str::parse::<u16>` on the UTF-8 bytes of the text.
pub fn parse_u16(s: &[u8]) -> (r: Result<u16, IntErrorKind>)
    ensures
        match parse_int_spec(s@, 0, u16::MAX as int) {
            Ok(v) => r == Ok::<u16, IntErrorKind>(v as u16),
            Err(k) => r == Err::<u16, IntErrorKind>(k),
        },
{
    proof {
        lemma_parse_int_bounds(s@, 0, u16::MAX as int);
    }
    match parse_unsigned(s, 65535) {
        Ok(v) => Ok(v as u16),
        Err(k) => Err(k),
    }
}

/// `str::parse::<i64>` on the UTF-8 bytes of the text.
pub fn parse_i64(s: &[u8]) -> (r: Result<i64, IntErrorKind>)
    ensures
        match parse_int_spec(s@, i64::MIN as int, i64::MAX as int) {
            Ok(v) => r == Ok::<i64, IntErrorKind>(v as i64),
            Err(k) => r == Err::<i64, IntErrorKind>(k),
        },
{
    parse_signed(s, i64::MIN, i64::MAX)
}

/// `str::parse::<isize>` on the UTF-8 bytes of the text.
pub fn parse_isize(s: &[u8]) -> (r: Result<isize, IntErrorKind>)
    ensures
        match parse_int_spec(s@, isize::MIN as int, isize::MAX as int) {
            Ok(v) => r == Ok::<isize, IntErrorKind>(v as isize),
            Err(k) => r == Err::<isize, IntErrorKind>(k),
        },
{
    proof {
        lemma_parse_int_bounds(s@, isize::MIN as int, isize::MAX as int);
    }
    match parse_signed(s, isize::MIN as i64, isize::MAX as i64) {
        Ok(v) => Ok(v as isize),
        Err(k) => Err(k),
    }
}

/// What `ParseIntError` displays for each kind of refusal.
pub open spec fn int_error_text(k: IntErrorKind) -> Seq<char> {
    match k {
        IntErrorKind::Empty => "cannot parse integer from empty string"@,
        IntErrorKind::InvalidDigit => "invalid digit found in string"@,
        IntErrorKind::PosOverflow => "number too large to fit in target type"@,
        IntErrorKind::NegOverflow => "number too small to fit in target type"@,
    }
}

/// The display text of an integer parse error (`ParseIntError::to_string`).
pub fn int_error_message(k: IntErrorKind) -> (r: String)
    ensures
        r@ == int_error_text(k),
{
    match k {
        IntErrorKind::Empty => "cannot parse integer from empty string".to_owned(),
        IntErrorKind::InvalidDigit => "invalid digit found in string".to_owned(),
        IntErrorKind::PosOverflow => "number too large to fit in target type".to_owned(),
        IntErrorKind::NegOverflow => "number too small to fit in target type".to_owned(),
    }
}

/// The lowercase ASCII hexadecimal digit for a value `d` (0..=15).
pub open spec fn hex_digit_byte(d: nat) -> u8 {
    if d < 10 {
        (48 + d) as u8
    } else {
        (87 + d) as u8
    }
}

/// Lowercase hexadecimal digits of `n`, most significant first.
pub open spec fn hex_digits(n: nat) -> Seq<u8>
    decreases n,
{
    if n < 16 {
        seq![hex_digit_byte(n)]
    } else {
        hex_digits(n / 16).push(hex_digit_byte(n % 16))
    }
}

/// `format!("{:0w$x}", n)`: lowercase hexadecimal, left-padded with zeros to
/// at least `width` digits.
pub open spec fn padded_hex(n: nat, width: nat) -> Seq<u8> {
    if hex_digits(n).len() < width {
        Seq::new((width - hex_digits(n).len()) as nat, |i: int| 48u8) + hex_digits(n)
    } else {
        hex_digits(n)
    }
}

pub open spec fn pow16(k: nat) -> nat
    decreases k,
{
    if k == 0 {
        1
    } else {
        16 * pow16((k - 1) as nat)
    }
}

proof fn lemma_hex_digits_len(n: nat, k: nat)
    requires
        k >= 1,
        n < pow16(k),
    ensures
        1 <= hex_digits(n).len() <= k,
        is_ascii_bytes(hex_digits(n)),
    decreases k,
{
    if n >= 16 {
        let p = pow16((k - 1) as nat);
        assert(k >= 2) by {
            if k == 1 {
                assert(pow16(0) == 1);
            }
        }
        assert(n / 16 < p) by (nonlinear_arith)
            requires
                n < 16 * p,
        ;
        lemma_hex_digits_len(n / 16, (k - 1) as nat);
    }
}

proof fn lemma_hex_digits_shape(n: nat)
    requires
        n < 0x1_0000_0000_0000_0000,
    ensures
        1 <= hex_digits(n).len() <= 16,
        is_ascii_bytes(hex_digits(n)),
{
    reveal_with_fuel(pow16, 17);
    assert(pow16(16) == 0x1_0000_0000_0000_0000);
    lemma_hex_digits_len(n, 16);
}

fn push_hex(out: &mut Vec<u8>, n: u64)
    ensures
        final(out)@ == old(out)@ + hex_digits(n as nat),
    decreases n,
{
    if n >= 16 {
        push_hex(out, n / 16);
    }
    let d = (n % 16) as u8;
    if d < 10 {
        out.push(48 + d);
    } else {
        out.push(87 + d);
    }
}

/// `format!("{:040x}", n)`: the 40-digit lowercase hexadecimal rendering
/// used for cluster node identifiers.
pub fn hex40_string(n: u64) -> (r: String)
    ensures
        r@ == ascii_text(padded_hex(n as nat, 40)),
{
    let mut digits: Vec<u8> = Vec::new();
    push_hex(&mut digits, n);
    proof {
        lemma_hex_digits_shape(n as nat);
    }
    let mut out: Vec<u8> = Vec::new();
    let pad = 40 - digits.len();
    let mut i: usize = 0;
    while i < pad
        invariant
            i <= pad,
            out@ =~= Seq::new(i as nat, |k: int| 48u8),
        decreases pad - i,
    {
        out.push(48u8);
        i = i + 1;
    }
    let mut j: usize = 0;
    while j < digits.len()
        invariant
            j <= digits@.len(),
            out@ =~= Seq::new(pad as nat, |k: int| 48u8) + digits@.take(j as int),
        decreases digits@.len() - j,
    {
        out.push(digits[j]);
        j = j + 1;
        assert(digits@.take(j as int) =~= digits@.take((j - 1) as int).push(digits@[j - 1]));
    }
    assert(digits@.take(j as int) =~= digits@);
    assert(out@ =~= padded_hex(n as nat, 40));
    ascii_string(out.as_slice())
}

/// ASCII uppercase of one character; other characters are kept.
pub open spec fn ascii_upper_char(c: char) -> char {
    if 'a' <= c <= 'z' {
        ((c as u32) - 32) as char
    } else {
        c
    }
}

/// `str::to_ascii_uppercase` on the characters of a text.
pub open spec fn ascii_upper(s: Seq<char>) -> Seq<char> {
    Seq::new(s.len(), |i: int| ascii_upper_char(s[i]))
}

/// Trusted bridge to `str::to_ascii_uppercase`: ASCII letters `a`-`z` become
/// `A`-`Z`, every other character is kept.
#[verifier::external_body]
pub(crate) fn to_ascii_uppercase(s: &str) -> (r: String)
    ensures
        r@ == ascii_upper(s@),
{
    s.to_ascii_uppercase()
}

/// Whether two texts are equal: their UTF-8 bytes are compared, which are
/// equal exactly when the characters are.
pub(crate) fn str_eq(a: &str, b: &str) -> (r: bool)
    ensures
        r == (a@ == b@),
{
    let x = a.as_bytes();
    let y = b.as_bytes();
    if x.len() != y.len() {
        return false;
    }
    let mut i: usize = 0;
    while i < x.len()
        invariant
            x@.len() == y@.len(),
            x@ == encode_utf8(a@),
            y@ == encode_utf8(b@),
            i <= x@.len(),
            forall|j: int| 0 <= j < i ==> x@[j] == y@[j],
        decreases x@.len() - i,
    {
        if x[i] != y[i] {
            assert(x@[i as int] != y@[i as int]);
            return false;
        }
        i = i + 1;
    }
    proof {
        assert(x@ =~= y@);
        encode_utf8_decode_utf8(a@);
        encode_utf8_decode_utf8(b@);
    }
    true
}

/// The characters that `char::is_whitespace` accepts (Unicode `White_Space`).
pub open spec fn is_unicode_whitespace(c: char) -> bool {
    let u = c as u32;
    ||| 0x09 <= u <= 0x0d
    ||| u == 0x20
    ||| u == 0x85
    ||| u == 0xa0
    ||| u == 0x1680
    ||| 0x2000 <= u <= 0x200a
    ||| u == 0x2028
    ||| u == 0x2029
    ||| u == 0x202f
    ||| u == 0x205f
    ||| u == 0x3000
}

/// Number of leading whitespace characters.
pub open spec fn leading_ws(s: Seq<char>) -> nat
    decreases s.len(),
{
    if s.len() > 0 && is_unicode_whitespace(s[0]) {
        1 + leading_ws(s.drop_first())
    } else {
        0
    }
}

/// Number of trailing whitespace characters.
pub open spec fn trailing_ws(s: Seq<char>) -> nat
    decreases s.len(),
{
    if s.len() > 0 && is_unicode_whitespace(s.last()) {
        1 + trailing_ws(s.drop_last())
    } else {
        0
    }
}

/// `str::trim`: the text without its leading and trailing whitespace.
pub open spec fn trim_text(s: Seq<char>) -> Seq<char> {
    let t = s.skip(leading_ws(s) as int);
    t.take(t.len() - trailing_ws(t))
}

/// Trusted bridge to `str::trim`.
#[verifier::external_body]
pub(crate) fn trim(s: &str) -> (r: &str)
    ensures
        r@ == trim_text(s@),
{
    s.trim()
}

/// `str::split_whitespace`: the maximal runs of characters that are not
/// whitespace, in order.
pub open spec fn words(s: Seq<char>) -> Seq<Seq<char>>
    decreases s.len(),
{
    if s.len() == 0 {
        Seq::empty()
    } else {
        let w = words(s.drop_last());
        let c = s.last();
        if is_unicode_whitespace(c) {
            w
        } else if s.len() >= 2 && !is_unicode_whitespace(s[s.len() - 2]) {
            w.update(w.len() - 1, w.last().push(c))
        } else {
            w.push(seq![c])
        }
    }
}

/// Trusted bridge to `str::split_whitespace` collected into a vector.
#[verifier::external_body]
pub(crate) fn split_whitespace(s: &str) -> (r: Vec<&str>)
    ensures
        r@.len() == words(s@).len(),
        forall|i: int| 0 <= i < r@.len() ==> #[trigger] r@[i]@ == words(s@)[i],
{
    s.split_whitespace().collect()
}

/// Trusted bridge to `str::starts_with` with a text pattern: whether the
/// text begins with the pattern's characters.
#[verifier::external_body]
pub(crate) fn starts_with(s: &str, prefix: &str) -> (r: bool)
    ensures
        r == (prefix@.len() <= s@.len() && s@.take(prefix@.len() as int) == prefix@),
{
    s.starts_with(prefix)
}

/// Number of leading occurrences of `c`.
pub open spec fn leading_char(s: Seq<char>, c: char) -> nat
    decreases s.len(),
{
    if s.len() > 0 && s[0] == c {
        1 + leading_char(s.drop_first(), c)
    } else {
        0
    }
}

/// Number of trailing occurrences of `c`.
pub open spec fn trailing_char(s: Seq<char>, c: char) -> nat
    decreases s.len(),
{
    if s.len() > 0 && s.last() == c {
        1 + trailing_char(s.drop_last(), c)
    } else {
        0
    }
}

/// `str::trim_matches(c)`: the text without the occurrences of `c` at
/// either end.
pub open spec fn strip_char(s: Seq<char>, c: char) -> Seq<char> {
    let t = s.skip(leading_char(s, c) as int);
    t.take(t.len() - trailing_char(t, c))
}

/// Trusted bridge to `str::trim_matches` with a character pattern.
#[verifier::external_body]
pub(crate) fn trim_matches(s: &str, c: char) -> (r: &str)
    ensures
        r@ == strip_char(s@, c),
{
    s.trim_matches(c)
}

/// `str::lines`: the text cut at each `\n`, a `\r` just before it dropped
/// as well; a final line needs no terminator, and an empty text has no
/// lines.
pub open spec fn lines_text(s: Seq<char>) -> Seq<Seq<char>> {
    if s.len() == 0 {
        Seq::empty()
    } else {
        let pieces = split_text(s, '\n');
        let body = if pieces.last().len() == 0 {
            pieces.drop_last()
        } else {
            pieces
        };
        Seq::new(
            body.len(),
            |i: int|
                if i < pieces.len() - 1 && body[i].len() > 0 && body[i].last() == '\r' {
                    body[i].drop_last()
                } else {
                    body[i]
                },
        )
    }
}

/// Trusted bridge to `str::lines` collected into a vector.
#[verifier::external_body]
pub(crate) fn lines(s: &str) -> (r: Vec<&str>)
    ensures
        r@.len() == lines_text(s@).len(),
        forall|i: int| 0 <= i < r@.len() ==> #[trigger] r@[i]@ == lines_text(s@)[i],
{
    s.lines().collect()
}

/// `str::split(sep)`: the pieces between occurrences of `sep`; a text
/// without `sep` is one piece, and the empty text is one empty piece.
pub open spec fn split_text(s: Seq<char>, sep: char) -> Seq<Seq<char>>
    decreases s.len(),
{
    if s.len() == 0 {
        seq![Seq::<char>::empty()]
    } else {
        let rest = split_text(s.drop_first(), sep);
        if s[0] == sep {
            seq![Seq::<char>::empty()] + rest
        } else {
            rest.update(0, seq![s[0]] + rest[0])
        }
    }
}

/// A text splits into at least one piece.
pub proof fn lemma_split_text_len(s: Seq<char>, sep: char)
    ensures
        split_text(s, sep).len() >= 1,
    decreases s.len(),
{
    if s.len() > 0 {
        lemma_split_text_len(s.drop_first(), sep);
    }
}

/// A text without the separator is one piece.
pub proof fn lemma_split_text_none(s: Seq<char>, sep: char)
    requires
        forall|i: int| 0 <= i < s.len() ==> #[trigger] s[i] != sep,
    ensures
        split_text(s, sep) == seq![s],
    decreases s.len(),
{
    if s.len() > 0 {
        lemma_split_text_none(s.drop_first(), sep);
        assert(seq![s[0]] + s.drop_first() =~= s);
    } else {
        assert(s =~= Seq::<char>::empty());
    }
}

/// Splitting two texts joined by the separator gives the pieces of the
/// first, then those of the second.
pub proof fn lemma_split_text_join(a: Seq<char>, b: Seq<char>, sep: char)
    ensures
        split_text(a + seq![sep] + b, sep) == split_text(a, sep) + split_text(b, sep),
    decreases a.len(),
{
    let j = a + seq![sep] + b;
    if a.len() == 0 {
        assert(j =~= seq![sep] + b);
        assert(j.drop_first() =~= b);
    } else {
        assert(j.drop_first() =~= a.drop_first() + seq![sep] + b);
        lemma_split_text_join(a.drop_first(), b, sep);
        lemma_split_text_len(a.drop_first(), sep);
        let ra = split_text(a.drop_first(), sep);
        let rb = split_text(b, sep);
        if a[0] != sep {
            assert((ra + rb).update(0, seq![a[0]] + (ra + rb)[0]) =~= ra.update(0, seq![a[0]] + ra[0]) + rb);
        } else {
            assert(seq![Seq::<char>::empty()] + (ra + rb) =~= (seq![Seq::<char>::empty()] + ra) + rb);
        }
    }
}

/// Decimal text holds only the digits `0`-`9`.
pub proof fn lemma_decimal_text_digits(n: nat)
    ensures
        decimal_text(n).len() >= 1,
        forall|i: int| 0 <= i < decimal_text(n).len() ==> '0' <= #[trigger] decimal_text(n)[i] <= '9',
{
    lemma_decimal_digits_ascii(n);
    assert forall|i: int| 0 <= i < decimal_text(n).len() implies '0' <= #[trigger] decimal_text(n)[i] <= '9' by {
        let d = decimal_digits(n)[i];
        assert(decimal_text(n)[i] == d as char);
        assert(48 <= d <= 57);
    }
}

/// Index of the first occurrence of `c` in `s`.
pub open spec fn first_index_of(s: Seq<char>, c: char) -> Option<int>
    decreases s.len(),
{
    if s.len() == 0 {
        None
    } else if s[0] == c {
        Some(0)
    } else {
        match first_index_of(s.drop_first(), c) {
            Some(i) => Some(i + 1),
            None => None,
        }
    }
}

/// Trusted bridge to `str::split` collected into a vector.
#[verifier::external_body]
pub(crate) fn split_char(s: &str, sep: char) -> (r: Vec<&str>)
    ensures
        r@.len() == split_text(s@, sep).len(),
        forall|i: int| 0 <= i < r@.len() ==> #[trigger] r@[i]@ == split_text(s@, sep)[i],
{
    s.split(sep).collect()
}

/// Trusted bridge to `str::split_once`: the text before and after the first
/// occurrence of `sep`, if there is one.
#[verifier::external_body]
pub(crate) fn split_once_char(s: &str, sep: char) -> (r: Option<(&str, &str)>)
    ensures
        match first_index_of(s@, sep) {
            None => r is None,
            Some(i) => r matches Some((a, b)) && a@ == s@.take(i) && b@ == s@.skip(i + 1),
        },
{
    s.split_once(sep)
}


/// A text is empty exactly when its UTF-8 encoding is.
pub proof fn lemma_encode_utf8_empty(s: Seq<char>)
    ensures
        (encode_utf8(s).len() == 0) == (s.len() == 0),
{
    if s.len() > 0 {
        assert(encode_utf8(s) == encode_scalar(s[0] as u32) + encode_utf8(s.drop_first()));
        assert(encode_scalar(s[0] as u32).len() >= 1);
    }
}

/// An ASCII byte occurs in the UTF-8 encoding of a text only as the encoding
/// of that very character: the bytes of other characters are either another
/// ASCII byte or at least `0x80`.
pub proof fn lemma_encode_utf8_ascii_byte(t: Seq<char>, b: u8)
    requires
        b < 0x80,
        forall|i: int| 0 <= i < t.len() ==> (#[trigger] t[i]) as u32 != b as u32,
    ensures
        forall|j: int| 0 <= j < encode_utf8(t).len() ==> #[trigger] encode_utf8(t)[j] != b,
    decreases t.len(),
{
    if t.len() > 0 {
        lemma_encode_utf8_ascii_byte(t.drop_first(), b);
        let s = t[0] as u32;
        char_is_scalar(t[0]);
        assert(s != b as u32);
        let first = encode_scalar(s);
        assert forall|k: int| 0 <= k < first.len() implies #[trigger] first[k] != b by {
            assert(forall|y: u8| #[trigger] (0x80u8 | y) >= 0x80u8) by (bit_vector);
            assert(forall|y: u8| #[trigger] (0xC0u8 | y) >= 0x80u8) by (bit_vector);
            assert(forall|y: u8| #[trigger] (0xE0u8 | y) >= 0x80u8) by (bit_vector);
            assert(forall|y: u8| #[trigger] (0xF0u8 | y) >= 0x80u8) by (bit_vector);
            if has_width_1_encoding(s) {
                assert((s & 0x7F) as u8 != b) by (bit_vector)
                    requires
                        s <= 0x7F,
                        s != b as u32,
                        b < 0x80,
                ;
            }
        }
        let rest = encode_utf8(t.drop_first());
        assert(encode_utf8(t) == first + rest);
        assert forall|j: int| 0 <= j < encode_utf8(t).len() implies #[trigger] encode_utf8(t)[j] != b by {
            if j < first.len() {
                assert(encode_utf8(t)[j] == first[j]);
            } else {
                assert(encode_utf8(t)[j] == rest[j - first.len()]);
            }
        }
    }
}

pub proof fn lemma_encode_utf8_concat(a: Seq<char>, b: Seq<char>)
    ensures
        encode_utf8(a + b) == encode_utf8(a) + encode_utf8(b),
    decreases a.len(),
{
    if a.len() == 0 {
        assert(a + b =~= b);
    } else {
        assert((a + b).drop_first() =~= a.drop_first() + b);
        lemma_encode_utf8_concat(a.drop_first(), b);
        assert(encode_utf8(a + b) =~= encode_utf8(a) + encode_utf8(b));
    }
}

pub proof fn lemma_scan_up_concat(s: Seq<u8>, t: Seq<u8>, acc: int, max: int)
    ensures
        scan_up(s + t, acc, max) == match scan_up(s, acc, max) {
            Ok(v) => scan_up(t, v, max),
            Err(e) => Err(e),
        },
    decreases s.len(),
{
    if s.len() == 0 {
        assert(s + t =~= t);
    } else {
        assert((s + t)[0] == s[0]);
        assert((s + t).drop_first() =~= s.drop_first() + t);
        if is_digit(s[0]) && acc * 10 + (s[0] - 48) <= max {
            lemma_scan_up_concat(s.drop_first(), t, acc * 10 + (s[0] - 48), max);
        }
    }
}

pub proof fn lemma_scan_down_concat(s: Seq<u8>, t: Seq<u8>, acc: int, min: int)
    ensures
        scan_down(s + t, acc, min) == match scan_down(s, acc, min) {
            Ok(v) => scan_down(t, v, min),
            Err(e) => Err(e),
        },
    decreases s.len(),
{
    if s.len() == 0 {
        assert(s + t =~= t);
    } else {
        assert((s + t)[0] == s[0]);
        assert((s + t).drop_first() =~= s.drop_first() + t);
        if is_digit(s[0]) && acc * 10 - (s[0] - 48) >= min {
            lemma_scan_down_concat(s.drop_first(), t, acc * 10 - (s[0] - 48), min);
        }
    }
}

/// Reading back the decimal digits of `n` gives `n` when it fits.
pub proof fn lemma_scan_decimal(n: nat, max: int, min: int)
    ensures
        n <= max ==> scan_up(decimal_digits(n), 0, max) == Ok::<int, IntErrorKind>(n as int),
        min <= -n ==> scan_down(decimal_digits(n), 0, min) == Ok::<int, IntErrorKind>(-n),
    decreases n,
{
    if n < 10 {
        let d = seq![digit_byte(n)];
        assert(digit_byte(n) == 48 + n);
        assert(d.drop_first() =~= Seq::<u8>::empty());
        assert(scan_up(Seq::<u8>::empty(), n as int, max) == Ok::<int, IntErrorKind>(n as int));
        assert(scan_down(Seq::<u8>::empty(), -n, min) == Ok::<int, IntErrorKind>(-n));
        assert(decimal_digits(n) == d);
    } else {
        let q = n / 10;
        let r = n % 10;
        assert(q * 10 + r == n);
        assert(digit_byte(r) == 48 + r);
        lemma_scan_decimal(q, max, min);
        let last = seq![digit_byte(r)];
        assert(decimal_digits(n) =~= decimal_digits(q) + last);
        lemma_scan_up_concat(decimal_digits(q), last, 0, max);
        lemma_scan_down_concat(decimal_digits(q), last, 0, min);
        assert(last.drop_first() =~= Seq::<u8>::empty());
        assert(scan_up(Seq::<u8>::empty(), n as int, max) == Ok::<int, IntErrorKind>(n as int));
        assert(scan_down(Seq::<u8>::empty(), -n, min) == Ok::<int, IntErrorKind>(-n));
        assert(last[0] == 48 + r);
        if n <= max {
            assert(scan_up(last, q as int, max) == Ok::<int, IntErrorKind>(n as int));
        }
        if min <= -n {
            assert(scan_down(last, -q, min) == Ok::<int, IntErrorKind>(-n));
        }
    }
}

/// `str::parse` reads back what `to_string` renders.
pub proof fn lemma_parse_decimal_int(i: int, min: int, max: int)
    requires
        min < 0 <= max,
        min <= i <= max,
    ensures
        parse_int_spec(decimal_int(i), min, max) == Ok::<int, IntErrorKind>(i),
{
    if i < 0 {
        let m = (-i) as nat;
        lemma_scan_decimal(m, max, min);
        lemma_decimal_digits_ascii(m);
        let s = decimal_int(i);
        assert(s.drop_first() =~= decimal_digits(m));
    } else {
        lemma_scan_decimal(i as nat, max, min);
        lemma_decimal_digits_ascii(i as nat);
        let d = decimal_digits(i as nat);
        assert(48 <= d[0] <= 57);
    }
}

} // verus!
