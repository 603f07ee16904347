//! Byte-level encodings the wire formats are built from: locating a byte,
//! big-endian integers, decimal and octal ASCII, lowercase hex, and the
//! bridge between byte sequences and strings.

use vstd::prelude::*;
use vstd::utf8::{valid_utf8, decode_utf8, encode_utf8, is_ascii_chars};
use vstd::utf8::{is_ascii_chars_encode_utf8, encode_utf8_valid_utf8, encode_utf8_decode_utf8};

verus! {

// ---------------------------------------------------------------------------
// Locating a byte
// ---------------------------------------------------------------------------

/// The index of the first occurrence of `b` in `s`, if any.
pub open spec fn find_byte(s: Seq<u8>, b: u8) -> Option<int>
    decreases s.len(),
{
    if s.len() == 0 {
        None
    } else if s[0] == b {
        Some(0)
    } else {
        match find_byte(s.drop_first(), b) {
            Some(i) => Some(i + 1),
            None => None,
        }
    }
}

/// `find_byte` returns the least index holding `b`, and `None` exactly when
/// `b` does not occur.
pub proof fn lemma_find_byte(s: Seq<u8>, b: u8)
    ensures
        match find_byte(s, b) {
            Some(i) => 0 <= i < s.len() && s[i] == b && forall|j: int| 0 <= j < i ==> s[j] != b,
            None => forall|j: int| 0 <= j < s.len() ==> s[j] != b,
        },
    decreases s.len(),
{
    if s.len() > 0 && s[0] != b {
        lemma_find_byte(s.drop_first(), b);
        assert forall|j: int| 0 < j < s.len() implies s[j] == s.drop_first()[j - 1] by {}
    }
}

/// Scans `data` from `start` for the first occurrence of `b`.
pub fn find_byte_from(data: &Vec<u8>, start: usize, b: u8) -> (r: Option<usize>)
    requires
        start <= data@.len(),
    ensures
        match r {
            Some(i) => start <= i < data@.len()
                && find_byte(data@.skip(start as int), b) == Some(i - start),
            None => find_byte(data@.skip(start as int), b) is None,
        },
{
    let mut i: usize = start;
    while i < data.len()
        invariant
            start <= i <= data@.len(),
            forall|j: int| start <= j < i ==> data@[j] != b,
        decreases data@.len() - i,
    {
        if data[i] == b {
            proof {
                let sub = data@.skip(start as int);
                lemma_find_byte(sub, b);
                assert(sub[i - start] == b);
                match find_byte(sub, b) {
                    Some(k) => {
                        assert(sub[k] == data@[k + start]);
                        assert(k == i - start);
                    },
                    None => {
                        assert(sub[i - start] == b);
                        assert(false);
                    },
                }
            }
            return Some(i);
        }
        i = i + 1;
    }
    proof {
        lemma_find_byte(data@.skip(start as int), b);
        if let Some(k) = find_byte(data@.skip(start as int), b) {
            assert(data@[k + start] == b);
            assert(false);
        }
    }
    None
}

// ---------------------------------------------------------------------------
// Big-endian integers
// ---------------------------------------------------------------------------

/// The four big-endian bytes of a 32-bit integer.
pub open spec fn be32(x: u32) -> Seq<u8> {
    seq![
        ((x >> 24) & 0xff) as u8,
        ((x >> 16) & 0xff) as u8,
        ((x >> 8) & 0xff) as u8,
        (x & 0xff) as u8,
    ]
}

/// The two big-endian bytes of a 16-bit integer.
pub open spec fn be16(x: u16) -> Seq<u8> {
    seq![((x >> 8) & 0xff) as u8, (x & 0xff) as u8]
}

/// The 32-bit value read from four big-endian bytes.
pub open spec fn u32_of_be(s: Seq<u8>) -> u32
    recommends
        s.len() == 4,
{
    (s[0] * 0x1000000 + s[1] * 0x10000 + s[2] * 0x100 + s[3]) as u32
}

/// The 16-bit value read from two big-endian bytes.
pub open spec fn u16_of_be(s: Seq<u8>) -> u16
    recommends
        s.len() == 2,
{
    (s[0] * 0x100 + s[1]) as u16
}

/// Reading back the four big-endian bytes of `x` yields `x`.
pub proof fn lemma_be32_round_trip(x: u32)
    ensures
        u32_of_be(be32(x)) == x,
{
    assert((x >> 24) & 0xff < 256 && (x >> 16) & 0xff < 256 && (x >> 8) & 0xff < 256 && x & 0xff
        < 256) by (bit_vector);
    assert(((x >> 24) & 0xff) * 0x1000000 + ((x >> 16) & 0xff) * 0x10000 + ((x >> 8) & 0xff)
        * 0x100 + (x & 0xff) == x) by (bit_vector);
    let s = be32(x);
    assert(s[0] == ((x >> 24) & 0xff) as u8 && s[1] == ((x >> 16) & 0xff) as u8 && s[2] == ((x
        >> 8) & 0xff) as u8 && s[3] == (x & 0xff) as u8);
}

/// Reading back the two big-endian bytes of `x` yields `x`.
pub proof fn lemma_be16_round_trip(x: u16)
    ensures
        u16_of_be(be16(x)) == x,
{
    assert((x >> 8) & 0xff < 256 && x & 0xff < 256) by (bit_vector);
    assert(((x >> 8) & 0xff) * 0x100 + (x & 0xff) == x) by (bit_vector);
    let s = be16(x);
    assert(s[0] == ((x >> 8) & 0xff) as u8 && s[1] == (x & 0xff) as u8);
}

/// Appends the big-endian bytes of `x` to `out`.
pub fn push_be32(out: &mut Vec<u8>, x: u32)
    ensures
        final(out)@ == old(out)@ + be32(x),
{
    out.push(((x >> 24) & 0xff) as u8);
    out.push(((x >> 16) & 0xff) as u8);
    out.push(((x >> 8) & 0xff) as u8);
    out.push((x & 0xff) as u8);
    assert(out@ =~= old(out)@ + be32(x));
}

/// Appends the big-endian bytes of `x` to `out`.
pub fn push_be16(out: &mut Vec<u8>, x: u16)
    ensures
        final(out)@ == old(out)@ + be16(x),
{
    out.push(((x >> 8) & 0xff) as u8);
    out.push((x & 0xff) as u8);
    assert(out@ =~= old(out)@ + be16(x));
}

/// Reads the big-endian 32-bit integer at offset `i` of `data`.
pub fn read_be32(data: &Vec<u8>, i: usize) -> (x: u32)
    requires
        i + 4 <= data@.len(),
    ensures
        x == u32_of_be(data@.subrange(i as int, i as int + 4)),
{
    let n = data.len();
    assert(i + 4 <= n);
    let b0 = data[i] as u32;
    let b1 = data[i + 1] as u32;
    let b2 = data[i + 2] as u32;
    let b3 = data[i + 3] as u32;
    b0 * 0x1000000 + b1 * 0x10000 + b2 * 0x100 + b3
}

/// Reads the big-endian 16-bit integer at offset `i` of `data`.
pub fn read_be16(data: &Vec<u8>, i: usize) -> (x: u16)
    requires
        i + 2 <= data@.len(),
    ensures
        x == u16_of_be(data@.subrange(i as int, i as int + 2)),
{
    let n = data.len();
    assert(i + 2 <= n);
    let b0 = data[i] as u16;
    let b1 = data[i + 1] as u16;
    b0 * 0x100 + b1
}

// ---------------------------------------------------------------------------
// Decimal and octal ASCII
// ---------------------------------------------------------------------------

/// Whether `b` is an ASCII decimal digit.
pub open spec fn is_digit(b: u8) -> bool {
    48 <= b <= 57
}

/// Whether every byte of `s` is an ASCII decimal digit.
pub open spec fn all_digits(s: Seq<u8>) -> bool {
    forall|i: int| 0 <= i < s.len() ==> is_digit(#[trigger] s[i])
}

/// The value of a string of decimal digits (most significant first).
pub open spec fn dec_val(s: Seq<u8>) -> nat
    decreases s.len(),
{
    if s.len() == 0 {
        0
    } else {
        dec_val(s.drop_last()) * 10 + (s.last() - 48) as nat
    }
}

/// The canonical decimal digits of `n` (no leading zeros).
pub open spec fn dec_bytes(n: nat) -> Seq<u8>
    decreases n,
{
    if n < 10 {
        seq![(48 + n) as u8]
    } else {
        dec_bytes(n / 10).push((48 + n % 10) as u8)
    }
}

/// The canonical digits of `n` are digits and read back as `n`.
pub proof fn lemma_dec_bytes(n: nat)
    ensures
        dec_bytes(n).len() >= 1,
        all_digits(dec_bytes(n)),
        dec_val(dec_bytes(n)) == n,
    decreases n,
{
    if n < 10 {
        let s = dec_bytes(n);
        assert(s =~= seq![(48 + n) as u8]);
        assert(s.drop_last() =~= Seq::<u8>::empty());
        assert(dec_val(s) == dec_val(s.drop_last()) * 10 + (s.last() - 48) as nat);
        assert(dec_val(s) == n);
    } else {
        lemma_dec_bytes(n / 10);
        let s = dec_bytes(n);
        assert(s.drop_last() =~= dec_bytes(n / 10));
        assert(dec_val(s) == (n / 10) * 10 + n % 10);
    }
}

/// Extending a digit string multiplies its value by ten and adds the digit.
pub proof fn lemma_dec_val_take(s: Seq<u8>, i: int)
    requires
        0 <= i < s.len(),
    ensures
        dec_val(s.take(i + 1)) == dec_val(s.take(i)) * 10 + (s[i] - 48) as nat,
{
    assert(s.take(i + 1).drop_last() =~= s.take(i));
    assert(s.take(i + 1).last() == s[i]);
}

/// The value of a digit string is at least the value of any of its prefixes.
pub proof fn lemma_dec_val_prefix(s: Seq<u8>, i: int)
    requires
        0 <= i <= s.len(),
    ensures
        dec_val(s) >= dec_val(s.take(i)),
    decreases s.len() - i,
{
    if i < s.len() {
        lemma_dec_val_take(s, i);
        lemma_dec_val_prefix(s, i + 1);
        assert(dec_val(s.take(i + 1)) >= dec_val(s.take(i)));
    } else {
        assert(s.take(i) =~= s);
    }
}

/// Appends the canonical decimal digits of `n` to `out`.
pub fn push_decimal(out: &mut Vec<u8>, n: u64)
    ensures
        final(out)@ == old(out)@ + dec_bytes(n as nat),
    decreases n,
{
    if n < 10 {
        out.push(48 + (n as u8));
        assert(out@ =~= old(out)@ + dec_bytes(n as nat));
    } else {
        push_decimal(out, n / 10);
        out.push(48 + ((n % 10) as u8));
        assert(out@ =~= old(out)@ + dec_bytes(n as nat));
    }
}

/// Reads the decimal value of `data[start..end]`, unless some byte is not a
/// digit, the range is empty, or the value exceeds `cap`.
pub fn dec_value_capped(data: &Vec<u8>, start: usize, end: usize, cap: usize) -> (r: Option<usize>)
    requires
        start <= end <= data@.len(),
    ensures
        match r {
            Some(v) => {
                &&& all_digits(data@.subrange(start as int, end as int))
                &&& start < end
                &&& dec_val(data@.subrange(start as int, end as int)) == v
                &&& v <= cap
            },
            None => {
                let s = data@.subrange(start as int, end as int);
                !(all_digits(s) && s.len() > 0 && dec_val(s) <= cap)
            },
        },
{
    let ghost s = data@.subrange(start as int, end as int);
    if start == end {
        return None;
    }
    let mut acc: u128 = 0;
    let mut i: usize = start;
    while i < end
        invariant
            start <= i <= end <= data@.len(),
            s == data@.subrange(start as int, end as int),
            all_digits(s.take(i - start)),
            acc == dec_val(s.take(i - start)),
            acc <= cap as u128,
        decreases end - i,
    {
        let b = data[i];
        if b < 48 || b > 57 {
            assert(s[i - start] == b);
            return None;
        }
        proof {
            lemma_dec_val_take(s, i - start);
        }
        let d = (b - 48) as u128;
        let next = acc * 10 + d;
        assert(next == dec_val(s.take(i - start + 1)));
        if next > cap as u128 {
            proof {
                lemma_dec_val_prefix(s, i - start + 1);
            }
            return None;
        }
        acc = next;
        i = i + 1;
        assert(all_digits(s.take(i - start)));
    }
    assert(s.take(i - start) =~= s);
    Some(acc as usize)
}

/// The octal digits of `n` (no leading zeros).
pub open spec fn oct_bytes(n: nat) -> Seq<u8>
    decreases n,
{
    if n < 8 {
        seq![(48 + n) as u8]
    } else {
        oct_bytes(n / 8).push((48 + n % 8) as u8)
    }
}

/// Appends the octal digits of `n` to `out`.
pub fn push_octal(out: &mut Vec<u8>, n: u64)
    ensures
        final(out)@ == old(out)@ + oct_bytes(n as nat),
    decreases n,
{
    if n < 8 {
        out.push(48 + (n as u8));
        assert(out@ =~= old(out)@ + oct_bytes(n as nat));
    } else {
        push_octal(out, n / 8);
        out.push(48 + ((n % 8) as u8));
        assert(out@ =~= old(out)@ + oct_bytes(n as nat));
    }
}

// ---------------------------------------------------------------------------
// Lowercase hex
// ---------------------------------------------------------------------------

/// The lowercase hex digit for a nibble.
pub open spec fn hex_digit(n: u8) -> u8
    recommends
        n < 16,
{
    if n < 10 {
        (48 + n) as u8
    } else {
        (87 + n) as u8
    }
}

/// The lowercase hex ASCII bytes of a byte string, two digits per byte.
pub open spec fn hex_bytes(s: Seq<u8>) -> Seq<u8> {
    Seq::new(
        s.len() * 2,
        |i: int|
            if i % 2 == 0 {
                hex_digit(s[i / 2] >> 4)
            } else {
                hex_digit((s[i / 2] & 0xf) as u8)
            },
    )
}

/// The characters of a byte string taken as code points.
pub open spec fn bytes_as_chars(s: Seq<u8>) -> Seq<char> {
    Seq::new(s.len(), |i: int| s[i] as char)
}

/// The lowercase hex form of a byte string, as characters.
pub open spec fn hex_chars(s: Seq<u8>) -> Seq<char> {
    bytes_as_chars(hex_bytes(s))
}

/// Whether `c` is a lowercase hex digit character.
pub open spec fn is_hex_char(c: char) -> bool {
    ('0' <= c && c <= '9') || ('a' <= c && c <= 'f')
}

/// Every character of the hex form is a lowercase hex digit.
pub proof fn lemma_hex_chars_are_hex(s: Seq<u8>)
    ensures
        hex_chars(s).len() == 2 * s.len(),
        forall|i: int| 0 <= i < 2 * s.len() ==> is_hex_char(#[trigger] hex_chars(s)[i]),
{
    assert forall|i: int| 0 <= i < 2 * s.len() implies is_hex_char(#[trigger] hex_chars(s)[i]) by {
        let b = hex_bytes(s)[i];
        let v = s[i / 2];
        let n = if i % 2 == 0 {
            v >> 4
        } else {
            (v & 0xf) as u8
        };
        assert((v >> 4) < 16 && (v & 0xf) < 16) by (bit_vector);
        assert(b == hex_digit(n));
        assert(n < 16);
        if n < 10 {
            assert(hex_chars(s)[i] == ((48 + n) as u8) as char);
        } else {
            assert(hex_chars(s)[i] == ((87 + n) as u8) as char);
        }
    }
}

/// Appends the two lowercase hex ASCII digits of each byte of `data` to `out`.
pub fn push_hex_bytes(out: &mut Vec<u8>, data: &Vec<u8>)
    ensures
        final(out)@ == old(out)@ + hex_bytes(data@),
{
    let mut i: usize = 0;
    while i < data.len()
        invariant
            i <= data@.len(),
            out@ == old(out)@ + hex_bytes(data@).take(2 * i),
        decreases data@.len() - i,
    {
        let b = data[i];
        let hi = b >> 4;
        let lo = b & 0xf;
        assert(b >> 4 < 16 && b & 0xf < 16) by (bit_vector);
        let d0 = if hi < 10 { 48 + hi } else { 87 + hi };
        let d1 = if lo < 10 { 48 + lo } else { 87 + lo };
        out.push(d0);
        out.push(d1);
        proof {
            let h = hex_bytes(data@);
            assert(h[2 * i] == hex_digit(hi) && h[2 * i + 1] == hex_digit(lo));
            assert(out@ =~= old(out)@ + h.take(2 * (i + 1)));
        }
        i = i + 1;
    }
    assert(hex_bytes(data@).take(2 * i) =~= hex_bytes(data@));
}

// ---------------------------------------------------------------------------
// Bytes and strings
// ---------------------------------------------------------------------------

/// Relies on `String::from_utf8`: it returns the string decoded from the
/// bytes when they are valid UTF-8, and an error exactly otherwise.
#[verifier::external_body]
pub(crate) fn bytes_to_string(data: &[u8]) -> (r: Option<String>)
    ensures
        match r {
            Some(s) => valid_utf8(data@) && s@ == decode_utf8(data@),
            None => !valid_utf8(data@),
        },
{
    match String::from_utf8(data.to_vec()) {
        Ok(s) => Some(s),
        Err(_) => None,
    }
}

/// A byte string of ASCII bytes is valid UTF-8 and decodes to the same code
/// points; encoding those code points gives the bytes back.
pub proof fn lemma_ascii_bytes_decode(b: Seq<u8>)
    requires
        forall|i: int| 0 <= i < b.len() ==> #[trigger] b[i] < 0x80,
    ensures
        valid_utf8(b),
        decode_utf8(b) == bytes_as_chars(b),
        encode_utf8(bytes_as_chars(b)) == b,
{
    let c = bytes_as_chars(b);
    assert forall|i: int| 0 <= i < c.len() implies '\0' <= #[trigger] c[i] <= '\u{7f}' by {
        assert(c[i] == b[i] as char);
        assert(b[i] < 0x80);
    }
    assert(is_ascii_chars(c));
    is_ascii_chars_encode_utf8(c);
    assert forall|i: int| 0 <= i < b.len() implies encode_utf8(c)[i] == b[i] by {
        assert(c[i] as u8 == encode_utf8(c)[i]);
        assert((b[i] as char) as u8 == b[i]);
    }
    assert(encode_utf8(c) =~= b);
    encode_utf8_valid_utf8(c);
    encode_utf8_decode_utf8(c);
}

/// Encoding a sequence of ASCII characters yields one byte per character,
/// holding the same code points.
pub proof fn lemma_ascii_chars_encode(c: Seq<char>)
    requires
        is_ascii_chars(c),
    ensures
        encode_utf8(c).len() == c.len(),
        forall|i: int| 0 <= i < c.len() ==> #[trigger] encode_utf8(c)[i] < 0x80,
        bytes_as_chars(encode_utf8(c)) == c,
{
    is_ascii_chars_encode_utf8(c);
    assert forall|i: int| 0 <= i < c.len() implies #[trigger] encode_utf8(c)[i] < 0x80 by {
        assert(encode_utf8(c)[i] == c[i] as u8);
    }
    assert forall|i: int| 0 <= i < c.len() implies bytes_as_chars(encode_utf8(c))[i] == c[i] by {
        assert(encode_utf8(c)[i] == c[i] as u8);
        assert((c[i] as u8) as char == c[i]);
    }
    assert(bytes_as_chars(encode_utf8(c)) =~= c);
}

/// The string of the lowercase hex form of `data`.
pub fn hex_string(data: &Vec<u8>) -> (r: String)
    ensures
        r@ == hex_chars(data@),
        r@.len() == 2 * data@.len(),
{
    let mut ascii: Vec<u8> = Vec::new();
    push_hex_bytes(&mut ascii, data);
    proof {
        assert forall|i: int| 0 <= i < ascii@.len() implies #[trigger] ascii@[i] < 0x80 by {
            let b = hex_bytes(data@)[i];
            let v = data@[i / 2];
            assert((v >> 4) < 16 && (v & 0xf) < 16) by (bit_vector);
            assert(b == hex_digit(if i % 2 == 0 { v >> 4 } else { (v & 0xf) as u8 }));
        }
        lemma_ascii_bytes_decode(ascii@);
    }
    match bytes_to_string(ascii.as_slice()) {
        Some(s) => s,
        None => {
            proof {
                assert(false);
            }
            String::new()
        },
    }
}

} // verus!
