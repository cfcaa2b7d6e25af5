use vstd::prelude::*;
use vstd::utf8::encode_utf8;

verus! {

/// `s` with every leading `0x` removed.
pub open spec fn strip_0x(s: Seq<char>) -> Seq<char>
    decreases s.len(),
{
    if s.len() >= 2 && s[0] == '0' && s[1] == 'x' {
        strip_0x(s.subrange(2, s.len() as int))
    } else {
        s
    }
}

/// Hex text without its `0x` prefix, padded with one leading zero where its
/// UTF-8 length is odd.
pub open spec fn normalized_hex(s: Seq<char>) -> Seq<char> {
    let c = strip_0x(s);
    if encode_utf8(c).len() % 2 == 0 {
        c
    } else {
        seq!['0'] + c
    }
}

pub open spec fn is_hex_char(c: char) -> bool {
    ('0' <= c && c <= '9') || ('a' <= c && c <= 'f') || ('A' <= c && c <= 'F')
}

pub open spec fn hex_char_value(c: char) -> int {
    if '0' <= c && c <= '9' {
        c as int - '0' as int
    } else if 'a' <= c && c <= 'f' {
        c as int - 'a' as int + 10
    } else {
        c as int - 'A' as int + 10
    }
}

/// Text that decodes as hex: an even number of hex digits, either case.
pub open spec fn hex_decodable(s: Seq<char>) -> bool {
    s.len() % 2 == 0 && forall|i: int| 0 <= i < s.len() ==> is_hex_char(#[trigger] s[i])
}

/// The bytes that hex text spells, two digits each, high nibble first.
pub open spec fn hex_decoded(s: Seq<char>) -> Seq<u8> {
    Seq::new(
        (s.len() / 2) as nat,
        |i: int| (hex_char_value(s[2 * i]) * 16 + hex_char_value(s[2 * i + 1])) as u8,
    )
}

pub open spec fn lower_hex_char(n: int) -> char {
    if n < 10 {
        (48 + n) as char
    } else {
        (87 + n) as char
    }
}

/// Bytes as lowercase hex, two digits each.
pub open spec fn hex_lower(b: Seq<u8>) -> Seq<char> {
    Seq::new(
        2 * b.len(),
        |i: int|
            if i % 2 == 0 {
                lower_hex_char(b[i / 2] as int / 16)
            } else {
                lower_hex_char(b[i / 2] as int % 16)
            },
    )
}

/// Relies on hex::decode: an even number of hex digits (either case) decodes to
/// one byte per pair, high nibble first; anything else is an error.
#[verifier::external_body]
pub(crate) fn decode_hex(s: &str) -> (r: Result<Vec<u8>, String>)
    ensures
        r is Ok <==> hex_decodable(s@),
        r is Ok ==> r->Ok_0@ == hex_decoded(s@),
{
    match hex::decode(s) {
        Ok(v) => Ok(v),
        Err(e) => Err(e.to_string()),
    }
}

/// Relies on hex::encode: each byte as two lowercase hex digits.
#[verifier::external_body]
pub(crate) fn encode_hex(b: &[u8]) -> (r: String)
    ensures
        r@ == hex_lower(b@),
{
    hex::encode(b)
}

/// `s` without its leading `0x` prefixes.
pub(crate) fn strip_hex_prefix(s: &str) -> (r: &str)
    ensures
        r@ == strip_0x(s@),
{
    let n = s.unicode_len();
    let mut i: usize = 0;
    proof {
        assert(s@.subrange(0, n as int) =~= s@);
    }
    while i < n && n - i >= 2 && s.get_char(i) == '0' && s.get_char(i + 1) == 'x'
        invariant
            n == s@.len(),
            i <= n,
            strip_0x(s@) == strip_0x(s@.subrange(i as int, n as int)),
        decreases n - i,
    {
        proof {
            let t = s@.subrange(i as int, n as int);
            assert(t.subrange(2, t.len() as int) =~= s@.subrange(i + 2, n as int));
        }
        i = i + 2;
    }
    proof {
        let t = s@.subrange(i as int, n as int);
        assert(strip_0x(t) == t);
    }
    s.substring_char(i, n)
}

/// Drops every leading `0x` and pads an odd number of digits with a leading zero.
pub fn normalize_hex_even(s: &str) -> (r: String)
    ensures
        r@ == normalized_hex(s@),
{
    let clean = strip_hex_prefix(s);
    let byte_len = clean.as_bytes().len();
    assert(byte_len as nat == encode_utf8(clean@).len());
    if byte_len % 2 == 0 {
        clean.to_owned()
    } else {
        let zero = String::from_str("0");
        proof {
            reveal_strlit("0");
        }
        let r = zero.concat(clean);
        assert(r@ =~= normalized_hex(s@));
        r
    }
}

/// Lowercase hex text decodes back to the bytes it was made from, and needs
/// no normalizing.
pub proof fn lemma_hex_round_trip(b: Seq<u8>)
    ensures
        hex_decodable(hex_lower(b)),
        hex_decoded(hex_lower(b)) == b,
        normalized_hex(hex_lower(b)) == hex_lower(b),
{
    let h = hex_lower(b);
    assert forall|i: int| 0 <= i < h.len() implies is_hex_char(#[trigger] h[i]) && h[i] != 'x'
        && '\0' <= h[i] <= '\u{7f}' by {
        let n = if i % 2 == 0 {
            b[i / 2] as int / 16
        } else {
            b[i / 2] as int % 16
        };
        assert(0 <= n < 16);
        assert(h[i] == lower_hex_char(n));
    }
    assert forall|k: int| 0 <= k < b.len() implies #[trigger] hex_decoded(h)[k] == b[k] by {
        assert(h[2 * k] == lower_hex_char(b[k] as int / 16));
        assert(h[2 * k + 1] == lower_hex_char(b[k] as int % 16));
        assert(hex_char_value(lower_hex_char(b[k] as int / 16)) == b[k] as int / 16);
        assert(hex_char_value(lower_hex_char(b[k] as int % 16)) == b[k] as int % 16);
    }
    assert(hex_decoded(h) =~= b);
    assert(strip_0x(h) == h);
    assert(vstd::utf8::is_ascii_chars(h));
    vstd::utf8::is_ascii_chars_encode_utf8(h);
}

} // verus!
