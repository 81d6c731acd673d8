//! Percent-decoding, lowercase hex encoding and info-hash parsing.

use url::percent_encoding::from_hex;
use vstd::prelude::*;
use vstd::string::StringSliceAdditionalSpecFns;

verus! {

/// The value of an ASCII hex digit (either case), or `None` for any other byte.
pub open spec fn hex_digit_value(byte: u8) -> Option<u8> {
    if 0x30 <= byte && byte <= 0x39 {
        Some((byte - 0x30) as u8)
    } else if 0x41 <= byte && byte <= 0x46 {
        Some((byte - 0x41 + 10) as u8)
    } else if 0x61 <= byte && byte <= 0x66 {
        Some((byte - 0x61 + 10) as u8)
    } else {
        None
    }
}

/// `url::percent_encoding::from_hex` maps `0-9`, `A-F` and `a-f` to their
/// value and every other byte to `None`; the claim is exactly that.
pub assume_specification[ from_hex ](byte: u8) -> (r: Option<u8>)
    ensures
        r == hex_digit_value(byte),
;

/// The bytes that percent-decoding `s` yields, or `None` where a `%` is not
/// followed by two hex digits.
pub open spec fn spec_percent_decode(s: Seq<u8>) -> Option<Seq<u8>>
    decreases s.len(),
{
    if s.len() == 0 {
        Some(Seq::<u8>::empty())
    } else if s[0] == 0x25u8 {
        if s.len() >= 3 && hex_digit_value(s[1]) is Some && hex_digit_value(s[2]) is Some {
            match spec_percent_decode(s.subrange(3, s.len() as int)) {
                Some(rest) => Some(
                    seq![(hex_digit_value(s[1])->0 * 16 + hex_digit_value(s[2])->0) as u8] + rest,
                ),
                None => None,
            }
        } else {
            None
        }
    } else {
        match spec_percent_decode(s.subrange(1, s.len() as int)) {
            Some(rest) => Some(seq![s[0]] + rest),
            None => None,
        }
    }
}

/// Percent-decodes a byte string; malformed escapes are an error.
pub fn percent_decode_bytes(input: &[u8]) -> (r: Result<Vec<u8>, String>)
    ensures
        match spec_percent_decode(input@) {
            Some(v) => r matches Ok(out) && out@ == v,
            None => r matches Err(e) && e@ == "Invalid percent encoding"@,
        },
{
    let n = input.len();
    let mut output: Vec<u8> = Vec::new();
    let mut i: usize = 0;
    assert(input@.subrange(0, n as int) =~= input@);
    proof {
        if let Some(rest) = spec_percent_decode(input@) {
            assert(output@ + rest =~= rest);
        }
    }
    while i < n
        invariant
            n == input@.len(),
            i <= n,
            match spec_percent_decode(input@.subrange(i as int, n as int)) {
                Some(rest) => spec_percent_decode(input@) == Some(output@ + rest),
                None => spec_percent_decode(input@) is None,
            },
        decreases n - i,
    {
        let ghost tail = input@.subrange(i as int, n as int);
        let b = input[i];
        if b == 0x25u8 {
            let h1 = if n - i > 1 { from_hex(input[i + 1]) } else { None };
            let h2 = if n - i > 2 { from_hex(input[i + 2]) } else { None };
            match (h1, h2) {
                (Some(d1), Some(d2)) => {
                    assert(tail.subrange(3, tail.len() as int) =~= input@.subrange(i + 3, n as int));
                    let ghost old_out = output@;
                    output.push(d1 * 16 + d2);
                    proof {
                        if let Some(rest) = spec_percent_decode(input@.subrange(i + 3, n as int)) {
                            assert(old_out + (seq![(d1 * 16 + d2) as u8] + rest) =~= output@ + rest);
                        }
                    }
                    i = i + 3;
                },
                _ => {
                    return Err("Invalid percent encoding".to_owned());
                },
            }
        } else {
            assert(tail.subrange(1, tail.len() as int) =~= input@.subrange(i + 1, n as int));
            let ghost old_out = output@;
            output.push(b);
            proof {
                if let Some(rest) = spec_percent_decode(input@.subrange(i + 1, n as int)) {
                    assert(old_out + (seq![b] + rest) =~= output@ + rest);
                }
            }
            i = i + 1;
        }
    }
    assert(input@.subrange(n as int, n as int) =~= Seq::<u8>::empty());
    assert(output@ + Seq::<u8>::empty() =~= output@);
    Ok(output)
}

/// Percent-decodes the input string.
///
/// Unlike the lenient decoders, a `%` that is not followed by two hex digits
/// (such as `%AK` or a trailing `%`) is an error.
pub fn percent_decode(input: &str) -> (r: Result<Vec<u8>, String>)
    ensures
        match spec_percent_decode(input.spec_bytes()) {
            Some(v) => r matches Ok(out) && out@ == v,
            None => r matches Err(e) && e@ == "Invalid percent encoding"@,
        },
{
    percent_decode_bytes(input.as_bytes())
}

/// `String::push` appends one character; vstd leaves it unspecified.
pub assume_specification[ String::push ](string: &mut String, ch: char)
    ensures
        final(string)@ == old(string)@.push(ch),
;

/// The lowercase hex digit of a value below 16.
pub open spec fn hex_char(nibble: u8) -> char {
    if nibble < 10 {
        (nibble + 48) as char
    } else {
        (nibble + 87) as char
    }
}

/// Lowercase hex of a byte string, two digits per byte, high nibble first.
pub open spec fn spec_hexstring(bytes: Seq<u8>) -> Seq<char>
    decreases bytes.len(),
{
    if bytes.len() == 0 {
        Seq::<char>::empty()
    } else {
        let b = bytes.last();
        spec_hexstring(bytes.drop_last()) + seq![hex_char(b / 16), hex_char(b % 16)]
    }
}

fn hex_digit_char(nibble: u8) -> (c: char)
    requires
        nibble < 16,
    ensures
        c == hex_char(nibble),
{
    if nibble < 10 {
        (nibble + 48) as char
    } else {
        (nibble + 87) as char
    }
}

/// Converts bytes to a lowercase hex string.
pub fn hexstring(input: &[u8]) -> (output: String)
    ensures
        output@ == spec_hexstring(input@),
{
    let mut output = String::new();
    let n = input.len();
    for i in 0..n
        invariant
            n == input@.len(),
            output@ == spec_hexstring(input@.subrange(0, i as int)),
    {
        let byte = input[i];
        output.push(hex_digit_char(byte / 16));
        output.push(hex_digit_char(byte % 16));
        assert(input@.subrange(0, i + 1).drop_last() =~= input@.subrange(0, i as int));
    }
    assert(input@.subrange(0, n as int) =~= input@);
    output
}

/// What parsing a raw (still percent-encoded) info hash gives: the lowercase hex of
/// the twenty decoded bytes, or the error message of the first check that fails.
pub open spec fn spec_parse_info_hash(raw: Seq<u8>) -> Result<Seq<char>, Seq<char>> {
    match spec_percent_decode(raw) {
        None => Err("Invalid percent encoding"@),
        Some(decoded) => if decoded.len() != 20 {
            Err("Info hash is invalid (too short)."@)
        } else {
            Ok(spec_hexstring(decoded))
        },
    }
}

/// Views a `Result<String, String>` as a result of character sequences.
pub open spec fn string_result_view(r: Result<String, String>) -> Result<Seq<char>, Seq<char>> {
    match r {
        Ok(s) => Ok(s@),
        Err(e) => Err(e@),
    }
}

/// Parses a raw info hash given as bytes (see [`parse_info_hash`]).
pub fn parse_info_hash_bytes(input: &[u8]) -> (r: Result<String, String>)
    ensures
        string_result_view(r) == spec_parse_info_hash(input@),
{
    let info_hash_binary = match percent_decode_bytes(input) {
        Ok(i) => i,
        Err(j) => return Err(j),
    };
    if info_hash_binary.len() != 20 {
        return Err("Info hash is invalid (too short).".to_owned());
    }
    Ok(hexstring(info_hash_binary.as_slice()))
}

/// Parses a percent-encoded info hash into the lowercase hex string of its
/// twenty bytes (the store it is kept in is not binary safe).
pub fn parse_info_hash(input: &str) -> (r: Result<String, String>)
    ensures
        string_result_view(r) == spec_parse_info_hash(input.spec_bytes()),
{
    parse_info_hash_bytes(input.as_bytes())
}

/// Whether `c` is a lowercase hex digit.
pub open spec fn is_lower_hex_char(c: char) -> bool {
    (0x30 <= c as int && c as int <= 0x39) || (0x61 <= c as int && c as int <= 0x66)
}

/// The hex string has two characters per byte, each a lowercase hex digit.
pub proof fn lemma_hexstring_lowercase(bytes: Seq<u8>)
    ensures
        spec_hexstring(bytes).len() == 2 * bytes.len(),
        forall|i: int|
            0 <= i < spec_hexstring(bytes).len() ==> is_lower_hex_char(
                #[trigger] spec_hexstring(bytes)[i],
            ),
    decreases bytes.len(),
{
    if bytes.len() > 0 {
        lemma_hexstring_lowercase(bytes.drop_last());
    }
}

proof fn lemma_hex_char_injective(a: u8, b: u8)
    requires
        a < 16,
        b < 16,
        hex_char(a) == hex_char(b),
    ensures
        a == b,
{
    assert(hex_char(a) as int == (if a < 10 { a + 48 } else { a + 87 }));
    assert(hex_char(b) as int == (if b < 10 { b + 48 } else { b + 87 }));
}

/// Distinct byte strings have distinct hex strings, so distinct info hashes
/// are kept under distinct keys.
pub proof fn lemma_hexstring_injective(a: Seq<u8>, b: Seq<u8>)
    requires
        spec_hexstring(a) == spec_hexstring(b),
    ensures
        a == b,
    decreases a.len(),
{
    lemma_hexstring_lowercase(a);
    lemma_hexstring_lowercase(b);
    if a.len() > 0 {
        let ha = spec_hexstring(a);
        let n = ha.len();
        let pa = spec_hexstring(a.drop_last());
        let pb = spec_hexstring(b.drop_last());
        lemma_hexstring_lowercase(a.drop_last());
        lemma_hexstring_lowercase(b.drop_last());
        assert(ha[n - 2] == hex_char(a.last() / 16));
        assert(ha[n - 2] == hex_char(b.last() / 16));
        assert(ha[n - 1] == hex_char(a.last() % 16));
        assert(ha[n - 1] == hex_char(b.last() % 16));
        lemma_hex_char_injective(a.last() / 16, b.last() / 16);
        lemma_hex_char_injective(a.last() % 16, b.last() % 16);
        assert(pa =~= ha.subrange(0, n - 2));
        assert(pb =~= ha.subrange(0, n - 2));
        lemma_hexstring_injective(a.drop_last(), b.drop_last());
        assert(a =~= a.drop_last().push(a.last()));
        assert(b =~= b.drop_last().push(b.last()));
    }
}

/// A parsed info hash is forty lowercase hex digits.
pub proof fn lemma_info_hash_shape(raw: Seq<u8>)
    ensures
        spec_parse_info_hash(raw) matches Ok(h) ==> h.len() == 40 && forall|i: int|
            0 <= i < 40 ==> is_lower_hex_char(#[trigger] h[i]),
{
    if let Some(decoded) = spec_percent_decode(raw) {
        lemma_hexstring_lowercase(decoded);
    }
}

/// The ASCII hex digit of a value below 16, in either case.
pub open spec fn hex_digit_byte(nibble: u8, upper: bool) -> u8 {
    if nibble < 10 {
        (nibble + 0x30) as u8
    } else if upper {
        (nibble + 0x37) as u8
    } else {
        (nibble + 0x57) as u8
    }
}

/// Every byte written as `%` and two hex digits of the chosen case.
pub open spec fn percent_encode_all(bytes: Seq<u8>, upper: bool) -> Seq<u8>
    decreases bytes.len(),
{
    if bytes.len() == 0 {
        Seq::<u8>::empty()
    } else {
        seq![
            0x25u8,
            hex_digit_byte(bytes[0] / 16, upper),
            hex_digit_byte(bytes[0] % 16, upper),
        ] + percent_encode_all(bytes.drop_first(), upper)
    }
}

/// Decoding gives back any byte string written wholly in percent escapes, in
/// either case.
pub proof fn lemma_percent_decode_escapes(bytes: Seq<u8>, upper: bool)
    ensures
        spec_percent_decode(percent_encode_all(bytes, upper)) == Some(bytes),
    decreases bytes.len(),
{
    let e = percent_encode_all(bytes, upper);
    if bytes.len() > 0 {
        lemma_percent_decode_escapes(bytes.drop_first(), upper);
        assert(e.subrange(3, e.len() as int) =~= percent_encode_all(bytes.drop_first(), upper));
        let hi = bytes[0] / 16;
        let lo = bytes[0] % 16;
        assert(hex_digit_value(hex_digit_byte(hi, upper)) == Some(hi));
        assert(hex_digit_value(hex_digit_byte(lo, upper)) == Some(lo));
        assert(seq![(hi * 16 + lo) as u8] + bytes.drop_first() =~= bytes);
    } else {
        assert(e =~= Seq::<u8>::empty());
    }
}

/// A string without `%` decodes to itself.
pub proof fn lemma_percent_decode_plain(s: Seq<u8>)
    requires
        forall|i: int| 0 <= i < s.len() ==> s[i] != 0x25u8,
    ensures
        spec_percent_decode(s) == Some(s),
    decreases s.len(),
{
    if s.len() > 0 {
        let t = s.subrange(1, s.len() as int);
        assert forall|i: int| 0 <= i < t.len() implies t[i] != 0x25u8 by {
            assert(t[i] == s[i + 1]);
        }
        lemma_percent_decode_plain(t);
        assert(seq![s[0]] + t =~= s);
    }
}

} // verus!
