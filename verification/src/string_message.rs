//! `String` as a message: bincode frames it for `Binary`, serde_json quotes
//! it for `Json`.

use vstd::prelude::*;
use vstd::utf8::decode_utf8;
use vstd::utf8::encode_utf8;
use vstd::utf8::valid_utf8;
use crate::common::SerializableMessage;
use crate::common::decodes_bytes;
use crate::common::decodes_json;
use crate::common::encodes_json;
use crate::common::encodes_bytes;

verus! {

/// The eight little-endian bytes of `n`.
pub open spec fn u64_le_bytes(n: u64) -> Seq<u8> {
    seq![
        (n & 0xff) as u8,
        ((n >> 8u64) & 0xff) as u8,
        ((n >> 16u64) & 0xff) as u8,
        ((n >> 24u64) & 0xff) as u8,
        ((n >> 32u64) & 0xff) as u8,
        ((n >> 40u64) & 0xff) as u8,
        ((n >> 48u64) & 0xff) as u8,
        ((n >> 56u64) & 0xff) as u8,
    ]
}

/// The number that the first eight bytes of `b` stand for, little-endian.
pub open spec fn u64_from_le(b: Seq<u8>) -> int {
    b[0] + b[1] * 0x100 + b[2] * 0x1_0000 + b[3] * 0x100_0000 + b[4] * 0x1_0000_0000 + b[5]
        * 0x100_0000_0000 + b[6] * 0x1_0000_0000_0000 + b[7] * 0x100_0000_0000_0000
}

/// A string as bincode writes it: its UTF-8 length as eight little-endian
/// bytes, then its UTF-8 bytes.
pub open spec fn bincode_string(s: Seq<char>) -> Seq<u8> {
    u64_le_bytes(encode_utf8(s).len() as u64) + encode_utf8(s)
}

/// The string bincode reads from `b`: a length of eight little-endian bytes,
/// then that many bytes of UTF-8. Anything after them is left unread.
pub open spec fn bincode_string_decode(b: Seq<u8>) -> Option<Seq<char>> {
    if b.len() < 8 {
        None
    } else {
        let n = u64_from_le(b);
        if b.len() - 8 < n {
            None
        } else {
            let body = b.subrange(8, 8 + n);
            if valid_utf8(body) {
                Some(decode_utf8(body))
            } else {
                None
            }
        }
    }
}

/// A lower-case hexadecimal digit.
pub open spec fn hex_digit(d: u32) -> char {
    if d < 10 {
        ('0' as u32 + d) as char
    } else {
        ('a' as u32 + d - 10) as char
    }
}

/// How serde_json writes `c` inside a string.
pub open spec fn json_escape_char(c: char) -> Seq<char> {
    if c == '"' {
        seq!['\\', '"']
    } else if c == '\\' {
        seq!['\\', '\\']
    } else if c == '\u{8}' {
        seq!['\\', 'b']
    } else if c == '\t' {
        seq!['\\', 't']
    } else if c == '\n' {
        seq!['\\', 'n']
    } else if c == '\u{c}' {
        seq!['\\', 'f']
    } else if c == '\r' {
        seq!['\\', 'r']
    } else if (c as u32) < 0x20 {
        seq!['\\', 'u', '0', '0', hex_digit((c as u32) / 16), hex_digit((c as u32) % 16)]
    } else {
        seq![c]
    }
}

/// The characters of `s`, each as serde_json writes it inside a string.
pub open spec fn json_escape(s: Seq<char>) -> Seq<char>
    decreases s.len(),
{
    if s.len() == 0 {
        Seq::empty()
    } else {
        json_escape_char(s[0]) + json_escape(s.drop_first())
    }
}

/// A string as serde_json writes it: quoted, with its characters escaped.
pub open spec fn json_string(s: Seq<char>) -> Seq<char> {
    seq!['"'] + json_escape(s) + seq!['"']
}

/// The string serde_json parses from the JSON text `json`, if it holds one.
pub uninterp spec fn json_parse_string(json: Seq<char>) -> Option<Seq<char>>;

/// bincode's error.
#[verifier::external_type_specification]
#[verifier::external_body]
pub struct ExBincodeErrorKind(bincode::ErrorKind);

/// serde_json's error.
#[verifier::external_type_specification]
#[verifier::external_body]
pub struct ExJsonError(serde_json::Error);

/// `bincode::serialize` of a string. With bincode's default options a string
/// is its length as a little-endian `u64`, then its UTF-8 bytes, and writing
/// it into a `Vec` does not fail.
#[verifier::external_body]
fn bincode_serialize_string(s: &String) -> (r: Result<Vec<u8>, Box<bincode::ErrorKind>>)
    ensures
        r is Ok,
        r->Ok_0@ == bincode_string(s@),
{
    bincode::serialize(s)
}

/// `bincode::deserialize` of a string: a little-endian `u64` length, then
/// that many bytes that must be valid UTF-8; trailing bytes are allowed by
/// bincode's default options.
#[verifier::external_body]
fn bincode_deserialize_string(b: &[u8]) -> (r: Result<String, Box<bincode::ErrorKind>>)
    ensures
        r is Ok <==> bincode_string_decode(b@) is Some,
        r matches Ok(s) ==> bincode_string_decode(b@) == Some(s@),
{
    bincode::deserialize(b)
}

/// `serde_json::to_string` of a string: quoted, with `"`, `\` and the control
/// characters escaped, into a `Vec`, which does not fail.
#[verifier::external_body]
fn json_serialize_string(s: &String) -> (r: Result<String, serde_json::Error>)
    ensures
        r is Ok,
        r->Ok_0@ == json_string(s@),
{
    serde_json::to_string(s)
}

/// `serde_json::from_str` of a string. Its grammar is serde_json's; the
/// result is named, not spelled out. One fact of it is stated: the text
/// serde_json writes for a string (quoted, with `"`, `\`, `\b`, `\f`, `\n`,
/// `\r`, `\t` and `\u00XX` escapes, nothing after the closing quote) parses
/// back to that string, as its escape parser reads each of those escapes.
#[verifier::external_body]
fn json_deserialize_string(json: &str) -> (r: Result<String, serde_json::Error>)
    ensures
        r is Ok <==> json_parse_string(json@) is Some,
        r matches Ok(s) ==> json_parse_string(json@) == Some(s@),
        forall|s: Seq<char>| #![trigger json_string(s)] json_string(s) == json@ ==> (r is Ok && r->Ok_0@ == s),
{
    serde_json::from_str(json)
}

impl SerializableMessage for String {
    fn to_bytes(&self) -> (r: Result<Vec<u8>, ()>)
        ensures
            r matches Ok(b) && b@ == bincode_string(self@),
    {
        match bincode_serialize_string(self) {
            Ok(b) => Ok(b),
            Err(_) => Err(()),
        }
    }

    fn from_bytes(bytes: &[u8]) -> (r: Result<String, ()>)
        ensures
            match r {
                Ok(s) => bincode_string_decode(bytes@) == Some(s@),
                Err(_) => bincode_string_decode(bytes@) is None,
            },
    {
        match bincode_deserialize_string(bytes) {
            Ok(s) => Ok(s),
            Err(_) => Err(()),
        }
    }

    fn to_json(&self) -> (r: Result<String, ()>)
        ensures
            r matches Ok(j) && j@ == json_string(self@),
    {
        match json_serialize_string(self) {
            Ok(j) => Ok(j),
            Err(_) => Err(()),
        }
    }

    fn from_json(json: &str) -> (r: Result<String, ()>)
        ensures
            match r {
                Ok(s) => json_parse_string(json@) == Some(s@),
                Err(_) => json_parse_string(json@) is None,
            },
            forall|s: Seq<char>| #![trigger json_string(s)] json_string(s) == json@ ==> (r is Ok && r->Ok_0@ == s),
    {
        match json_deserialize_string(json) {
            Ok(s) => Ok(s),
            Err(_) => Err(()),
        }
    }
}

/// A string message sent as JSON is read back as the same string.
pub proof fn lemma_string_json_round_trip(s: String, j: String, d: Result<String, ()>)
    requires
        encodes_json(s, Ok(j)),
        decodes_json(j@, d),
    ensures
        d is Ok,
        d->Ok_0@ == s@,
{
    assert(json_string(s@) == j@);
}

/// Reading back the little-endian bytes of a number gives the number.
pub proof fn lemma_u64_le_roundtrip(n: u64)
    ensures
        u64_from_le(u64_le_bytes(n)) == n,
{
    assert((n & 0xff) + ((n >> 8u64) & 0xff) * 0x100 + ((n >> 16u64) & 0xff) * 0x1_0000 + ((n
        >> 24u64) & 0xff) * 0x100_0000 + ((n >> 32u64) & 0xff) * 0x1_0000_0000 + ((n >> 40u64)
        & 0xff) * 0x100_0000_0000 + ((n >> 48u64) & 0xff) * 0x1_0000_0000_0000 + ((n >> 56u64)
        & 0xff) * 0x100_0000_0000_0000 == n) by (bit_vector);
    assert((n & 0xff) as u8 == (n & 0xff) && ((n >> 8u64) & 0xff) as u8 == ((n >> 8u64) & 0xff)
        && ((n >> 16u64) & 0xff) as u8 == ((n >> 16u64) & 0xff) && ((n >> 24u64) & 0xff) as u8
        == ((n >> 24u64) & 0xff) && ((n >> 32u64) & 0xff) as u8 == ((n >> 32u64) & 0xff) && ((n
        >> 40u64) & 0xff) as u8 == ((n >> 40u64) & 0xff) && ((n >> 48u64) & 0xff) as u8 == ((n
        >> 48u64) & 0xff) && ((n >> 56u64) & 0xff) as u8 == ((n >> 56u64) & 0xff))
        by (bit_vector);
}

/// What `to_bytes` can give for a string is its bincode frame, and what
/// `from_bytes` can give for bytes is the string bincode reads from them.
pub proof fn lemma_string_codec(s: String, r: Result<Vec<u8>, ()>, b: Seq<u8>, d: Result<String, ()>)
    ensures
        encodes_bytes(s, r) ==> (r is Ok && r->Ok_0@ == bincode_string(s@)),
        decodes_bytes(b, d) ==> (d is Ok <==> bincode_string_decode(b) is Some),
        decodes_bytes(b, d) ==> (d is Ok ==> bincode_string_decode(b) == Some(d->Ok_0@)),
{
}

/// A string message sent in binary is read back as the same string.
pub proof fn lemma_string_message_round_trip(s: String, b: Vec<u8>, d: Result<String, ()>)
    requires
        encodes_bytes(s, Ok(b)),
        decodes_bytes(b@, d),
        encode_utf8(s@).len() <= u64::MAX,
    ensures
        d is Ok,
        d->Ok_0@ == s@,
{
    lemma_string_codec(s, Ok(b), b@, d);
    lemma_bincode_string_roundtrip(s@);
}

/// A string that a message was framed from in binary is what reading the
/// frame gives back.
pub proof fn lemma_bincode_string_roundtrip(s: Seq<char>)
    requires
        encode_utf8(s).len() <= u64::MAX,
    ensures
        bincode_string_decode(bincode_string(s)) == Some(s),
{
    let body = encode_utf8(s);
    let b = bincode_string(s);
    lemma_u64_le_roundtrip(body.len() as u64);
    assert(b.subrange(0, 8) =~= u64_le_bytes(body.len() as u64));
    assert(u64_from_le(b) == u64_from_le(u64_le_bytes(body.len() as u64)));
    assert(b.subrange(8, 8 + body.len() as int) =~= body);
    vstd::utf8::encode_utf8_valid_utf8(s);
    vstd::utf8::encode_utf8_decode_utf8(s);
}

} // verus!

