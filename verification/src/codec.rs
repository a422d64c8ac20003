//! The codec turns an opaque payload into a newline-safe textual line and
//! back: base 64 with the standard alphabet and `=` padding, so that one
//! payload occupies exactly one line of a queue's log.

use vstd::prelude::*;

verus! {

/// The base-64 line (as bytes) that the standard-alphabet, padded encoder
/// produces for a payload. The encoding depends on the payload bytes alone.
pub uninterp spec fn b64_of(data: Seq<u8>) -> Seq<u8>;

/// The ASCII line feed byte, which never occurs inside an encoded line.
pub const NEWLINE: u8 = 10;

/// Relies on `base64::engine::general_purpose::STANDARD` and
/// `base64::Engine::encode`: the engine encodes with the standard alphabet
/// (`A`-`Z`, `a`-`z`, `0`-`9`, `+`, `/`) and `=` padding, so the output is a
/// function of the input bytes alone and contains no line feed.
#[verifier::external_body]
fn b64_encode(data: &Vec<u8>) -> (r: Vec<u8>)
    ensures
        r@ == b64_of(data@),
        forall|i: int| 0 <= i < r@.len() ==> r@[i] != NEWLINE,
{
    base64::Engine::encode(&base64::engine::general_purpose::STANDARD, data).into_bytes()
}

/// Relies on `base64::Engine::decode` with the same `STANDARD` engine: its
/// config requires canonical padding and rejects nonzero trailing bits, so it
/// accepts exactly the lines the encoder produces and inverts it on them.
#[verifier::external_body]
fn b64_decode(line: &Vec<u8>) -> (r: Option<Vec<u8>>)
    ensures
        (exists|b: Seq<u8>| line@ == b64_of(b)) ==> r is Some,
        r matches Some(v) ==> line@ == b64_of(v@),
        r matches Some(v) ==> forall|b: Seq<u8>| line@ == b64_of(b) ==> b == v@,
{
    match base64::Engine::decode(&base64::engine::general_purpose::STANDARD, line) {
        Ok(v) => Some(v),
        Err(_) => None,
    }
}

/// Whether a line is the encoding of some payload, i.e. decodes successfully.
pub open spec fn is_encoding(line: Seq<u8>) -> bool {
    exists|b: Seq<u8>| line == b64_of(b)
}

/// Encode a payload as one newline-free line.
pub fn encode(data: &Vec<u8>) -> (r: Vec<u8>)
    ensures
        r@ == b64_of(data@),
        forall|i: int| 0 <= i < r@.len() ==> r@[i] != NEWLINE,
{
    b64_encode(data)
}

/// Decode one line back into a payload; `None` on a malformed line.
pub fn decode(line: &Vec<u8>) -> (r: Option<Vec<u8>>)
    ensures
        is_encoding(line@) <==> r is Some,
        r matches Some(v) ==> line@ == b64_of(v@),
        r matches Some(v) ==> forall|b: Seq<u8>| line@ == b64_of(b) ==> b == v@,
{
    b64_decode(line)
}

/// Every payload survives an encode/decode round trip unchanged, and its
/// encoded form is newline-safe; this is the contract that keeps one payload
/// on one log line across restarts.
pub fn round_trip(data: &Vec<u8>) -> (r: Vec<u8>)
    ensures
        r@ == data@,
{
    let line = encode(data);
    let decoded = decode(&line);
    decoded.unwrap()
}

} // verus!
