//! Trusted wrappers around the outside crates the pipeline relies on:
//! SHA-1 hashing, zlib compression and decompression, hex encoding, and
//! std's UTF-8 validation.  Each wrapper's contract states what the outside
//! call returns; nothing else in the crate is taken on trust.

use std::io::Read;

use sha1::Digest;
use vstd::prelude::*;
use vstd::utf8::encode_utf8;
use vstd::utf8::valid_utf8;

verus! {

/// The SHA-1 digest of a byte sequence; a function of the bytes alone.
pub uninterp spec fn sha1_of(bytes: Seq<u8>) -> Seq<u8>;

/// The zlib stream produced for a byte sequence at the default compression
/// level; a function of the bytes alone.
pub uninterp spec fn deflate_of(bytes: Seq<u8>) -> Seq<u8>;

/// Whether a byte sequence is a well-formed zlib stream, the ones the
/// decoder inflates; a function of the bytes alone.
pub uninterp spec fn zlib_valid(bytes: Seq<u8>) -> bool;

/// Relies on sha1's `Sha1::digest`: the digest is exactly 20 bytes and
/// depends on the input bytes alone.
#[verifier::external_body]
pub fn sha1_digest(bytes: &[u8]) -> (r: Vec<u8>)
    ensures
        r@ == sha1_of(bytes@),
        r@.len() == 20,
{
    sha1::Sha1::digest(bytes).to_vec()
}

/// Relies on flate2's `ZlibEncoder` over an in-memory buffer at the
/// default compression level: the stream depends on the input bytes
/// alone, and reading from an in-memory buffer through the encoder has no
/// failure path (the underlying reader cannot fail, and the compressor's
/// error arms are unreachable for it).
#[verifier::external_body]
pub fn zlib_compress(bytes: &[u8]) -> (r: Vec<u8>)
    ensures
        r@ == deflate_of(bytes@),
{
    let mut out = Vec::new();
    let mut encoder = flate2::bufread::ZlibEncoder::new(bytes, flate2::Compression::default());
    encoder
        .read_to_end(&mut out)
        .expect("compressing an in-memory buffer does not fail");
    out
}

/// Relies on flate2's `ZlibDecoder`: it succeeds exactly on well-formed
/// zlib streams, and inflating a stream the encoder produced yields
/// exactly the bytes that were compressed; a malformed stream fails with
/// `None`.
#[verifier::external_body]
pub fn zlib_decompress(bytes: &[u8]) -> (r: Option<Vec<u8>>)
    ensures
        r is Some <==> zlib_valid(bytes@),
        (exists|s: Seq<u8>| bytes@ == deflate_of(s)) ==> r is Some,
        r matches Some(d) ==> forall|s: Seq<u8>| bytes@ == deflate_of(s) ==> d@ == s,
{
    let mut out = Vec::new();
    match flate2::bufread::ZlibDecoder::new(bytes).read_to_end(&mut out) {
        Ok(_) => Some(out),
        Err(_) => None,
    }
}

/// Relies on std's `String::from_utf8`: it succeeds exactly on valid UTF-8
/// input and returns the string whose byte encoding is that input.
#[verifier::external_body]
pub fn string_from_utf8(bytes: Vec<u8>) -> (r: Option<String>)
    ensures
        r is Some <==> valid_utf8(bytes@),
        r matches Some(s) ==> encode_utf8(s@) == bytes@,
{
    String::from_utf8(bytes).ok()
}

/// The lowercase hex digit for a value below 16.
pub open spec fn hex_digit_char(n: u8) -> char
    recommends
        n < 16,
{
    if n < 10 {
        (48 + n) as char
    } else {
        (87 + n) as char
    }
}

/// The lowercase hex encoding of a byte sequence: two digits per byte,
/// high nibble first, in order.
pub open spec fn spec_hex_chars(b: Seq<u8>) -> Seq<char> {
    Seq::new(
        2 * b.len(),
        |i: int|
            if i % 2 == 0 {
                hex_digit_char(b[i / 2] / 16)
            } else {
                hex_digit_char(b[i / 2] % 16)
            },
    )
}

/// Relies on hex's `encode`: two lowercase hex digits for each input byte,
/// in input order.
#[verifier::external_body]
pub fn hex_encode(bytes: &[u8]) -> (r: String)
    ensures
        r@ == spec_hex_chars(bytes@),
{
    hex::encode(bytes)
}

} // verus!
