//! Declarations of the outside types and calls the library goes through.
//!
//! Every item here is trusted: Verus believes its contract and does not read
//! its body.

use vstd::prelude::*;
use vstd::utf8::{decode_utf8, valid_utf8};
use std::io::{Read, Write};

verus! {

/// `std::io::Error` is carried through unchanged; nothing is read from it.
#[verifier::external_type_specification]
#[verifier::external_body]
pub struct ExIoError(std::io::Error);

/// `std::path::PathBuf` is carried through unchanged; nothing is read from it.
#[verifier::external_type_specification]
#[verifier::external_body]
pub struct ExPathBuf(std::path::PathBuf);

/// The digest that `sha1_checked::Sha1` produces for the given bytes
/// (SHA-1 with collision detection; a detected attack yields the mitigated hash).
pub uninterp spec fn sha1_checked_output(data: Seq<u8>) -> [u8; 20];

/// The bytes of the digest of `data`.
pub open spec fn sha1_checked_digest(data: Seq<u8>) -> Seq<u8> {
    sha1_checked_output(data)@
}

/// Hashes `data` with `sha1_checked::Sha1` (`Sha1::new`, `Digest::update`,
/// `Digest::finalize`). Claimed: the 20 digest bytes are the digest of
/// exactly the bytes given.
#[verifier::external_body]
pub(crate) fn sha1_digest(data: &[u8]) -> (r: [u8; 20])
    ensures
        r == sha1_checked_output(data@),
{
    let mut hasher = sha1_checked::Sha1::new();
    sha1_checked::Digest::update(&mut hasher, data);
    sha1_checked::Digest::finalize(hasher).into()
}

/// The lowercase hex digit for a value below 16.
pub open spec fn hex_char(n: u8) -> char {
    if n < 10 {
        (48 + n) as char
    } else {
        (87 + n) as char
    }
}

/// Lowercase hex text of a byte sequence, two digits per byte.
pub open spec fn hex_lower(bytes: Seq<u8>) -> Seq<char>
    decreases bytes.len(),
{
    if bytes.len() == 0 {
        seq![]
    } else {
        seq![hex_char(bytes[0] / 16), hex_char(bytes[0] % 16)] + hex_lower(bytes.drop_first())
    }
}

/// Encodes bytes as hex with `const_hex::encode`. Claimed, as its
/// documentation says: lowercase digits, two per byte, in order.
#[verifier::external_body]
pub(crate) fn hex_encode(data: &[u8]) -> (r: String)
    ensures
        r@ == hex_lower(data@),
{
    const_hex::encode(data)
}

/// The bytes that a `flate2::write::ZlibEncoder` at `Compression::fast()`
/// writing into a `Vec<u8>` produces for the given input, flushed and then
/// finished.
pub uninterp spec fn zlib_fast_compressed(data: Seq<u8>) -> Seq<u8>;

/// What `flate2::read::ZlibDecoder` yields when reading the given bytes to
/// their end, or `None` where it reports an error.
pub uninterp spec fn zlib_inflated(data: Seq<u8>) -> Option<Seq<u8>>;

/// Compresses `data` into a zlib stream with `flate2::write::ZlibEncoder`
/// at `Compression::fast()` over a `Vec<u8>` (`write_all`, `flush`, then
/// `finish`).
/// Claimed: it succeeds (the `Vec` takes every write, and deflating a fresh
/// stream reports no error), the bytes are the named result, and decoding
/// them with `flate2::read::ZlibDecoder` gives the input back.
#[verifier::external_body]
pub(crate) fn zlib_compress(data: &[u8]) -> (r: Result<Vec<u8>, std::io::Error>)
    ensures
        r is Ok,
        r matches Ok(v) ==> v@ == zlib_fast_compressed(data@) && zlib_inflated(v@) == Some(data@),
{
    let mut encoder = flate2::write::ZlibEncoder::new(Vec::new(), flate2::Compression::fast());
    encoder.write_all(data)?;
    encoder.flush()?;
    encoder.finish()
}

/// Decompresses a zlib stream with `flate2::read::ZlibDecoder`, reading it
/// to the end. Claimed: the outcome is the named result.
#[verifier::external_body]
pub(crate) fn zlib_decompress(data: &[u8]) -> (r: Result<Vec<u8>, std::io::Error>)
    ensures
        r is Ok <==> zlib_inflated(data@) is Some,
        r matches Ok(v) ==> zlib_inflated(data@) == Some(v@),
{
    let mut decoder = flate2::read::ZlibDecoder::new(data);
    let mut out = Vec::new();
    decoder.read_to_end(&mut out)?;
    Ok(out)
}

/// What reading at most `n` bytes from a `flate2::read::ZlibDecoder` over
/// the given bytes gives (`Read::take(n)`, then `read_to_end`), or `None`
/// where it reports an error first.
pub uninterp spec fn zlib_inflated_prefix(data: Seq<u8>, n: nat) -> Option<Seq<u8>>;

/// How many bytes of `d` a read of at most `n` bytes takes.
pub open spec fn prefix_len(d: Seq<u8>, n: usize) -> int {
    if n < d.len() { n as int } else { d.len() as int }
}

/// Reads at most `n` inflated bytes from the zlib stream in `data` with
/// `flate2::read::ZlibDecoder`, limited by `Read::take`. Claimed: the
/// outcome is the named result and no more than `n` bytes come back; where
/// reading the whole stream reports no error, neither does this shorter
/// read, and it gives the first `n` bytes of that output (all of it where
/// there are fewer). Where the stream is damaged further on, whether the
/// error shows before `n` bytes are out depends on how far the decoder
/// runs ahead; that is left to the name.
#[verifier::external_body]
pub(crate) fn zlib_decompress_prefix(data: &[u8], n: usize) -> (r: Result<Vec<u8>, std::io::Error>)
    ensures
        r is Ok <==> zlib_inflated_prefix(data@, n as nat) is Some,
        r matches Ok(v) ==> zlib_inflated_prefix(data@, n as nat) == Some(v@) && v.len() <= n,
        r is Err ==> zlib_inflated(data@) is None,
        r matches Ok(v) ==> (zlib_inflated(data@) matches Some(d) ==> v@ == d.take(prefix_len(d, n))),
{
    let mut out = Vec::new();
    flate2::read::ZlibDecoder::new(data).take(n as u64).read_to_end(&mut out)?;
    Ok(out)
}

/// What `flate2::bufread::ZlibDecoder` yields when reading one zlib stream
/// from the front of the given bytes to its end, with the number of input
/// bytes it left unconsumed; `None` where it reports an error.
pub uninterp spec fn zlib_stream_inflated(data: Seq<u8>) -> Option<(Seq<u8>, int)>;

/// Decodes the zlib stream at the front of `data` with
/// `flate2::bufread::ZlibDecoder` over the slice, and returns the decoded
/// bytes and how many input bytes were left after the stream. Claimed: the
/// outcome is the named result, and what is left is a suffix of the input.
#[verifier::external_body]
pub(crate) fn zlib_decompress_stream(data: &[u8]) -> (r: Result<(Vec<u8>, usize), std::io::Error>)
    ensures
        r is Ok <==> zlib_stream_inflated(data@) is Some,
        r matches Ok((v, left)) ==> zlib_stream_inflated(data@) == Some((v@, left as int)) && left
            <= data.len(),
{
    let mut input: &[u8] = data;
    let mut out = Vec::new();
    let mut decoder = flate2::bufread::ZlibDecoder::new(&mut input);
    decoder.read_to_end(&mut out)?;
    drop(decoder);
    Ok((out, input.len()))
}

/// Converts bytes to a `String` with `String::from_utf8`. Claimed, as its
/// documentation says: it succeeds exactly on valid UTF-8, and the text is
/// what those bytes encode.
#[verifier::external_body]
pub(crate) fn string_from_utf8(bytes: Vec<u8>) -> (r: Option<String>)
    ensures
        r is Some <==> valid_utf8(bytes@),
        r matches Some(s) ==> s@ == decode_utf8(bytes@),
{
    String::from_utf8(bytes).ok()
}

/// What `String::from_utf8_lossy` gives for the given bytes.
pub uninterp spec fn utf8_lossy(bytes: Seq<u8>) -> Seq<char>;

/// Converts bytes to text with `String::from_utf8_lossy`, which puts the
/// replacement character in place of each invalid sequence. Claimed: the
/// result is the named one, and, as the documentation says, on valid UTF-8
/// it is the text those bytes encode.
#[verifier::external_body]
pub(crate) fn string_from_utf8_lossy(bytes: &[u8]) -> (r: String)
    ensures
        r@ == utf8_lossy(bytes@),
        valid_utf8(bytes@) ==> r@ == decode_utf8(bytes@),
{
    String::from_utf8_lossy(bytes).into_owned()
}

/// The `Display` text of an I/O error (`ToString::to_string`). Nothing is
/// claimed of the text: it comes from the operating system.
#[verifier::external_body]
pub(crate) fn io_error_text(e: &std::io::Error) -> (r: String) {
    e.to_string()
}

} // verus!
