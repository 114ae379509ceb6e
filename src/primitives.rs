//! The calls this library makes into outside code, each with the contract it
//! relies on.
use vstd::prelude::*;
use vstd::utf8::*;
use std::io::Read;
use std::io::Write;

verus! {

/// The SHA-1 digest of a byte sequence.
pub uninterp spec fn sha1_of(s: Seq<u8>) -> Seq<u8>;

/// What zlib-inflating the stream at the front of a buffer gives: the
/// inflated bytes and how many bytes of the buffer follow the stream.
pub uninterp spec fn zlib_decoded(s: Seq<u8>) -> Option<(Seq<u8>, nat)>;

/// The zlib stream produced for a byte sequence at the default level.
pub uninterp spec fn zlib_encoded(s: Seq<u8>) -> Seq<u8>;

/// Relies on sha1::Sha1::digest (via digest::Digest): a 20-byte digest that
/// depends on the input bytes alone.
#[verifier::external_body]
pub(crate) fn sha1_digest(data: &[u8]) -> (r: Vec<u8>)
    ensures
        r@ == sha1_of(data@),
        r@.len() == 20,
{
    <sha1::Sha1 as sha1::Digest>::digest(data).to_vec()
}

/// Relies on flate2::bufread::ZlibDecoder reading one zlib stream to its end:
/// the decoder consumes from the slice only the bytes of that stream.
#[verifier::external_body]
pub(crate) fn zlib_inflate(data: &[u8]) -> (r: Option<(Vec<u8>, usize)>)
    ensures
        match r {
            Some((out, rest)) => zlib_decoded(data@) == Some((out@, rest as nat)) && rest
                <= data@.len(),
            None => zlib_decoded(data@) is None,
        },
{
    let mut decoder = flate2::bufread::ZlibDecoder::new(data);
    let mut out: Vec<u8> = Vec::new();
    match decoder.read_to_end(&mut out) {
        Ok(_) => Some((out, decoder.into_inner().len())),
        Err(_) => None,
    }
}

/// Relies on flate2::write::ZlibEncoder at the default level writing into a
/// `Vec`, which has no failing path: its output is one complete zlib stream
/// that inflates back to the input, whatever bytes follow it.
#[verifier::external_body]
pub(crate) fn zlib_deflate(data: &[u8]) -> (r: Option<Vec<u8>>)
    ensures
        r is Some,
        match r {
            Some(out) => out@ == zlib_encoded(data@) && forall|t: Seq<u8>|
                #[trigger] zlib_decoded(out@ + t) == Some((data@, t.len())),
            None => true,
        },
{
    let mut encoder = flate2::write::ZlibEncoder::new(Vec::new(), flate2::Compression::default());
    match encoder.write_all(data) {
        Ok(()) => encoder.finish().ok(),
        Err(_) => None,
    }
}

/// The lowercase hexadecimal digit for a value below 16.
pub open spec fn hex_digit(v: u8) -> char {
    if v < 10 {
        (('0' as u8) + v) as char
    } else {
        (('a' as u8) + v - 10) as char
    }
}

/// Two lowercase hexadecimal digits per byte, high nibble first.
pub open spec fn hex_text(b: Seq<u8>) -> Seq<char>
    decreases b.len(),
{
    if b.len() == 0 {
        Seq::empty()
    } else {
        seq![hex_digit(b[0] / 16), hex_digit(b[0] % 16)] + hex_text(b.drop_first())
    }
}

/// The value of a hexadecimal digit byte of either case.
pub open spec fn hex_value(c: u8) -> Option<u8> {
    if 48 <= c <= 57 {
        Some((c - 48) as u8)
    } else if 97 <= c <= 102 {
        Some((c - 87) as u8)
    } else if 65 <= c <= 70 {
        Some((c - 55) as u8)
    } else {
        None
    }
}

/// The bytes spelled by pairs of hexadecimal digits, if every byte is one.
pub open spec fn hex_bytes(s: Seq<u8>) -> Option<Seq<u8>>
    decreases s.len(),
{
    if s.len() == 0 {
        Some(Seq::empty())
    } else if s.len() == 1 {
        None
    } else {
        match (hex_value(s[0]), hex_value(s[1]), hex_bytes(s.subrange(2, s.len() as int))) {
            (Some(h), Some(l), Some(rest)) => Some(seq![(h * 16 + l) as u8] + rest),
            _ => None,
        }
    }
}

/// Relies on hex::encode: two lowercase digits per byte, in order.
#[verifier::external_body]
pub(crate) fn hex_encode(b: &[u8]) -> (r: String)
    ensures
        r@ == hex_text(b@),
{
    hex::encode(b)
}

/// Relies on hex::decode: pairs of digits of either case, an error on odd
/// length or any other byte.
#[verifier::external_body]
pub(crate) fn hex_decode(s: &[u8]) -> (r: Option<Vec<u8>>)
    ensures
        match r {
            Some(v) => hex_bytes(s@) == Some(v@),
            None => hex_bytes(s@) is None,
        },
{
    hex::decode(s).ok()
}

/// Relies on String::from_utf8: it succeeds exactly on valid UTF-8 and then
/// holds the decoded characters.
#[verifier::external_body]
pub(crate) fn utf8_string(v: Vec<u8>) -> (r: Option<String>)
    ensures
        match r {
            Some(s) => valid_utf8(v@) && s@ == decode_utf8(v@),
            None => !valid_utf8(v@),
        },
{
    String::from_utf8(v).ok()
}

} // verus!
