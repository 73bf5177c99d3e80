//! Hashing, hex text and zlib streams, each backed by an outside crate.

use vstd::prelude::*;

verus! {

/// The SHA-1 digest of a byte string.
pub uninterp spec fn sha1_of(data: Seq<u8>) -> Seq<u8>;

/// Inflating the zlib stream found at the start of `data`: the bytes it
/// decodes to and how many input bytes the stream occupies, or `None` when
/// no valid stream starts there.
pub uninterp spec fn inflate_of(data: Seq<u8>) -> Option<(Seq<u8>, nat)>;

/// Lowercase hex digit of a value below 16.
pub open spec fn hex_digit(n: u8) -> u8 {
    if n < 10 {
        (48 + n) as u8
    } else {
        (87 + n) as u8
    }
}

/// Two lowercase hex digits per byte, high nibble first.
pub open spec fn hex_of(b: Seq<u8>) -> Seq<u8> {
    Seq::new(
        2 * b.len(),
        |i: int|
            if i % 2 == 0 {
                hex_digit(b[i / 2] / 16)
            } else {
                hex_digit(b[i / 2] % 16)
            },
    )
}

/// Value of one hex digit, either case.
pub open spec fn hex_value(c: u8) -> Option<u8> {
    if 48 <= c <= 57 {
        Some((c - 48) as u8)
    } else if 97 <= c <= 102 {
        Some((c - 87) as u8)
    } else if 65 <= c <= 70 {
        Some((c - 55) as u8)
    } else {
        None
    }
}

/// Text made of pairs of hex digits.
pub open spec fn is_hex_text(s: Seq<u8>) -> bool {
    &&& s.len() % 2 == 0
    &&& forall|i: int| 0 <= i < s.len() ==> (#[trigger] hex_value(s[i])).is_some()
}

/// The bytes that hex text spells.
pub open spec fn unhex(s: Seq<u8>) -> Seq<u8> {
    Seq::new(
        s.len() / 2,
        |i: int| (hex_value(s[2 * i]).unwrap() * 16 + hex_value(s[2 * i + 1]).unwrap()) as u8,
    )
}

/// Relies on `sha1::Sha1` through `Digest::digest`: the 20-byte SHA-1 of
/// `data`.
#[verifier::external_body]
pub(crate) fn sha1_digest(data: &[u8]) -> (r: Vec<u8>)
    ensures
        r@ == sha1_of(data@),
        r@.len() == 20,
{
    <sha1::Sha1 as sha1::Digest>::digest(data).to_vec()
}

/// Relies on `hex::encode`: two lowercase digits per byte, high nibble
/// first.
#[verifier::external_body]
pub(crate) fn hex_encode(data: &[u8]) -> (r: Vec<u8>)
    ensures
        r@ == hex_of(data@),
{
    hex::encode(data).into_bytes()
}

/// Relies on `hex::decode`: accepts an even number of hex digits of either
/// case and returns the bytes they spell; fails on anything else.
#[verifier::external_body]
pub(crate) fn hex_decode(text: &[u8]) -> (r: Option<Vec<u8>>)
    ensures
        r.is_some() == is_hex_text(text@),
        r matches Some(v) ==> v@ == unhex(text@),
{
    hex::decode(text).ok()
}

/// Relies on `flate2::read::ZlibDecoder`: `read_to_end` inflates the stream
/// at the start of `data`, and `total_in` counts the input it consumed.
#[verifier::external_body]
pub(crate) fn inflate(data: &[u8]) -> (r: Option<(Vec<u8>, usize)>)
    ensures
        r matches Some((out, used)) ==> inflate_of(data@) == Some((out@, used as nat))
            && used <= data@.len(),
        r is None ==> inflate_of(data@) is None,
{
    let mut decoder = flate2::read::ZlibDecoder::new(data);
    let mut out = Vec::new();
    match std::io::Read::read_to_end(&mut decoder, &mut out) {
        Ok(_) => Some((out, decoder.total_in() as usize)),
        Err(_) => None,
    }
}

/// Relies on `flate2::write::ZlibEncoder` at the default level: zlib is
/// lossless, so inflating its output gives the input back and consumes the
/// whole stream. `write_all` and `finish` fail only where the inner writer
/// does, and writing to a `Vec` never fails.
#[verifier::external_body]
pub(crate) fn deflate(data: &[u8]) -> (r: Option<Vec<u8>>)
    ensures
        r is Some,
        r matches Some(c) ==> inflate_of(c@) == Some((data@, c@.len())),
{
    let mut encoder = flate2::write::ZlibEncoder::new(Vec::new(), flate2::Compression::default());
    match std::io::Write::write_all(&mut encoder, data) {
        Ok(()) => encoder.finish().ok(),
        Err(_) => None,
    }
}

} // verus!
