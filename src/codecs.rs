//! The outside codecs the format depends on, each behind one trusted item.
//!
//! Every result here is named by an uninterpreted spec function: the name
//! stands for what the outside code computes from the arguments, and the
//! verified logic is stated over it.
use delharc::decode::Decoder;
use vstd::prelude::*;

verus! {

#[verifier::external_type_specification]
#[verifier::external_body]
pub struct ExEncoding(encoding_rs::Encoding);

#[verifier::external_type_specification]
#[verifier::external_body]
pub struct ExLzo(minilzo_rs::LZO);

#[verifier::external_type_specification]
#[verifier::external_body]
pub struct ExLzoError(minilzo_rs::Error);

#[verifier::external_type_specification]
#[verifier::external_body]
pub struct ExIoError(std::io::Error);

#[verifier::external_type_specification]
#[verifier::external_body]
#[verifier::reject_recursive_types(E)]
pub struct ExLhaError<E>(delharc::LhaError<E>);

/// The text that `bytes` decode to under `encoding`, without byte-order-mark
/// handling, and whether malformed sequences were met.
pub uninterp spec fn decoded_text(encoding: encoding_rs::Encoding, bytes: Seq<u8>) -> (
    Seq<char>,
    bool,
);

/// What an LH1 stream yields when `len` bytes are decoded from it, or `None`
/// where the decoder fails.
pub uninterp spec fn lh1_decoded(data: Seq<u8>, len: nat) -> Option<Seq<u8>>;

/// What an LZO1X stream yields when decompressed into `len` bytes, or `None`
/// where the safe decompressor fails.
pub uninterp spec fn lzo_decompressed(data: Seq<u8>, len: nat) -> Option<Seq<u8>>;

/// The CRC-32 (IEEE) checksum of `data`.
pub uninterp spec fn crc32_of(data: Seq<u8>) -> u32;

/// Whether `c` is alphabetic or numeric in Unicode's sense.
pub uninterp spec fn alphanumeric(c: char) -> bool;

/// Whether `c` has Unicode's White_Space property.
pub uninterp spec fn whitespace(c: char) -> bool;

/// Relies on encoding_rs's `Encoding::decode_without_bom_handling`: the text
/// and the error flag depend on the encoding and the bytes alone. It panics
/// where its worst-case output size (at most three bytes per input byte,
/// plus a few) overflows `usize`, which the bound on the input excludes.
#[verifier::external_body]
pub(crate) fn decode_text(encoding: &'static encoding_rs::Encoding, bytes: &[u8]) -> (r: (String, bool))
    requires
        bytes@.len() <= usize::MAX / 4,
    ensures
        (r.0@, r.1) == decoded_text(*encoding, bytes@),
{
    let (text, had_errors) = encoding.decode_without_bom_handling(bytes);
    (text.into_owned(), had_errors)
}

/// Relies on delharc's `Lh1Decoder::fill_buffer`, run on a fresh decoder: it
/// fills the whole buffer or returns an error.
#[verifier::external_body]
pub(crate) fn lh1_decode(data: &[u8], len: usize) -> (r: Result<
    Vec<u8>,
    delharc::LhaError<std::io::Error>,
>)
    ensures
        lh1_decoded(data@, len as nat) == (match r {
            Ok(v) => Some(v@),
            Err(_) => None::<Seq<u8>>,
        }),
        r matches Ok(v) ==> v@.len() == len,
{
    let mut out = vec![0u8; len];
    match delharc::decode::Lh1Decoder::new(data).fill_buffer(&mut out) {
        Ok(()) => Ok(out),
        Err(e) => Err(e),
    }
}

/// Relies on minilzo-rs's `LZO::decompress_safe`: on success it returns a
/// buffer of exactly `len` bytes.
#[verifier::external_body]
pub(crate) fn lzo_decompress(lzo: &minilzo_rs::LZO, data: &[u8], len: usize) -> (r: Result<
    Vec<u8>,
    minilzo_rs::Error,
>)
    ensures
        lzo_decompressed(data@, len as nat) == (match r {
            Ok(v) => Some(v@),
            Err(_) => None::<Seq<u8>>,
        }),
        r matches Ok(v) ==> v@.len() == len,
{
    lzo.decompress_safe(data, len)
}

/// Relies on crc32fast's `hash`: the CRC-32 of the buffer.
#[verifier::external_body]
pub(crate) fn crc32(data: &[u8]) -> (r: u32)
    ensures
        r == crc32_of(data@),
{
    crc32fast::hash(data)
}

/// Relies on std's `char::is_alphanumeric`.
#[verifier::external_body]
pub(crate) fn is_alphanumeric(c: char) -> (r: bool)
    ensures
        r == alphanumeric(c),
{
    c.is_alphanumeric()
}

/// Relies on std's `char::is_whitespace`.
#[verifier::external_body]
pub(crate) fn is_whitespace(c: char) -> (r: bool)
    ensures
        r == whitespace(c),
{
    c.is_whitespace()
}

} // verus!
