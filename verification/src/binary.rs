use vstd::prelude::*;

verus! {

/// The value of four bytes read as a little-endian `u32`.
pub open spec fn le_u32(b: Seq<u8>) -> int {
    b[0] as int + b[1] as int * 256 + b[2] as int * 65536 + b[3] as int * 16777216
}

/// Decodes a little-endian `u32` with the binary decoder.
///
/// Calls `serde_binary::from_slice::<u32>` with `Endian::Little`. On four
/// bytes the decoder reads them all and succeeds, giving their
/// little-endian value. A decoder error would become a decode error carrying
/// the decoder's message.
#[verifier::external_body]
pub(crate) fn decode_u32(bytes: &[u8]) -> (r: Result<u32, crate::error::Error>)
    requires
        bytes@.len() == 4,
    ensures
        r is Ok,
        r matches Ok(v) ==> v == le_u32(bytes@),
{
    match serde_binary::from_slice::<u32>(bytes, serde_binary::binary_stream::Endian::Little) {
        Ok(v) => Ok(v),
        Err(e) => Err(crate::error::Error::Binary { msg: e.to_string() }),
    }
}

/// Decodes a length-prefixed string with the binary decoder.
///
/// Calls `serde_binary::from_slice::<String>` with `Endian::Little`: the
/// decoder reads a `u32` length, that many bytes, and converts them with
/// `String::from_utf8`. When the slice holds exactly the prefix and the
/// bytes, it succeeds exactly when the bytes are valid UTF-8, and gives the
/// characters they encode. A decoder error becomes a decode error carrying
/// the decoder's message (its `Display` text); that text is not stated.
#[verifier::external_body]
pub(crate) fn decode_string(bytes: &[u8]) -> (r: Result<String, crate::error::Error>)
    requires
        bytes@.len() >= 4,
        bytes@.len() == 4 + le_u32(bytes@.subrange(0, 4)),
    ensures
        (r is Ok) == vstd::utf8::valid_utf8(bytes@.skip(4)),
        r matches Ok(s) ==> s@ == vstd::utf8::decode_utf8(bytes@.skip(4)),
        r matches Err(e) ==> e is Binary,
{
    match serde_binary::from_slice::<String>(bytes, serde_binary::binary_stream::Endian::Little) {
        Ok(s) => Ok(s),
        Err(e) => Err(crate::error::Error::Binary { msg: e.to_string() }),
    }
}

} // verus!
