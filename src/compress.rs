//! The general-purpose byte-stream compressor that video payloads travel
//! through (zstd).

use vstd::prelude::*;

verus! {

/// What `zstd::encode_all` yields for `data` at compression `level`: the
/// compressed bytes, or `None` where it reports an error.
pub uninterp spec fn zstd_encoded(data: Seq<u8>, level: int) -> Option<Seq<u8>>;

/// What `zstd::decode_all` yields for `data`: the decompressed bytes, or
/// `None` where `data` is not a valid zstd stream.
pub uninterp spec fn zstd_decoded(data: Seq<u8>) -> Option<Seq<u8>>;

/// Relies on `zstd::encode_all`: compresses `data` into one zstd frame, and
/// the result depends on `data` and `level` alone. Lossless: decoding the
/// compressed bytes gives back `data`.
#[verifier::external_body]
pub(crate) fn zstd_encode(data: &[u8], level: i32) -> (r: Option<Vec<u8>>)
    ensures
        match r {
            Some(v) => zstd_encoded(data@, level as int) == Some(v@),
            None => zstd_encoded(data@, level as int) is None,
        },
        r matches Some(v) ==> zstd_decoded(v@) == Some(data@),
{
    zstd::encode_all(data, level).ok()
}

/// Relies on `zstd::decode_all`: decompresses `data`, and the result depends
/// on `data` alone.
#[verifier::external_body]
pub(crate) fn zstd_decode(data: &[u8]) -> (r: Option<Vec<u8>>)
    ensures
        match r {
            Some(v) => zstd_decoded(data@) == Some(v@),
            None => zstd_decoded(data@) is None,
        },
{
    zstd::decode_all(data).ok()
}

} // verus!
