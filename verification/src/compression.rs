//! The Zstandard calls that the codecs make. Nothing here is proved: each
//! function states what the outside crate is trusted to do.

use vstd::prelude::*;

verus! {

/// Upper limit on the size of a decompressed payload: 256 MiB.
pub const MAX_PAYLOAD: usize = 268435456;

/// Zstandard level at which payloads are compressed.
pub const ZSTD_LEVEL: i32 = 3;

/// The bytes of an optional buffer.
pub open spec fn opt_bytes(r: Option<Vec<u8>>) -> Option<Seq<u8>> {
    match r {
        Some(v) => Some(v@),
        None => None,
    }
}

/// What ruzstd's streaming decoder yields for the bytes `data` read to the
/// end: the content of the Zstandard frame, or `None` where it reports an error.
pub uninterp spec fn zstd_frame_content(data: Seq<u8>) -> Option<Seq<u8>>;

/// What `zstd::bulk::decompress` yields for `data` under the limit
/// `capacity`: the decompressed bytes, or `None` where it reports an error.
pub uninterp spec fn zstd_bulk_content(data: Seq<u8>, capacity: int) -> Option<Seq<u8>>;

/// What `zstd::bulk::compress` yields for `data` at `level`: the
/// compressed bytes, or `None` where it reports an error.
pub uninterp spec fn zstd_compressed(data: Seq<u8>, level: int) -> Option<Seq<u8>>;

/// Calls `ruzstd::decoding::StreamingDecoder::new` on `data` and reads the
/// decoder to its end. Trusted: the outcome depends on the bytes alone and is
/// named `zstd_frame_content`.
#[verifier::external_body]
pub(crate) fn zstd_decompress(data: &[u8]) -> (r: Option<Vec<u8>>)
    ensures
        match r {
            Some(v) => zstd_frame_content(data@) == Some(v@),
            None => zstd_frame_content(data@).is_none(),
        },
{
    let mut decoder = ruzstd::decoding::StreamingDecoder::new(data).ok()?;
    let mut buf = Vec::new();
    std::io::Read::read_to_end(&mut decoder, &mut buf).ok()?;
    Some(buf)
}

/// Calls `zstd::bulk::decompress`. Trusted: the outcome depends on the
/// arguments alone and is named `zstd_bulk_content`. The capacity is kept
/// to the payload limit, so that the buffer which the call reserves can be
/// asked for.
#[verifier::external_body]
pub(crate) fn zstd_bulk_decompress(data: &[u8], capacity: usize) -> (r: Option<Vec<u8>>)
    requires
        capacity <= MAX_PAYLOAD,
    ensures
        match r {
            Some(v) => zstd_bulk_content(data@, capacity as int) == Some(v@),
            None => zstd_bulk_content(data@, capacity as int).is_none(),
        },
{
    zstd::bulk::decompress(data, capacity).ok()
}

/// Calls `zstd::bulk::compress`. Trusted: the outcome depends on the
/// arguments alone and is named `zstd_compressed`.
#[verifier::external_body]
pub(crate) fn zstd_compress(data: &[u8], level: i32) -> (r: Option<Vec<u8>>)
    ensures
        match r {
            Some(v) => zstd_compressed(data@, level as int) == Some(v@),
            None => zstd_compressed(data@, level as int).is_none(),
        },
{
    zstd::bulk::compress(data, level).ok()
}

} // verus!
