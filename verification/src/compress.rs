//! Packing the name block with zstd.

use vstd::prelude::*;

verus! {

/// The frame that `zstd::encode_all` makes of `data` at the given level.
pub uninterp spec fn zstd_encoded(data: Seq<u8>, level: i32) -> Seq<u8>;

/// The content that `zstd::decode_all` finds in `frames`, if it can read them.
pub uninterp spec fn zstd_decoded(frames: Seq<u8>) -> Option<Seq<u8>>;

/// `zstd::encode_all` on bytes in memory: if it succeeds, the result is the frame for these bytes
/// at this level, which is not empty, and decoding it gives the bytes back. Whether it succeeds
/// rests on the memory that zstd can get, so nothing is said of that; an error comes as its
/// message.
#[verifier::external_body]
pub(crate) fn encode_all(data: &[u8], level: i32) -> (r: Result<Vec<u8>, String>)
    ensures
        r matches Ok(frame) ==> frame@ == zstd_encoded(data@, level),
        r matches Ok(frame) ==> zstd_decoded(frame@) == Some(data@),
        r matches Ok(frame) ==> frame@.len() > 0,
{
    zstd::encode_all(data, level).map_err(|e| e.to_string())
}

/// `zstd::decode_all` on bytes in memory: if it succeeds, the result is the content of these
/// frames. An error comes as its message; besides malformed frames it may stand for a lack of
/// memory, so it says nothing of the bytes.
#[verifier::external_body]
pub(crate) fn decode_all(frames: &[u8]) -> (r: Result<Vec<u8>, String>)
    ensures
        r matches Ok(data) ==> zstd_decoded(frames@) == Some(data@),
{
    zstd::decode_all(frames).map_err(|e| e.to_string())
}

} // verus!
