//! Zstandard frames.

use vstd::prelude::*;

verus! {

/// The frame that `zstd::encode_all` makes of `data` at `level`; nothing where it fails.
pub uninterp spec fn zstd_encoded(data: Seq<u8>, level: int) -> Option<Seq<u8>>;

/// The data that `zstd::decode_all` finds in `frame`; nothing where it fails.
pub uninterp spec fn zstd_decoded(frame: Seq<u8>) -> Option<Seq<u8>>;

/// Compression or decompression failed.
#[derive(Clone, Copy, Debug, PartialEq, Eq, Structural)]
pub struct ZstdError;

/// `zstd::encode_all`: what it returns depends on the data and the level alone, and a frame
/// that it returns decodes to the data. That it succeeds is not claimed; memory that runs out is
/// left out of account.
#[verifier::external_body]
pub(crate) fn zstd_encode(data: &[u8], level: i32) -> (res: Result<Vec<u8>, ZstdError>)
    ensures
        match res {
            Ok(frame) => zstd_encoded(data@, level as int) == Some(frame@) && zstd_decoded(frame@)
                == Some(data@),
            Err(_) => zstd_encoded(data@, level as int) == None::<Seq<u8>>,
        },
{
    zstd::encode_all(data, level).map_err(|_| ZstdError)
}

/// `zstd::decode_all`: what it returns depends on the bytes alone; memory that runs out is left
/// out of account.
#[verifier::external_body]
pub(crate) fn zstd_decode(frame: &[u8]) -> (res: Result<Vec<u8>, ZstdError>)
    ensures
        match res {
            Ok(data) => zstd_decoded(frame@) == Some(data@),
            Err(_) => zstd_decoded(frame@) == None::<Seq<u8>>,
        },
{
    zstd::decode_all(frame).map_err(|_| ZstdError)
}

} // verus!
