//! What data goes through on its way out, and back on its way in.

use vstd::prelude::*;
use crate::bytes;
use crate::compression;
use crate::crypto;
use crate::crypto::{CryptoError, KeyContext};

verus! {

/// What goes wrong on the way.
#[derive(Clone, Copy, Debug, PartialEq, Eq, Structural)]
pub enum PipelineError {
    CompressionFailed,
    DecompressionFailed,
    Crypto(CryptoError),
}

/// A way out and back: whatever comes out of `process` comes back from `reverse`.
pub trait DataPipeline {
    /// What `reverse` makes of `data`.
    spec fn reversed(&self, data: Seq<u8>) -> Result<Seq<u8>, PipelineError>;

    /// The way out.
    fn process(&self, data: &[u8]) -> (res: Result<Vec<u8>, PipelineError>)
        ensures
            res matches Ok(out) ==> self.reversed(out@) == Ok::<Seq<u8>, PipelineError>(data@),
    ;

    /// The way back.
    fn reverse(&self, data: &[u8]) -> (res: Result<Vec<u8>, PipelineError>)
        ensures
            match res {
                Ok(out) => self.reversed(data@) == Ok::<Seq<u8>, PipelineError>(out@),
                Err(e) => self.reversed(data@) == Err::<Seq<u8>, PipelineError>(e),
            },
    ;
}

/// Data goes through as it is.
pub struct PlainPipeline;

impl DataPipeline for PlainPipeline {
    open spec fn reversed(&self, data: Seq<u8>) -> Result<Seq<u8>, PipelineError> {
        Ok(data)
    }

    fn process(&self, data: &[u8]) -> (res: Result<Vec<u8>, PipelineError>)
        ensures
            res matches Ok(out) && out@ == data@,
    {
        Ok(bytes::copy_all(data))
    }

    fn reverse(&self, data: &[u8]) -> (res: Result<Vec<u8>, PipelineError>) {
        Ok(bytes::copy_all(data))
    }
}

/// What decompressing gives.
pub open spec fn decompressed(data: Seq<u8>) -> Result<Seq<u8>, PipelineError> {
    match compression::zstd_decoded(data) {
        Some(out) => Ok(out),
        None => Err(PipelineError::DecompressionFailed),
    }
}

fn compress(data: &[u8], level: i32) -> (res: Result<Vec<u8>, PipelineError>)
    ensures
        match res {
            Ok(out) => compression::zstd_encoded(data@, level as int) == Some(out@) && decompressed(
                out@,
            ) == Ok::<Seq<u8>, PipelineError>(data@),
            Err(e) => compression::zstd_encoded(data@, level as int) == None::<Seq<u8>> && e
                == PipelineError::CompressionFailed,
        },
{
    match compression::zstd_encode(data, level) {
        Ok(out) => Ok(out),
        Err(_) => Err(PipelineError::CompressionFailed),
    }
}

fn decompress(data: &[u8]) -> (res: Result<Vec<u8>, PipelineError>)
    ensures
        match res {
            Ok(out) => decompressed(data@) == Ok::<Seq<u8>, PipelineError>(out@),
            Err(e) => decompressed(data@) == Err::<Seq<u8>, PipelineError>(e),
        },
{
    match compression::zstd_decode(data) {
        Ok(out) => Ok(out),
        Err(_) => Err(PipelineError::DecompressionFailed),
    }
}

/// Data is compressed.
pub struct CompressedPipeline {
    compression_level: i32,
}

impl CompressedPipeline {
    pub closed spec fn level(&self) -> i32 {
        self.compression_level
    }

    pub fn new(compression_level: i32) -> (res: Self)
        ensures
            res.level() == compression_level,
    {
        CompressedPipeline { compression_level }
    }
}

impl DataPipeline for CompressedPipeline {
    open spec fn reversed(&self, data: Seq<u8>) -> Result<Seq<u8>, PipelineError> {
        decompressed(data)
    }

    fn process(&self, data: &[u8]) -> (res: Result<Vec<u8>, PipelineError>)
        ensures
            match res {
                Ok(out) => compression::zstd_encoded(data@, self.level() as int) == Some(out@),
                Err(e) => compression::zstd_encoded(data@, self.level() as int) == None::<Seq<u8>>
                    && e == PipelineError::CompressionFailed,
            },
    {
        compress(data, self.compression_level)
    }

    fn reverse(&self, data: &[u8]) -> (res: Result<Vec<u8>, PipelineError>) {
        decompress(data)
    }
}

/// Data is compressed and then encrypted.
pub struct SecurePipeline {
    key: KeyContext,
    compression_level: i32,
}

/// The level of compression where none is given.
pub const DEFAULT_COMPRESSION_LEVEL: i32 = 3;

impl SecurePipeline {
    pub closed spec fn key(&self) -> Seq<u8> {
        self.key@
    }

    pub closed spec fn level(&self) -> i32 {
        self.compression_level
    }

    pub fn new(key: KeyContext, compression_level: i32) -> (res: Self)
        ensures
            res.key() == key@,
            res.level() == compression_level,
    {
        SecurePipeline { key, compression_level }
    }

    pub fn with_default_compression(key: KeyContext) -> (res: Self)
        ensures
            res.key() == key@,
            res.level() == DEFAULT_COMPRESSION_LEVEL,
            res.level() == 3,
    {
        Self::new(key, DEFAULT_COMPRESSION_LEVEL)
    }
}

/// What decrypting and then decompressing gives.
pub open spec fn unsealed(key: Seq<u8>, data: Seq<u8>) -> Result<Seq<u8>, PipelineError> {
    match crypto::decrypted(key, data) {
        Ok(compressed) => decompressed(compressed),
        Err(e) => Err(PipelineError::Crypto(e)),
    }
}

impl DataPipeline for SecurePipeline {
    open spec fn reversed(&self, data: Seq<u8>) -> Result<Seq<u8>, PipelineError> {
        unsealed(self.key(), data)
    }

    fn process(&self, data: &[u8]) -> (res: Result<Vec<u8>, PipelineError>)
        ensures
            match compression::zstd_encoded(data@, self.level() as int) {
                None => res == Err::<Vec<u8>, PipelineError>(PipelineError::CompressionFailed),
                Some(compressed) => match res {
                    Ok(out) => {
                        &&& crypto::encryption_error(compressed.len()) == None::<CryptoError>
                        &&& out@.len() == crypto::NONCE_SIZE + compressed.len() + crypto::TAG_SIZE
                        &&& out@ == crypto::blob_of(
                            self.key(),
                            out@.take(crypto::NONCE_SIZE as int),
                            compressed,
                        )
                    },
                    Err(e) => crypto::encryption_error(compressed.len()) matches Some(cause) && e
                        == PipelineError::Crypto(cause),
                },
            },
    {
        let compressed: Vec<u8> = match compress(data, self.compression_level) {
            Ok(compressed) => compressed,
            Err(e) => {
                return Err(e);
            },
        };
        match crypto::encrypt_chunk(compressed.as_slice(), &self.key) {
            Ok(out) => Ok(out),
            Err(e) => Err(PipelineError::Crypto(e)),
        }
    }

    fn reverse(&self, data: &[u8]) -> (res: Result<Vec<u8>, PipelineError>) {
        match crypto::decrypt_chunk(data, &self.key) {
            Ok(compressed) => decompress(compressed.as_slice()),
            Err(e) => Err(PipelineError::Crypto(e)),
        }
    }
}

/// The way back through the encrypted pipeline: the data is decrypted first and decompressed then,
/// and what goes wrong first is said.
pub proof fn law_way_back(key: Seq<u8>, data: Seq<u8>)
    ensures
        unsealed(key, data) == match crypto::decrypted(key, data) {
            Err(cause) => Err::<Seq<u8>, PipelineError>(PipelineError::Crypto(cause)),
            Ok(frame) => match compression::zstd_decoded(frame) {
                Some(content) => Ok::<Seq<u8>, PipelineError>(content),
                None => Err::<Seq<u8>, PipelineError>(PipelineError::DecompressionFailed),
            },
        },
        decompressed(data) == match compression::zstd_decoded(data) {
            Some(content) => Ok::<Seq<u8>, PipelineError>(content),
            None => Err::<Seq<u8>, PipelineError>(PipelineError::DecompressionFailed),
        },
{
}

/// What each pipeline does on the way back: the plain one nothing, the compressed one decompresses,
/// and the secure one decrypts with its key and then decompresses.
pub proof fn law_pipelines_reverse(
    plain: PlainPipeline,
    compressed: CompressedPipeline,
    secure: SecurePipeline,
    data: Seq<u8>,
)
    ensures
        plain.reversed(data) == Ok::<Seq<u8>, PipelineError>(data),
        compressed.reversed(data) == decompressed(data),
        secure.reversed(data) == unsealed(secure.key(), data),
{
}

} // verus!
