//! The calls into outside crates that compress and hash data.
//!
//! Each function here is trusted: Verus believes its contract and does not read
//! its body. The contracts name the results, or state them where the outside
//! crate's documentation does; the library's own logic is verified against
//! them elsewhere.
use sha2::Digest;
use std::io::{Read, Write};
use crate::xxhash64::xxh64_spec;
use vstd::prelude::*;

verus! {

/// `std::io::Error`, carried through unchanged.
#[verifier::external_type_specification]
#[verifier::external_body]
pub struct ExIoError(std::io::Error);

/// What gzip compression (flate2's `GzEncoder`, default level) makes of `data`,
/// or `None` when the encoder reports an error.
pub uninterp spec fn gzip_compressed(data: Seq<u8>) -> Option<Seq<u8>>;

/// What flate2's `GzDecoder` reads out of `data` up to its end, or `None` when
/// it reports an error.
pub uninterp spec fn gzip_decompressed(data: Seq<u8>) -> Option<Seq<u8>>;

/// What `zstd::stream::decode_all` makes of `data`, or `None` on error.
pub uninterp spec fn zstd_decompressed(data: Seq<u8>) -> Option<Seq<u8>>;

/// `xxhash_rust::xxh3::xxh3_64(data)`.
pub uninterp spec fn xxhash_rust_xxh3(data: Seq<u8>) -> u64;

/// The SHA-256 digest that `sha2::Sha256` computes for `data`.
pub uninterp spec fn sha256_digest(data: Seq<u8>) -> Seq<u8>;

/// Compresses `data` with flate2's `GzEncoder` at the default level, writing into
/// a fresh `Vec`. The contract names the output and adds the one fact that the
/// format promises: `GzDecoder` reads the same bytes back out of it.
#[verifier::external_body]
pub(crate) fn gzip_compress(data: &[u8]) -> (r: Result<Vec<u8>, std::io::Error>)
    ensures
        match r {
            Ok(v) => gzip_compressed(data@) == Some(v@),
            Err(_) => gzip_compressed(data@) is None,
        },
        r matches Ok(v) ==> gzip_decompressed(v@) == Some(data@),
{
    let mut encoder = flate2::write::GzEncoder::new(Vec::new(), flate2::Compression::default());
    encoder.write_all(data)?;
    encoder.finish()
}

/// Decompresses a gzip stream with flate2's `GzDecoder` and `read_to_end`.
#[verifier::external_body]
pub(crate) fn gzip_decompress(data: &[u8]) -> (r: Result<Vec<u8>, std::io::Error>)
    ensures
        match r {
            Ok(v) => gzip_decompressed(data@) == Some(v@),
            Err(_) => gzip_decompressed(data@) is None,
        },
{
    let mut out = Vec::new();
    flate2::read::GzDecoder::new(data).read_to_end(&mut out)?;
    Ok(out)
}

/// Decompresses zstd frames with `zstd::stream::decode_all`; an error is handed
/// back as its message text, which the contract leaves unconstrained.
#[verifier::external_body]
pub(crate) fn zstd_decompress(data: &[u8]) -> (r: Result<Vec<u8>, String>)
    ensures
        match r {
            Ok(v) => zstd_decompressed(data@) == Some(v@),
            Err(_) => zstd_decompressed(data@) is None,
        },
{
    zstd::stream::decode_all(data).map_err(|e| e.to_string())
}

/// `xxhash_rust::xxh64::xxh64`: the crate computes XXH64, the algorithm that
/// `xxh64_spec` states (its own tests check the reference vectors), so its
/// result is that specification's value.
#[verifier::external_body]
pub(crate) fn xxh64_external(data: &[u8], seed: u64) -> (h: u64)
    ensures
        h == xxh64_spec(data@, seed),
{
    xxhash_rust::xxh64::xxh64(data, seed)
}

/// `xxhash_rust::xxh3::xxh3_64`.
#[verifier::external_body]
pub(crate) fn xxh3_64(data: &[u8]) -> (h: u64)
    ensures
        h == xxhash_rust_xxh3(data@),
{
    xxhash_rust::xxh3::xxh3_64(data)
}

/// SHA-256 of `data` with `sha2::Sha256` (new, update, finalize); the digest is
/// 32 bytes long.
#[verifier::external_body]
pub(crate) fn sha256(data: &[u8]) -> (d: Vec<u8>)
    ensures
        d@ == sha256_digest(data@),
        d@.len() == 32,
{
    let mut hasher = sha2::Sha256::new();
    hasher.update(data);
    hasher.finalize().to_vec()
}

} // verus!
