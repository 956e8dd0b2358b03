//! The cache layer: persisting a built generator between invocations.
//!
//! A generator is serialized to its canonical byte format and compressed;
//! reloading decompresses and deserializes, re-checking every invariant.
//! Any failure on the way in is a cache miss — the caller rebuilds — never
//! a request failure.  The caching policy itself is decided here; reading
//! and writing the cache file is the embedding program's part.

use vstd::prelude::*;

use crate::codec::{
    deserialize_generator, enc_generator, serialize_generator, sized_generator,
};
use crate::generator::Generator;

verus! {

/// The compression level the cache artifact is written with.
pub const CACHE_COMPRESSION_LEVEL: i32 = 3;

/// What a compressed frame holds: the exact byte string its decompression
/// yields, or nothing for an invalid frame.  A fixed function of the frame
/// bytes alone.
pub uninterp spec fn zstd_content(frame: Seq<u8>) -> Option<Seq<u8>>;

/// The frame compression produces for given bytes at a given level: a
/// fixed function of the two alone.
pub uninterp spec fn zstd_frame_of(data: Seq<u8>, level: int) -> Seq<u8>;

/// Relies on `zstd::stream::encode_all`: on in-memory bytes at a standard
/// compression level it cannot fail — it reads from a slice, writes to a
/// vector, and every input is compressible — it is deterministic in the
/// input and level, and it is lossless, so the frame it produces
/// decompresses to exactly the input.
#[verifier::external_body]
fn zstd_compress(data: &Vec<u8>, level: i32) -> (r: Vec<u8>)
    requires
        1 <= level <= 19,
    ensures
        r@ == zstd_frame_of(data@, level as int),
        zstd_content(r@) == Some(data@),
{
    zstd::stream::encode_all(data.as_slice(), level).expect(
        "compressing in-memory bytes at a standard level cannot fail",
    )
}

/// Relies on `zstd::stream::decode_all`: it yields the decompressed
/// content of a valid frame and fails exactly on the rest.
#[verifier::external_body]
fn zstd_decompress(frame: &Vec<u8>) -> (r: Option<Vec<u8>>)
    ensures
        r matches Some(d) ==> zstd_content(frame@) == Some(d@),
        zstd_content(frame@) is Some ==> r is Some,
{
    zstd::stream::decode_all(frame.as_slice()).ok()
}

/// Why a cache artifact was rejected.
#[derive(Debug, Clone, Copy, PartialEq, Eq, Structural)]
pub enum CacheError {
    /// The artifact's bytes are not a valid compressed frame.
    Decompression,
    /// The decompressed bytes do not describe a well-formed generator.
    Deserialization,
}

/// How one invocation treats the cache.
#[derive(Debug, Clone, Copy, PartialEq, Eq, Structural)]
pub enum CachePlan {
    /// Never read or write the cache: build from the corpus only.
    Bypass,
    /// Build from the corpus and overwrite the cache, without reading it.
    Rebuild,
    /// Try the cache first; on any failure build and store.
    TryLoad,
}

/// Decides how an invocation treats the cache.  `no_cache` wins over
/// `rebuild_cache`; with neither flag the cache is tried first.  Under
/// `Bypass` no cache read or write happens at all.
pub fn cache_plan(no_cache: bool, rebuild_cache: bool) -> (r: CachePlan)
    ensures
        no_cache ==> r == CachePlan::Bypass,
        !no_cache && rebuild_cache ==> r == CachePlan::Rebuild,
        !no_cache && !rebuild_cache ==> r == CachePlan::TryLoad,
{
    if no_cache {
        CachePlan::Bypass
    } else if rebuild_cache {
        CachePlan::Rebuild
    } else {
        CachePlan::TryLoad
    }
}

/// Packs a generator into the cache artifact format: canonical bytes,
/// compressed.  The artifact always holds exactly the generator's
/// canonical encoding.
pub fn encode_cached(g: &Generator) -> (r: Vec<u8>)
    ensures
        zstd_content(r@) == Some(enc_generator(g@)),
        sized_generator(g@),
{
    let bytes = serialize_generator(g);
    zstd_compress(&bytes, CACHE_COMPRESSION_LEVEL)
}

/// Unpacks a cache artifact.  Fed an artifact that `encode_cached` made of
/// any well-formed generator, it returns a generator with the same
/// content; a corrupt frame or alien payload is reported as the matching
/// error, for the caller to treat as a cache miss.
pub fn decode_cached(frame: &Vec<u8>) -> (r: Result<Generator, CacheError>)
    ensures
        r matches Ok(g) ==> g.wf(),
        r == Err::<Generator, CacheError>(CacheError::Decompression) <==> zstd_content(frame@)
            is None,
        forall|g: Generator|
            g.wf() && sized_generator(g@) && zstd_content(frame@) == Some(
                #[trigger] enc_generator(g@),
            ) ==> (r matches Ok(g2) && g2@ == g@),
{
    let bytes = match zstd_decompress(frame) {
        Some(b) => b,
        None => {
            return Err(CacheError::Decompression);
        },
    };
    match deserialize_generator(&bytes) {
        Some(g) => Ok(g),
        None => Err(CacheError::Deserialization),
    }
}

} // verus!
