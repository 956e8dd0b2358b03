//! Serialization, caching and checksums.

use ciphergen::cache::{cache_plan, decode_cached, encode_cached, CacheError, CachePlan};
use ciphergen::codec::{deserialize_generator, deserialize_serialized, serialize_generator};
use ciphergen::generator::Generator;

fn trained() -> Generator {
    let corpus: Vec<String> = vec![
        "alpha".into(),
        "beta".into(),
        "gamma".into(),
        "delta".into(),
    ];
    Generator::new(&corpus, 2, 1, true)
}

#[test]
fn serialization_round_trips() {
    let generator = trained();
    let bytes = serialize_generator(&generator);
    let decoded = deserialize_generator(&bytes).unwrap();
    assert_eq!(decoded, generator);
    let replayed = deserialize_serialized(&generator);
    assert_eq!(replayed, generator);
}

#[test]
fn alien_bytes_are_rejected() {
    assert!(deserialize_generator(&vec![]).is_none());
    assert!(deserialize_generator(&vec![0u8; 7]).is_none());
    assert!(deserialize_generator(&vec![255u8; 64]).is_none());
}

#[test]
fn cache_artifacts_round_trip() {
    // the cache file is absent: loading fails, the generator is rebuilt,
    // stored, and a second load returns an equal generator
    assert_eq!(
        decode_cached(&vec![1u8, 2, 3]).unwrap_err(),
        CacheError::Decompression
    );
    let generator = trained();
    let artifact = encode_cached(&generator);
    let reloaded = decode_cached(&artifact).unwrap();
    assert_eq!(reloaded, generator);
}

#[test]
fn valid_frames_with_alien_payloads_are_deserialization_errors() {
    let junk = zstd::stream::encode_all(&b"not a generator"[..], 3).unwrap();
    assert_eq!(decode_cached(&junk).unwrap_err(), CacheError::Deserialization);
}

#[test]
fn no_cache_bypasses_reads_and_writes() {
    // under the bypass plan no cache file is read or written, whatever
    // exists on disk
    assert_eq!(cache_plan(true, false), CachePlan::Bypass);
    assert_eq!(cache_plan(true, true), CachePlan::Bypass);
    assert_eq!(cache_plan(false, true), CachePlan::Rebuild);
    assert_eq!(cache_plan(false, false), CachePlan::TryLoad);
}

#[test]
fn checksums_are_stable_digests() {
    let generator = trained();
    let first = generator.calculate_checksum();
    let second = generator.calculate_checksum();
    assert_eq!(first.len(), 32);
    assert_eq!(first, second);
    let model_sum = generator.models[0].calculate_checksum();
    assert_eq!(model_sum.len(), 32);
}

#[test]
fn serialization_round_trips_beyond_ascii() {
    let corpus: Vec<String> = vec!["café".into(), "übel".into(), "næve".into()];
    let generator = Generator::new(&corpus, 1, 0, false);
    let bytes = serialize_generator(&generator);
    let decoded = deserialize_generator(&bytes).unwrap();
    assert_eq!(decoded, generator);
    let artifact = encode_cached(&generator);
    assert_eq!(decode_cached(&artifact).unwrap(), generator);
}
