//! Procedural secret and word generation, centred on a verified
//! Markov-chain word generator.
//!
//! A `Generator` is trained on a corpus of words and produces novel,
//! pronounceable-looking strings by sampling successive symbols conditioned
//! on the preceding context, with multi-order backoff.  A built generator
//! can be encoded to a canonical byte format for caching and decoded back;
//! the decoder provably inverts the encoder.

pub mod symbol;
pub mod table;
pub mod random;
pub mod model;
pub mod text;
pub mod generator;
pub mod codec;
pub mod checksum;
pub mod cache;
pub mod corpus;
pub mod wordlist;
pub mod encoding;
pub mod generators;
pub mod config;
pub mod generate;
pub mod visualize;
