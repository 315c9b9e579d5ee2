//! Erasure-coded redundancy for flat byte buffers.
//!
//! A payload is split into `data_shard_count` equal data shards and extended
//! with `parity_shard_count` parity shards, two bytes (one little-endian word)
//! at a time, so that any `data_shard_count` distinct shards suffice to
//! reconstruct the padded payload.  The Reed-Solomon arithmetic itself is done
//! by the `reed_solomon_simd` crate; everything around it - padding, word
//! decomposition, per-chunk sessions, shard-major layout and reconciliation of
//! provided and recovered words - is verified here.

use vstd::prelude::*;

pub mod words;
pub mod model;
pub mod engine;
pub mod encode;
pub mod decode;
pub mod laws;

pub use decode::rs_decode;
pub use encode::rs_encode;

verus! {

/// Why an encode or decode call failed.  `code` gives the stable numeric
/// status used at the foreign boundary.
#[derive(Clone, Copy, Debug, PartialEq, Eq, Structural)]
pub enum CodecError {
    /// An engine session could not be constructed: the shard counts are not
    /// supported by the Reed-Solomon engine.
    Construct,
    /// The engine rejected a word that was fed to it.
    Ingest,
    /// The engine could not compute parity or reconstruct: on decode this
    /// means fewer distinct shards than `data_shard_count` were supplied.
    Compute,
    /// Decode: a word that was neither provided nor restored by the engine.
    Unresolved,
    /// Decode: a restored word whose byte length is not 2.
    WordLength,
    /// Decode: `shard_size` is odd, so shards do not hold whole words.
    OddShardSize,
}

impl CodecError {
    /// The numeric status of this error.
    pub open spec fn spec_code(self) -> int {
        match self {
            CodecError::Construct => 1,
            CodecError::Ingest => 2,
            CodecError::Compute => 3,
            CodecError::Unresolved => 5,
            CodecError::WordLength => 6,
            CodecError::OddShardSize => 97,
        }
    }

    /// The numeric status of this error.
    pub fn code(&self) -> (c: i32)
        ensures
            c as int == self.spec_code(),
    {
        match self {
            CodecError::Construct => 1,
            CodecError::Ingest => 2,
            CodecError::Compute => 3,
            CodecError::Unresolved => 5,
            CodecError::WordLength => 6,
            CodecError::OddShardSize => 97,
        }
    }
}

} // verus!
