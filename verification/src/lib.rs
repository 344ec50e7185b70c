//! Erasure-coded redundancy for watched directories.
//!
//! Every tracked file is split into fixed-size chunks, each chunk is expanded
//! into `n` data shards plus `m` parity shards over GF(256), and per-shard
//! checksums are kept in durable metadata. Up to `m` lost or corrupt shards
//! per chunk can be rebuilt from the remaining ones. The crate holds the
//! protection pipeline itself: the shard codec, the chunking layer, the
//! metadata bookkeeping, the integrity checker, the repair engine, the
//! debounce rules of the ingestion pipeline, and the status guard that keeps
//! maintenance operations from interleaving. File and network I/O stay with
//! the embedding program, which hands observed bytes in and takes shards and
//! records out.

use vstd::prelude::*;

pub mod checker;
pub mod checksum;
pub mod config;
pub mod ingest;
pub mod chunking;
pub mod codec;
pub mod metadata;
pub mod repair;
pub mod status;

verus! {

/// The error taxonomy of the pipeline.
///
/// `Io` is transient and retried on the next cycle; `ChecksumMismatch`
/// signals corruption and drives repair queueing; `InsufficientShards` marks
/// a chunk unrecoverable; `Config` rejects an invalid shard configuration;
/// `OperationInProgress` rejects a maintenance trigger while another
/// operation is active; `ShardSizeMismatch` rejects shard sets whose present
/// shards do not share one positive length.
#[derive(Clone, Copy, Debug, PartialEq, Eq, Structural)]
pub enum GuardError {
    Io,
    ChecksumMismatch,
    InsufficientShards,
    Config,
    OperationInProgress,
    ShardSizeMismatch,
}

} // verus!
