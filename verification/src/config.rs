//! Configuration: the watched directory list and the shard counts, validated
//! before any encode runs.

use vstd::prelude::*;
use crate::GuardError;
use crate::codec::RSEncoder;

verus! {

/// What configuration hands the pipeline: the roots under surveillance and
/// the shard configuration `(n, m)`.
#[derive(Debug, Clone)]
pub struct AppConfig {
    /// The watched directory roots.
    pub watched_directories: Vec<String>,
    /// The data shard count `n`.
    pub data_shards: usize,
    /// The parity shard count `m`.
    pub parity_shards: usize,
}

impl AppConfig {
    /// Accepts exactly the shard configurations the codec accepts:
    /// `n >= 1`, `m >= 1` and `n + m <= 256`.
    pub fn validate(&self) -> (r: Result<(), GuardError>)
        ensures
            r is Ok <==> RSEncoder::valid_config(self.data_shards, self.parity_shards),
            r matches Err(e) ==> e == GuardError::Config,
    {
        if self.data_shards >= 1 && self.parity_shards >= 1 && self.data_shards <= 256
            && self.parity_shards <= 256 && self.data_shards + self.parity_shards <= 256 {
            Ok(())
        } else {
            Err(GuardError::Config)
        }
    }
}

} // verus!
