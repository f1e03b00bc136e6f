//! The integers that configure a run, and the rule that makes them valid.

use vstd::prelude::*;

verus! {

/// Why a configuration is rejected.
#[derive(Debug, Clone, Copy, PartialEq, Eq, Structural)]
pub enum ConfigError {
    /// The sentence overlap is not smaller than the chunk size, so the
    /// sliding window would never advance.
    OverlapNotBelowMax,
    /// The batch size is zero.
    ZeroBatchSize,
    /// The number of batches allowed in flight is zero.
    ZeroConcurrency,
}

/// Chunk size used when none is configured.
pub const DEFAULT_MAX_CHUNK_SIZE: usize = 32;

/// Sentence overlap used when none is configured.
pub const DEFAULT_OVERLAP: usize = 8;

/// Batch size used when none is configured.
pub const DEFAULT_BATCH_SIZE: usize = 4;

/// The configuration surface of the pipeline.
#[derive(Debug, Clone, Copy, PartialEq, Eq, Structural)]
pub struct PipelineConfig {
    /// Largest number of sentences in one chunk.
    pub max_chunk_size: usize,
    /// Number of sentences that consecutive chunks share.
    pub overlap: usize,
    /// Largest number of chunks sent to the engine in one call.
    pub batch_size: usize,
    /// Largest number of batches that may be in flight at once.
    pub max_in_flight: usize,
}

impl PipelineConfig {
    /// A configuration is valid when the overlap is below the chunk size
    /// and the other values are at least one.
    pub open spec fn is_valid(&self) -> bool {
        &&& self.overlap < self.max_chunk_size
        &&& self.batch_size >= 1
        &&& self.max_in_flight >= 1
    }

    /// The error that `validate` reports, if any. The overlap is checked
    /// first, then the batch size, then the concurrency bound.
    pub open spec fn first_error(&self) -> Option<ConfigError> {
        if self.overlap >= self.max_chunk_size {
            Some(ConfigError::OverlapNotBelowMax)
        } else if self.batch_size == 0 {
            Some(ConfigError::ZeroBatchSize)
        } else if self.max_in_flight == 0 {
            Some(ConfigError::ZeroConcurrency)
        } else {
            None
        }
    }

    /// The default configuration: chunks of 32 sentences that overlap by
    /// 8, batches of 4, one batch in flight.
    pub fn new() -> (c: PipelineConfig)
        ensures
            c.max_chunk_size == DEFAULT_MAX_CHUNK_SIZE,
            c.overlap == DEFAULT_OVERLAP,
            c.batch_size == DEFAULT_BATCH_SIZE,
            c.max_in_flight == 1,
            c.is_valid(),
    {
        PipelineConfig {
            max_chunk_size: DEFAULT_MAX_CHUNK_SIZE,
            overlap: DEFAULT_OVERLAP,
            batch_size: DEFAULT_BATCH_SIZE,
            max_in_flight: 1,
        }
    }

    /// Checks the configuration once, before any work begins.
    pub fn validate(&self) -> (r: Result<(), ConfigError>)
        ensures
            r is Ok <==> self.is_valid(),
            match r {
                Ok(_) => self.first_error() is None,
                Err(e) => self.first_error() == Some(e),
            },
    {
        if self.overlap >= self.max_chunk_size {
            Err(ConfigError::OverlapNotBelowMax)
        } else if self.batch_size == 0 {
            Err(ConfigError::ZeroBatchSize)
        } else if self.max_in_flight == 0 {
            Err(ConfigError::ZeroConcurrency)
        } else {
            Ok(())
        }
    }
}

} // verus!
