//! Retry policies for upstream calls, and the predicates that decide which
//! failures are worth retrying.

use vstd::prelude::*;

verus! {

/// One named backoff schedule: fibonacci-spaced delays between a floor and a
/// ceiling, jittered by the executor, for a bounded number of attempts; a
/// schedule without a bound retries forever.
pub struct RetryPolicy {
    pub min_delay_ms: u64,
    pub max_delay_ms: u64,
    pub max_attempts: Option<u32>,
    pub jitter: bool,
}

/// The schedule for game-platform calls: jittered fibonacci between 100 ms
/// and 3 s, fifteen attempts.
pub fn roblox_retry_strategy() -> (r: RetryPolicy)
    ensures
        r.min_delay_ms == 100 && r.max_delay_ms == 3000 && r.max_attempts == Some(15u32)
            && r.jitter,
{
    RetryPolicy { min_delay_ms: 100, max_delay_ms: 3000, max_attempts: Some(15), jitter: true }
}

/// The schedule for thumbnail lookups: one attempt more than the platform
/// schedule, for the known transient thumbnail states.
pub fn thumbnail_retry_strategy() -> (r: RetryPolicy)
    ensures
        r.min_delay_ms == 100 && r.max_delay_ms == 3000 && r.max_attempts == Some(16u32)
            && r.jitter,
{
    RetryPolicy { min_delay_ms: 100, max_delay_ms: 3000, max_attempts: Some(16), jitter: true }
}

/// The schedule for chat-platform calls: jittered fibonacci between 100 ms
/// and 500 ms, five attempts.
pub fn discord_retry_strategy() -> (r: RetryPolicy)
    ensures
        r.min_delay_ms == 100 && r.max_delay_ms == 500 && r.max_attempts == Some(5u32) && r.jitter,
{
    RetryPolicy { min_delay_ms: 100, max_delay_ms: 500, max_attempts: Some(5), jitter: true }
}

/// The schedule for reads the cycles cannot proceed without: a constant
/// second, forever.
pub fn infinite_retry_strategy() -> (r: RetryPolicy)
    ensures
        r.min_delay_ms == 1000 && r.max_delay_ms == 1000 && r.max_attempts is None && !r.jitter,
{
    RetryPolicy { min_delay_ms: 1000, max_delay_ms: 1000, max_attempts: None, jitter: false }
}

/// An upstream game-platform failure, reduced to the class the retry
/// predicates read: the platform asked for a pause, the transport failed, or
/// the platform answered with a semantic error.
pub enum UpstreamError {
    RateLimit,
    Request,
    Semantic,
}

/// Only rate limits and transport failures are retried; semantic answers are
/// final.
pub fn api_error_retryable(err: &UpstreamError) -> (r: bool)
    ensures
        r == (err is RateLimit || err is Request),
{
    match err {
        UpstreamError::RateLimit => true,
        UpstreamError::Request => true,
        UpstreamError::Semantic => false,
    }
}

/// A failure of a coalesced thumbnail batch, reduced to what the retry
/// predicate reads.
pub enum BatchFailure {
    Tx,
    Rx,
    Rejected,
    BatchFailed(UpstreamError),
    ProcessorInvariantViolation,
    ResourceAcquisitionFailed(UpstreamError),
}

/// The transient states a thumbnail lookup can answer with.
pub enum ThumbnailErrorState {
    TemporarilyUnavailable,
    Pending,
    Permanent,
}

/// Why a thumbnail lookup failed: the whole batch failed, or the platform
/// answered for this input with an error state.
pub enum ThumbnailError {
    Batch(BatchFailure),
    Thumbnail(ThumbnailErrorState),
}

/// A thumbnail lookup is retried when the whole batch failed for a retryable
/// reason, or when the platform reported the thumbnail as pending or
/// temporarily unavailable.
pub fn thumbnail_error_retryable(err: &ThumbnailError) -> (r: bool)
    ensures
        r == match err {
            ThumbnailError::Batch(b) => b matches BatchFailure::BatchFailed(u) && (u is RateLimit
                || u is Request),
            ThumbnailError::Thumbnail(st) => st is TemporarilyUnavailable || st is Pending,
        },
{
    match err {
        ThumbnailError::Batch(b) => match b {
            BatchFailure::BatchFailed(u) => api_error_retryable(u),
            _ => false,
        },
        ThumbnailError::Thumbnail(st) => match st {
            ThumbnailErrorState::TemporarilyUnavailable => true,
            ThumbnailErrorState::Pending => true,
            ThumbnailErrorState::Permanent => false,
        },
    }
}

} // verus!
