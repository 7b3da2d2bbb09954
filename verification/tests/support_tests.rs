use tracker::facade::{assign_usernames, name_or_fallback, scatter_batch_results,
    thumbnail_batch_config, username_batch_config, username_cache_config};
use tracker::ratelimit::{servers_bucket, thumbnails_bucket};
use tracker::retry::{api_error_retryable, discord_retry_strategy, infinite_retry_strategy,
    roblox_retry_strategy, thumbnail_error_retryable, thumbnail_retry_strategy, BatchFailure,
    ThumbnailError, ThumbnailErrorState, UpstreamError};
use tracker::stats::Stats;
use tracker::text::{fallback_name, u64_to_string, uuid_to_string};
use tracker::CommandError;

#[test]
fn number_rendering() {
    assert_eq!(u64_to_string(0), "0");
    assert_eq!(u64_to_string(18446744073709551615), "18446744073709551615");
    assert_eq!(fallback_name(15), "15 (id)");
    assert_eq!(
        uuid_to_string(0x0123_4567_89ab_cdef_0123_4567_89ab_cdef),
        "01234567-89ab-cdef-0123-456789abcdef"
    );
    assert_eq!(uuid_to_string(0), "00000000-0000-0000-0000-000000000000");
}

#[test]
fn name_fallbacks() {
    assert_eq!(name_or_fallback(7, Some(String::from("someone"))), "someone");
    assert_eq!(name_or_fallback(7, None), "7 (id)");
}

#[test]
fn username_batch_assignment_last_answer_wins() {
    let users = vec![1, 2, 3];
    let resolved = Some(vec![
        (1, String::from("first")),
        (1, String::from("second")),
        (3, String::from("third")),
    ]);
    let names = assign_usernames(&users, &resolved);
    assert_eq!(names, vec!["second", "2 (id)", "third"]);
    let failed = assign_usernames(&users, &None);
    assert_eq!(failed, vec!["1 (id)", "2 (id)", "3 (id)"]);
}

#[test]
fn batch_results_scatter_by_requested_position() {
    let placed = scatter_batch_results(3, vec![(2, "c"), (0, "a"), (0, "a2"), (9, "zz")]);
    assert_eq!(placed, vec![Some("a2"), None, Some("c")]);
}

#[test]
fn retry_policies_match_their_schedules() {
    let p = roblox_retry_strategy();
    assert_eq!((p.min_delay_ms, p.max_delay_ms, p.max_attempts, p.jitter), (100, 3000, Some(15), true));
    let p = thumbnail_retry_strategy();
    assert_eq!((p.min_delay_ms, p.max_delay_ms, p.max_attempts, p.jitter), (100, 3000, Some(16), true));
    let p = discord_retry_strategy();
    assert_eq!((p.min_delay_ms, p.max_delay_ms, p.max_attempts, p.jitter), (100, 500, Some(5), true));
    let p = infinite_retry_strategy();
    assert_eq!((p.min_delay_ms, p.max_delay_ms, p.max_attempts, p.jitter), (1000, 1000, None, false));
}

#[test]
fn retry_predicates_classify_errors() {
    assert!(api_error_retryable(&UpstreamError::RateLimit));
    assert!(api_error_retryable(&UpstreamError::Request));
    assert!(!api_error_retryable(&UpstreamError::Semantic));
    assert!(thumbnail_error_retryable(&ThumbnailError::Batch(BatchFailure::BatchFailed(
        UpstreamError::RateLimit
    ))));
    assert!(!thumbnail_error_retryable(&ThumbnailError::Batch(BatchFailure::BatchFailed(
        UpstreamError::Semantic
    ))));
    assert!(!thumbnail_error_retryable(&ThumbnailError::Batch(BatchFailure::Tx)));
    assert!(thumbnail_error_retryable(&ThumbnailError::Thumbnail(
        ThumbnailErrorState::Pending
    )));
    assert!(thumbnail_error_retryable(&ThumbnailError::Thumbnail(
        ThumbnailErrorState::TemporarilyUnavailable
    )));
    assert!(!thumbnail_error_retryable(&ThumbnailError::Thumbnail(
        ThumbnailErrorState::Permanent
    )));
}

#[test]
fn buckets_refill_by_full_intervals() {
    let mut bucket = servers_bucket(0);
    for _ in 0..10 {
        assert!(bucket.try_acquire_one());
    }
    assert!(!bucket.try_acquire_one());
    // Not a full interval yet.
    bucket.refill_now(3499);
    assert!(!bucket.try_acquire_one());
    bucket.refill_now(3500);
    assert!(bucket.try_acquire_one());
    let t = thumbnails_bucket(0);
    assert_eq!((t.capacity, t.refill, t.interval_ms, t.available), (50, 50, 1500, 50));
}

#[test]
fn stats_average_the_last_ten_cycles() {
    let mut stats = Stats::new();
    assert_eq!(stats.secs_per_tracking_cycle(), 0);
    stats.add_tracking_cycle(10);
    stats.add_tracking_cycle(20);
    assert_eq!(stats.secs_per_tracking_cycle(), 15);
    for _ in 0..10 {
        stats.add_tracking_cycle(30);
    }
    // The window holds only the last ten samples.
    assert_eq!(stats.secs_per_tracking_cycle(), 30);
    stats.add_update_cycle(8);
    assert_eq!(stats.secs_per_update_cycle(), 8);
}

#[test]
fn count_memos_expire_after_a_minute() {
    let mut stats = Stats::new();
    assert_eq!(stats.cached_game_count(0), None);
    stats.record_game_count(5, 1000);
    assert_eq!(stats.cached_game_count(1000), Some(5));
    assert_eq!(stats.cached_game_count(60999), Some(5));
    assert_eq!(stats.cached_game_count(61000), None);
    stats.record_target_count(9, 0);
    assert_eq!(stats.cached_target_count(100), Some(9));
}

#[test]
fn command_errors_render_for_users() {
    let e = CommandError::Expected(String::from("no such tracker"));
    assert_eq!(e.user_message(), "no such tracker");
    let e = CommandError::Unexpected(String::from("boom"));
    assert_eq!(
        e.user_message(),
        "This command encountered an unexpected error:\n boom"
    );
}
