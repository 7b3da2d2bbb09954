//! Numeric configuration of the tracker.

use vstd::prelude::*;

verus! {

/// Most tracker channels allowed per guild.
pub const CHANNEL_LIMIT: usize = 5;

/// Most watched targets allowed per channel.
pub const TARGET_LIMIT: usize = 100;

/// Most watched games allowed per channel.
pub const GAME_LIMIT: usize = 100;

/// Longest description one embed may carry.
pub const DESCRIPTION_MAX_LENGTH: usize = 4096;

/// Longest total text one embed message may carry.
pub const EMBED_MAX_LENGTH: usize = 6000;

/// Deadline for a name lookup before the fallback is returned, in milliseconds.
pub const NAME_TIMEOUT_MS: u64 = 2000;

/// How long name lookups are gathered into one batch, in milliseconds.
pub const NAME_BATCHING_TIME_MS: u64 = 100;

/// How long thumbnail lookups are gathered into one batch, in milliseconds.
pub const THUMBNAIL_BATCHING_TIME_MS: u64 = 100;

/// Shortest time one update cycle may take, in milliseconds.
pub const MIN_UPDATE_DELAY_MS: u64 = 1000;

/// Shortest time one tracking cycle may take, in milliseconds.
pub const MIN_TRACKING_DELAY_MS: u64 = 1000;

/// Most games scanned concurrently by the tracking cycle.
pub const MAX_TRACKING_TASKS: usize = 3;

/// How many consecutive cycles a known target may go unseen before its
/// last-known location is evicted.
pub const MISSING_TARGET_TOLERANCE: usize = 3;

/// Embed accent colour for success messages (RGB).
pub const SUCCESS_COLOR: u32 = 0x28A745;

/// Embed accent colour for failure messages (RGB).
pub const FAILURE_COLOR: u32 = 0xE74C3C;

/// Embed accent colour for informational messages (RGB).
pub const INFO_COLOR: u32 = 0x237FEB;

} // verus!
