//! Feed deduplication and persisted-state tracking.
//!
//! The engine decides, per feed and across process restarts, which freshly
//! fetched items have not been delivered before.  It keeps one watermark per
//! feed (the publication time of the most recent item ever accepted), filters
//! each batch against it, and persists the watermarks in a small JSON state
//! file only when something actually changed.

pub mod codec;
pub mod dates;
pub mod dec;
pub mod feed;
pub mod feed_state;
pub mod item;
