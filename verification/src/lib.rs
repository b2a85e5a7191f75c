//! Feed subscriptions: a durable name-to-address store, the filtering of fetched
//! feed items by recency and name, and a calendar-day throttle between runs.
//!
//! Everything here computes on plain values. Reading and writing files, fetching
//! feeds and keeping the time of the last run are left to the caller, who hands
//! in what was read and carries out what is handed back.

pub mod text;
pub mod error;
pub mod format;
pub mod store;
pub mod time;
pub mod feed;
pub mod throttle;
pub mod command;
