//! Verified core of a Twitter profile archive: a content-addressed history
//! store over a binary record format, an append-only deactivation log with
//! validation and derived views, and a priority-driven rescrape scheduler.

pub mod codec;
pub mod deactivation;
pub mod profile;
pub mod queue;
pub mod scraper;
pub mod store;
pub mod text;
