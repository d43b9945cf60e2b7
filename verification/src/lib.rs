//! Verified core of a small HTTP benchmark target: configuration checks,
//! the random source behind the payload endpoints, the request planning
//! of those endpoints, and the in-memory statistics they feed.

pub mod config;
pub mod keys;
pub mod latency;
pub mod order;
pub mod payload;
pub mod stats;
pub mod tables;
pub mod random_source;
pub mod report;
pub mod tally;
pub mod text;
pub mod timeline;
