//! Incremental poller core for discovering archival-candidate URLs in a
//! collaborative-editing change log.
//!
//! The library holds the verified logic of one poll cycle: the selection
//! rule of a bounded fetch at a watermark, URL extraction from the two
//! row shapes (structured payloads and free-text notes), the
//! deduplicated persistence of each candidate, and watermark
//! advancement. All input/output around it (the database, the metrics
//! sink, scheduling) lives outside the library and hands it plain
//! values.

pub mod extract;
pub mod models;
pub mod persist;
pub mod poller;
pub mod source;
