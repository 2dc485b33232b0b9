//! Verified core of a chapter-based content downloader.
//!
//! The library holds the logic that is worth proving: the metadata store's
//! upsert and lookup semantics, the markup field extraction, the name
//! normalization, the retry schedule, the bounded-concurrency scheduler
//! state machine, and the skip-set computation that makes downloads
//! resumable. All I/O (network, filesystem, database file, terminal)
//! lives outside the library and hands it plain values.

pub mod bench;
pub mod db;
pub mod downloader;
pub mod error;
pub mod models;
pub mod ordinal;
pub mod retry;
pub mod scheduler;
pub mod scrape;
pub mod strings;
pub mod utils;

pub use error::MgdlError;
pub use models::Chapter;
pub use models::Manga;
