//! A versioned, header-plus-content entry store with exclusive per-entry
//! locking and a composable filter engine.
//!
//! The store keeps one entry per (id, version) pair.  Every entry carries a
//! structured header document, addressed by dotted field paths, and a raw
//! byte content.  Access to an entry goes through an exclusive handle; a
//! handle must be released before another one can be acquired for the same
//! pair.  Filters are a closed set of predicates over materialized entries,
//! evaluated totally: a miss or a type mismatch is `false`, never an error.

pub mod config;
pub mod error;
pub mod filter;
pub mod header;
pub mod loglevel;
pub mod resolver;
pub mod store;
pub mod strutil;
pub mod value;
pub mod versions;

pub use config::config_implicit_store_create_allowed;
pub use error::StoreError;
pub use filter::Entry;
pub use filter::FilterPredicate;
pub use header::FieldPath;
pub use loglevel::LogLevel;
pub use loglevel::match_log_level_str;
pub use resolver::EntryLocation;
pub use resolver::resolve;
pub use store::EntryStore;
pub use store::LockedEntryHandle;
pub use store::StoreConfiguration;
pub use value::Value;
pub use value::value_eq;
pub use versions::sort_versions;
