//! Bloomy: a small storage engine with a skip-list memtable and a
//! checksummed write-ahead log.
pub mod api;
pub mod config;
pub mod engine;
pub mod error;
pub mod keys;
pub mod storage;
pub mod types;
pub mod viewer;

pub use api::Bloomy;
pub use api::BloomyOptions;
pub use api::KeyValueStore;
pub use config::BloomyConfig;
pub use types::Key;
pub use types::KeyRange;
pub use types::KeyValue;
pub use types::Value;
