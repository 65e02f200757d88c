//! The logic of a local stream service: streams cut into shards, records with
//! ever-growing sequence numbers, iterator tokens, and the write-ahead log that
//! carries the records over a restart.
pub mod clock;
pub mod config;
pub mod format_promises;
pub mod json;
pub mod log_promises;
pub mod maintenance;
pub mod manifest;
pub mod metrics;
pub mod ops;
pub mod ops_laws;
pub mod params;
pub mod protocol;
pub mod put_promises;
pub mod read_laws;
pub mod read_promises;
pub mod records;
pub mod router;
pub mod service_promises;
pub mod store;
pub mod store_laws;
pub mod stream_promises;
pub mod streams;
pub mod text;
pub mod token;
pub mod wal;
pub mod wal_laws;
