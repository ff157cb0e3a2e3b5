//! A networked key-value store: length-delimited frames with optional gzip
//! compression, a per-connection frame stream state, an in-memory table
//! store behind a storage interface, and a total command dispatcher.
pub mod error;
pub mod frame;
pub mod pb;
pub mod service;
pub mod storage;
pub mod stream;

pub use error::KvError;
