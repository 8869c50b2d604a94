//! The logic of a log-structured merge-tree key-value store.
pub mod bloom;
pub mod checksum;
pub mod cli;
pub mod codec;
pub mod config;
pub mod db;
pub mod durability;
pub mod entries;
pub mod error;
pub mod hash;
pub mod memtable;
pub mod order;
pub mod resp;
pub mod scan;
pub mod server;
pub mod session;
pub mod sstable;
pub mod text;
pub mod wal;
pub mod workload;
pub use db::Db;
pub use error::{DbError, Result};
