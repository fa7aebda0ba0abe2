//! A small log-structured key/value engine: an ordered in-memory table, a
//! write-ahead log, immutable sorted segments and the text protocol that
//! drives them.

pub mod avl;
pub mod binary;
pub mod command;
pub mod connection;
pub mod decoder;
pub mod error;
pub mod executor;
pub mod le;
pub mod memtable;
pub mod order;
pub mod record;
pub mod sstable;
pub mod store;
pub mod text;
pub mod tokens;
pub mod value;
