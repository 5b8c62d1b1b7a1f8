//! A small single-writer key/value storage engine for schemaed rows keyed by a
//! non-zero 32-bit identifier: fixed-size pages, a write-ahead log, and the
//! index that routes every operation between the two.
//!
//! The crate holds the engine's logic only. Every function is verified
//! against its contract; reading and writing the files is left to the caller.

pub mod db;
pub mod image;
pub mod index;
pub mod input;
pub mod layout;
pub mod page;
pub mod record;
pub mod row;
pub mod table;
pub mod transaction;
pub mod utils;
pub mod wal;
