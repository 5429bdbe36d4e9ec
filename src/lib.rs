//! A small storage engine: fixed-size pages that hold variable-length
//! records ("cells") threaded through a flat byte buffer by offset-linked
//! chains, plus the in-memory tables and page pool built around them.
pub mod bytes;
pub mod cell;
pub mod database;
pub mod dbtable;
pub mod error;
pub mod executor;
pub mod page;
pub mod query;
pub mod storage;
pub mod table;
pub mod tuple;
