//! A Bitcask-style key-value storage engine: an append-only log of records
//! split into numbered segments, and an in-memory ordered keydir that maps
//! every live key to the location of its latest record.

pub mod batch;
pub mod data_file;
pub mod db;
pub mod error;
pub mod fio;
pub mod index;
pub mod iterator;
pub mod log_record;
pub mod options;
pub mod replay;
