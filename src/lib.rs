//! An embedded key/value store in the Bitcask style: records are appended to
//! log segments and an in-memory index maps each live key to the location of
//! its latest record.

pub mod data;
pub mod engine;
pub mod error;
pub mod fileio;
pub mod index;
pub mod option;
pub mod recovery;

