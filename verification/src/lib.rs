//! A log-structured key-value store kept in a directory of segment files,
//! together with the wire protocol of its line-oriented front end.
//!
//! The store appends every mutation to an active segment, keeps an index from
//! each live key to the newest `Set` record for it, rotates the active segment
//! once it holds enough records and compacts the rotated segments from time to
//! time. Every function here is verified against a model of the directory as
//! plain bytes. The store holds the segments in memory and keeps a journal of
//! what it does to them; the program around it reads the files when the store
//! is opened and does to the directory on disk what the journal says.

pub mod commands;
pub mod directory;
pub mod engine;
pub mod error;
pub mod history;
pub mod index;
pub mod json;
pub mod laws;
pub mod log;
pub mod model;
pub mod names;
pub mod parser;
pub mod reclaim;
pub mod record;
pub mod replay;
pub mod store;
pub mod text;

pub use crate::engine::KvsEngine;
pub use crate::error::KvError;
pub use crate::store::KvStore;
