//! A log-structured key-value store: an append-only record log kept in
//! numbered segments, an in-memory index over it, and compaction.
//!
//! Keys and values are text. Every set and every removal appends one record
//! to the active segment; the index says where the live record of each key
//! lies. When more bytes are dead than a limit allows, the live records are
//! written into a fresh segment and the older segments are deleted.
//!
//! The store holds its segments as bytes and touches no file. Whoever
//! keeps the segments in a directory reads them into a [`SegmentStore`],
//! opens a [`Kvs`] on it, and after each operation applies the steps that
//! [`Kvs::changes`] names.
//!
//! - `framing`: escaping of payloads, so that a frame holds no separator.
//! - `codec`: a command to a frame and back.
//! - `store`: the segments.
//! - `index`: the live keys and the places of their records.
//! - `recovery`: what the segments say about the index, and reading it.
//! - `compaction`: the segment of live records and the places in it.
//! - `model`: the state of the store as plain values, and its steps.
//! - `engine`: open, set, get, remove, compact.
//! - `sync`: the steps that bring a copy of the segments up to date.
//! - `names`: the file names of segments.
//! - `laws`: what holds of every state and every step.
//! - `error`: the errors.

pub mod codec;
pub mod compaction;
pub mod engine;
pub mod error;
pub mod framing;
pub mod index;
pub mod laws;
pub mod model;
pub mod names;
pub mod recovery;
pub mod store;
pub mod sync;

pub use crate::codec::KvsCommand;
pub use crate::engine::Kvs;
pub use crate::error::{ErrorKind, KvsError};
pub use crate::index::CommandPos;
pub use crate::store::SegmentStore;
pub use crate::sync::{Extent, StoreOp};
