//! Segment-based storage engine for a partitioned, append-only message log.
//!
//! A partition owns an ordered sequence of segments; producers append ordered
//! messages to the active (last) segment, which rolls over into a new segment
//! when full, and consumers read contiguous offset ranges that may straddle
//! several segments. Each segment persists to three on-disk artifacts (log,
//! index, time index), modelled here by [`disk::Disk`]; the embedding
//! application mirrors that model to real files.

pub mod cache;
pub mod codec;
pub mod config;
pub mod disk;
pub mod error;
pub mod message;
pub mod partition;
pub mod segment;
pub mod stream;
