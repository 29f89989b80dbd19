//! Write path and crash-recovery core of a log-structured key-value store:
//! a sorted in-memory table of the latest record per key, the binary codec
//! for write-ahead-log records, a decoder for log segments that tolerates a
//! truncated trailing record, the recovery fold that rebuilds memory state
//! from historical segments, and the engine facade that applies every
//! mutation to the log bytes before it touches memory.

pub mod codec;
pub mod engine;
pub mod lex;
pub mod memtable;
pub mod names;
pub mod record;
pub mod recovery;
