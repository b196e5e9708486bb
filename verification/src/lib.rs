//! A durable journal of file content hashes and modification times.
//!
//! The journal is an append-only, line-oriented log of file-state records.
//! Replaying the log rebuilds an in-memory snapshot (path -> last record);
//! diffing that snapshot against a freshly observed directory listing yields
//! the paths that need (re)hashing and the paths that have disappeared; the
//! hash pipeline's one writer turns each computed digest into exactly one
//! appended record.

pub mod codec;
pub mod differ;
pub mod file_journal;
pub mod path_walker;
pub mod pipeline;
