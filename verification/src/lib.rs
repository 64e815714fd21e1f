//! A sharded, bit-packed key-value store mapping 10-digit phone numbers to a
//! small fixed record (service area code, preference flags, opt status, phone
//! type).
//!
//! A key's first 4 digits pick a shard; its last 6 digits pick a slot within
//! that shard's 2,000,000-byte buffer. Each slot holds a record in 2 bytes.
//! Shards persist in one of two file layouts, chosen by a density rule:
//! dense (the raw buffer) or sparse (sorted address/record entries).
//!
//! The library is single-threaded and does no I/O itself; callers read and
//! write the shard files. A shard's load, update and dump must run under a
//! single writer at a time: two interleaved writers of one shard would lose
//! updates, since the last dump wins and nothing merges. Writers must also
//! replace a shard file atomically (write aside, then rename), so a reader
//! sees the old file or the new one, never a torn one.

pub mod buffer;
pub mod codec;
pub mod format;
pub mod lookup;
pub mod patch;
