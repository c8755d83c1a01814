//! A verified lookup library over a read-only corpus of documentation
//! entries: a plain document model, exact title lookup, fuzzy-ranked
//! search, and an archive codec with a portable encoding and a compact
//! encoding that supports per-entry access without a full decode.

pub mod model;
pub mod codec;
pub mod ranking;
pub mod compact;
