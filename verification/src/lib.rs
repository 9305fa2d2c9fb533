//! A small write-ahead-log key-value store: the on-disk record format,
//! the in-memory index that maps keys to value locations, the decisions of
//! the segmented log writer and the request protocol.
pub mod record;
pub mod index;
pub mod writer;
pub mod paths;
pub mod protocol;
pub mod serving;
