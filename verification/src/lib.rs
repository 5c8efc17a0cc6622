//! Audio library browsing: classification and ordering of directory entries,
//! and assembly of normalized audio metadata records.

pub mod codec;
pub mod entry;
pub mod formats;
pub mod listing;
pub mod metadata;
pub mod sort;
pub mod tags;
pub mod text;
pub mod tree;
