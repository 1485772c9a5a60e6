//! Compaction of sorted Unicode codepoint associations into minimal inclusive
//! ranges, and rendering of those ranges as binary-searchable literal tables.

pub mod char_map;
pub mod char_set;
pub mod compact;
pub mod escape;
pub mod laws;
pub mod paths;
pub mod value;
