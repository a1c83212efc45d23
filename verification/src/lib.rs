//! Storage core of a single-file virtual disk: a hierarchical free-block
//! allocator, an aligned block cache with byte-granular access, and the
//! binary container layout (header, filesystem-index record, permission
//! set, and RUID identifiers).

pub mod allocator;
pub mod cache;
pub mod error;
pub mod fs_index;
pub mod header;
pub mod ruid;
