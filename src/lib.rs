//! A content-addressed object store in the style of git's plumbing layer:
//! hashing, the object codec, the binary index, the tree builder and the
//! revision resolver.

pub mod bytes;
pub mod commit;
pub mod config;
pub mod hash;
pub mod index;
pub mod mush_object;
pub mod object;
pub mod revision;
pub mod status;
pub mod text;
pub mod tree;
