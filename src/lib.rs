//! A content-addressed object store model and staging index in the on-disk
//! layout of git: canonical object bodies, their digests, the recursive
//! tree builder, and the binary index file.

pub mod blob;
pub mod bytes;
pub mod codec;
pub mod commit;
pub mod error;
pub mod hasher;
pub mod index;
pub mod rep;
pub mod store;
pub mod tree;

pub use error::GitError;
