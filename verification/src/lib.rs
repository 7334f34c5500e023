//! A miniature distributed version-control engine: a content-addressed
//! object store holding blob, tree and commit objects, a staging index,
//! branch refs, and a three-way merge, all operating on an explicit
//! in-memory file store that an application mirrors to a real directory.

pub mod blob;
pub mod branch;
pub mod codec;
pub mod commit;
pub mod diff;
pub mod digest;
pub mod file;
pub mod index;
pub mod laws;
pub mod merge;
pub mod pathmap;
pub mod paths;
pub mod repo;
pub mod storage;
pub mod text;
pub mod tree;
