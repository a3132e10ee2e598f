//! A content-addressed object store with recursive directory snapshots.
//!
//! Objects are blobs (file content) and trees (directory listings), each
//! stored under the hex SHA-1 digest of its canonical encoding. A snapshot
//! turns a directory, read into a [`Node`], into blob and tree objects; a
//! restore turns a tree back into a [`Node`]. The store here is held in
//! memory: reading directories, and keeping records on disk, is left to the
//! program around the library.

pub mod base;
pub mod bytes;
pub mod context;
pub mod digest;
pub mod error;
pub mod flags;
pub mod laws;
pub mod node;
pub mod object;
pub mod path;
pub mod restore;
pub mod round_trip;
pub mod snapshot;
pub mod store;
pub mod tree;

pub use context::Context;
pub use error::{CliError, ErrorKind};
pub use flags::Flags;
pub use node::{DirEntry, Node};
pub use object::{ObjectType, OID};
pub use store::ObjectStore;
