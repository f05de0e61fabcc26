//! A minimal content-addressable snapshot store: a directory tree becomes an
//! immutable, hash-identified graph of blobs (file contents) and trees
//! (directory listings), with a single index pointer naming the current root.

pub mod add;
pub mod byteseq;
pub mod entry;
pub mod error;
pub mod ignore;
pub mod index;
pub mod io;
pub mod laws;
pub mod object;
pub mod path;
pub mod repo;
