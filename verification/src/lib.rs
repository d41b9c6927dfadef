//! A read-only, content-addressed, layered filesystem reader.
//!
//! An image is a set of blobs, each stored under its SHA-256 digest.  A root
//! manifest lists the metadata blobs that make up the layer stack; each
//! metadata blob holds a fixed-stride, binary-sorted inode table followed by
//! variable-length side data (directory listings, file chunk lists, extended
//! attributes).  Regular file contents are reassembled from content-addressed
//! chunks that may live in arbitrary blobs.

pub mod cbor;
pub mod digest;
pub mod error;
pub mod inode;
pub mod metadata;
pub mod oci;
pub mod records;
pub mod types;

pub use error::Error;
pub use error::WireFormatError;
