//! An embedded, single-file document database.
//!
//! A database file is a single contiguous byte image holding a rooted tree of
//! length-prefixed records.  The root is a document record named `root`;
//! collections are records whose children are documents keyed by decimal
//! sequence numbers; documents hold named fields that are 64-bit integers,
//! UTF-8 strings, nested documents or nested collections.
//!
//! The crate keeps the byte image in memory; reading and writing the file
//! itself is left to the caller.

pub mod bytes;
pub mod db;
pub mod dec;
pub mod err;
pub mod header;
pub mod jrdb_type;
pub mod laws;
pub mod text;

pub use db::Database;
pub use err::JrError;
pub use header::HeaderDetail;
