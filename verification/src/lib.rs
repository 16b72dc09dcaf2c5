//! A minimal single-file, log-structured key/value store.
//!
//! The store is an append-only log of checksummed records paired with an
//! in-memory index from keys to the byte offset of their latest record.
//! The log is held as a plain byte image, so that every operation is a
//! function on bytes whose behaviour is stated and proved. Reading the image
//! from a file and appending to that file is left to the caller.

use vstd::prelude::*;

pub mod bytes;
pub mod checksum;
pub mod cli;
pub mod codec;
pub mod endian;
pub mod index;
pub mod store;
pub mod theorems;

pub use codec::{Decoded, KeyValuePair};
pub use index::Index;
pub use store::{Fdb, FdbError};

verus! {

/// An owned byte string: a key or a value.
pub type ByteString = Vec<u8>;

/// A borrowed byte string.
pub type ByteStr = [u8];

} // verus!
