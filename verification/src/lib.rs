//! A minimal binary container format ("DIDI") that stores a
//! run-length-encoded payload behind a small metadata header: four magic
//! bytes, a length-prefixed search string, and a flag recording whether the
//! search string occurs in the original data.
//!
//! The codec works on in-memory byte images; callers that keep containers in
//! files read the bytes themselves and hand them to [`container`].

pub mod container;
pub mod rle;
pub mod search;
pub mod text;
