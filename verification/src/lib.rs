//! A verified incremental SHA-1 hasher.
//!
//! The digest of any byte sequence is specified mathematically in
//! [`model`], and the executable hasher in [`hasher`] is proved to
//! compute exactly that digest, whether the input arrives in one call
//! or spread over many.

pub mod hasher;
pub mod model;

pub use hasher::Sha1;
