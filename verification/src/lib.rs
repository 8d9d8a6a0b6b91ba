//! Versioned content fingerprints for cache keys.
//!
//! A [`FastInsecureHasher`] absorbs bytes, integers, text and composite values
//! in order and turns what it has absorbed into a 64-bit XXH64 digest. A
//! [`CacheDBHash`] is such a digest, taken over a value that was prefixed with
//! the marker of the current tool version, so that every fingerprint changes
//! when the version does.
//!
//! The digests are fast and well distributed, and not safe against an
//! adversary who searches for collisions.

pub mod encoding;
pub mod prefix;
pub mod xxhash;
pub mod hasher;
pub mod hashable;
pub mod cache_hash;

pub use cache_hash::CacheDBHash;
pub use hashable::Hashable;
pub use hasher::FastInsecureHasher;
