//! The fingerprint that keys a cache entry.

use crate::encoding::{le_bytes, lemma_le_bytes_len};
use crate::hashable::Hashable;
use crate::hasher::{digest_of, version_marker, FastInsecureHasher};
use crate::prefix::lemma_prefix_same_len;
use vstd::prelude::*;

verus! {

/// The fingerprint of a value whose bytes are `bytes`: the digest of the
/// version marker followed by those bytes.
pub open spec fn fingerprint_of(bytes: Seq<u8>) -> u64 {
    digest_of(version_marker() + bytes)
}

/// A 64-bit fingerprint. Two fingerprints are equal exactly when their
/// digests are.
#[derive(Debug, Copy, Clone, PartialEq, Eq, Hash, Structural)]
pub struct CacheDBHash(u64);

impl CacheDBHash {
    /// The digest that the fingerprint holds.
    pub closed spec fn spec_digest(&self) -> u64 {
        self.0
    }

    /// Wraps a digest that was computed elsewhere, as it is.
    pub fn new(hash: u64) -> (fingerprint: Self)
        ensures
            fingerprint.digest() == hash,
    {
        Self(hash)
    }

    /// The digest that the fingerprint holds.
    #[verifier::when_used_as_spec(spec_digest)]
    pub fn digest(&self) -> (value: u64)
        ensures
            value == self.spec_digest(),
    {
        self.0
    }

    /// The fingerprint of `hashable` under the current tool version.
    ///
    /// The version marker is absorbed first, whatever `hashable` itself says
    /// of versions, so that no fingerprint outlives a change of version. The
    /// marker and the bytes of `hashable` together must not be more than one
    /// hasher can absorb.
    pub fn from_hashable<T: Hashable>(hashable: T) -> (fingerprint: Self)
        requires
            version_marker().len() + hashable.hash_bytes().len() <= u64::MAX,
        ensures
            fingerprint.digest() == fingerprint_of(hashable.hash_bytes()),
    {
        Self::new(FastInsecureHasher::new_deno_versioned().write_hashable(hashable).finish())
    }
}

/// A fingerprint is absorbed as its digest, so that fingerprints made apart
/// can be combined into one.
impl Hashable for CacheDBHash {
    open spec fn hash_bytes(&self) -> Seq<u8> {
        le_bytes(self.digest() as nat, 8)
    }

    fn hash_into(&self, state: &mut FastInsecureHasher) {
        proof {
            lemma_le_bytes_len(self.digest() as nat, 8);
        }
        state.write_u64(self.0);
    }

    proof fn lemma_prefix_free(&self, other: &Self) {
        lemma_le_bytes_len(self.digest() as nat, 8);
        lemma_le_bytes_len(other.digest() as nat, 8);
        lemma_prefix_same_len(self.hash_bytes(), other.hash_bytes());
    }
}

/// Fingerprints are compared by their digests alone.
pub proof fn lemma_equal_iff_same_digest(first: CacheDBHash, second: CacheDBHash)
    ensures
        first == second <==> first.digest() == second.digest(),
{
}

/// Fingerprinting is deterministic: whenever the same value is fingerprinted
/// twice, the two fingerprints are equal.
pub proof fn lemma_fingerprint_deterministic<T: Hashable>(
    value: T,
    first: CacheDBHash,
    second: CacheDBHash,
)
    requires
        first.digest() == fingerprint_of(value.hash_bytes()),
        second.digest() == fingerprint_of(value.hash_bytes()),
    ensures
        first == second,
{
}

/// Two values that stand for the same bytes have the same fingerprint, of
/// whatever types they are.
pub proof fn lemma_same_bytes_same_fingerprint<A: Hashable, B: Hashable>(
    left: A,
    right: B,
    first: CacheDBHash,
    second: CacheDBHash,
)
    requires
        left.hash_bytes() == right.hash_bytes(),
        first.digest() == fingerprint_of(left.hash_bytes()),
        second.digest() == fingerprint_of(right.hash_bytes()),
    ensures
        first == second,
{
}

/// The version marker reaches the digest: under two different markers the
/// same bytes make two different inputs to the digest.
pub proof fn lemma_marker_changes_input(first: Seq<u8>, second: Seq<u8>, bytes: Seq<u8>)
    requires
        first != second,
    ensures
        first + bytes != second + bytes,
{
    if first + bytes == second + bytes {
        assert((first + bytes).len() == (second + bytes).len());
        assert(first.len() == second.len());
        assert forall|i: int| 0 <= i < first.len() implies first[i] == second[i] by {
            assert((first + bytes)[i] == first[i]);
            assert((second + bytes)[i] == second[i]);
        }
        assert(first =~= second);
    }
}

} // verus!
