//! The streaming accumulator.
//!
//! A hasher is modelled by the bytes it has absorbed, oldest first. Every
//! operation that absorbs appends to them, and the digest is a function of
//! them alone. One hasher can absorb `u64::MAX` bytes in its life; the
//! operations that absorb ask for the room they need.

use crate::encoding::{le_bytes, lemma_le_bytes_len, u64_le};
use crate::hashable::Hashable;
use crate::xxhash::{absorbed, seed_of, xxh64};
use twox_hash::XxHash64;
use vstd::prelude::*;
use vstd::utf8::encode_utf8;

verus! {

/// The text that marks the current tool version. It changes whenever
/// fingerprints made by an earlier version must stop matching.
pub const VERSION_MARKER: &'static str = "ai-deno-v0";

/// The bytes of the version marker: its UTF-8 encoding.
pub open spec fn version_marker() -> Seq<u8> {
    encode_utf8(VERSION_MARKER@)
}

/// The version marker, byte by byte.
pub proof fn lemma_version_marker()
    ensures
        version_marker() == seq![97u8, 105, 45, 100, 101, 110, 111, 45, 118, 48],
        version_marker().len() == 10,
{
    reveal_strlit("ai-deno-v0");
    vstd::string::is_ascii_spec_bytes(VERSION_MARKER);
    assert(vstd::string::is_ascii(VERSION_MARKER));
    assert(version_marker() =~= seq![97u8, 105, 45, 100, 101, 110, 111, 45, 118, 48]);
}

/// The digest that a hasher returns once it has absorbed exactly `bytes`.
pub open spec fn digest_of(bytes: Seq<u8>) -> u64 {
    xxh64(0, bytes)
}

/// A very fast insecure hasher that uses the xxHash algorithm.
///
/// Its view is the sequence of bytes absorbed so far.
#[derive(Debug)]
pub struct FastInsecureHasher(XxHash64);

impl View for FastInsecureHasher {
    type V = Seq<u8>;

    closed spec fn view(&self) -> Seq<u8> {
        absorbed(self.0)
    }
}

impl FastInsecureHasher {
    /// The hasher was made with seed 0 and has absorbed no more than it can
    /// count.
    #[verifier::type_invariant]
    spec fn well_formed(&self) -> bool {
        &&& seed_of(self.0) == 0
        &&& absorbed(self.0).len() <= u64::MAX
    }

    /// True if `count` more bytes still fit under the limit of `u64::MAX`
    /// bytes that one hasher can absorb in its life.
    pub open spec fn has_room(&self, count: nat) -> bool {
        self@.len() + count <= u64::MAX
    }

    /// A hasher that has absorbed nothing.
    pub fn new_without_deno_version() -> (hasher: Self)
        ensures
            hasher@ == Seq::<u8>::empty(),
    {
        Self(crate::xxhash::fresh())
    }

    /// A hasher that has absorbed the version marker and nothing else, so
    /// that every digest taken from it depends on the tool version.
    pub fn new_deno_versioned() -> (hasher: Self)
        ensures
            hasher@ == version_marker(),
    {
        let mut hasher = Self::new_without_deno_version();
        proof {
            lemma_version_marker();
        }
        hasher.write_str(VERSION_MARKER);
        hasher
    }

    /// Absorbs the UTF-8 encoding of `text`.
    pub fn write_str(&mut self, text: &str) -> (chained: &mut Self)
        requires
            old(self).has_room(encode_utf8(text@).len()),
        ensures
            chained@ == old(self)@ + encode_utf8(text@),
            *final(chained) == *final(self),
    {
        self.write(text.as_bytes());
        self
    }

    /// Absorbs `bytes`, in order.
    pub fn write(&mut self, bytes: &[u8]) -> (chained: &mut Self)
        requires
            old(self).has_room(bytes@.len()),
        ensures
            chained@ == old(self)@ + bytes@,
            *final(chained) == *final(self),
    {
        proof {
            use_type_invariant(&*self);
        }
        crate::xxhash::feed(&mut self.0, bytes);
        self
    }

    /// Absorbs the single byte `value`.
    pub fn write_u8(&mut self, value: u8) -> (chained: &mut Self)
        requires
            old(self).has_room(1),
        ensures
            chained@ == old(self)@.push(value),
            *final(chained) == *final(self),
    {
        let bytes: [u8; 1] = [value];
        assert(bytes@ =~= seq![value]);
        self.write(bytes.as_slice());
        assert(self@ =~= old(self)@.push(value));
        self
    }

    /// Absorbs the eight bytes of `value`, least significant first, whatever
    /// the byte order of the host.
    pub fn write_u64(&mut self, value: u64) -> (chained: &mut Self)
        requires
            old(self).has_room(8),
        ensures
            chained@ == old(self)@ + le_bytes(value as nat, 8),
            *final(chained) == *final(self),
    {
        let bytes = u64_le(value);
        proof {
            lemma_le_bytes_len(value as nat, 8);
        }
        self.write(bytes.as_slice());
        self
    }

    /// Absorbs the bytes that stand for `hashable`.
    pub fn write_hashable<T: Hashable>(&mut self, hashable: T) -> (chained: &mut Self)
        requires
            old(self).has_room(hashable.hash_bytes().len()),
        ensures
            chained@ == old(self)@ + hashable.hash_bytes(),
            *final(chained) == *final(self),
    {
        hashable.hash_into(self);
        self
    }

    /// The number of bytes absorbed so far. A caller that cannot prove
    /// [`has_room`](Self::has_room) can test it with this.
    pub fn absorbed_len(&self) -> (count: u64)
        ensures
            count == self@.len(),
    {
        proof {
            use_type_invariant(self);
        }
        crate::xxhash::fed_len(&self.0)
    }

    /// The digest of everything absorbed so far. The hasher is not changed and
    /// can absorb more afterwards.
    pub fn finish(&self) -> (digest: u64)
        ensures
            digest == digest_of(self@),
    {
        proof {
            use_type_invariant(self);
        }
        crate::xxhash::digest(&self.0)
    }
}

impl Clone for FastInsecureHasher {
    fn clone(&self) -> (copy: Self)
        ensures
            copy@ == self@,
    {
        proof {
            use_type_invariant(self);
        }
        Self(crate::xxhash::duplicate(&self.0))
    }
}

/// Taking the digest does not disturb the hasher: two digests taken of one
/// hasher with nothing absorbed in between are the same.
pub proof fn lemma_finish_repeatable(hasher: FastInsecureHasher, first: u64, second: u64)
    requires
        first == digest_of(hasher@),
        second == digest_of(hasher@),
    ensures
        first == second,
{
}

/// The order of absorption reaches the digest: where two pieces do not
/// commute, absorbing them one way or the other after the same past makes
/// two different inputs to the digest.
pub proof fn lemma_order_changes_input(past: Seq<u8>, first: Seq<u8>, second: Seq<u8>)
    requires
        first + second != second + first,
    ensures
        past + first + second != past + second + first,
{
    let one = past + first + second;
    let other = past + second + first;
    if one == other {
        assert forall|i: int| 0 <= i < (first + second).len() implies (first + second)[i] == (
        second + first)[i] by {
            assert(one[past.len() + i] == (first + second)[i]);
            assert(other[past.len() + i] == (second + first)[i]);
        }
        assert(first + second =~= second + first);
    }
}

/// Two different pieces of the same length never commute.
pub proof fn lemma_same_length_pieces_do_not_commute(first: Seq<u8>, second: Seq<u8>)
    requires
        first != second,
        first.len() == second.len(),
    ensures
        first + second != second + first,
{
    if first + second == second + first {
        assert forall|i: int| 0 <= i < first.len() implies first[i] == second[i] by {
            assert((first + second)[i] == first[i]);
            assert((second + first)[i] == second[i]);
        }
        assert(first =~= second);
    }
}

} // verus!
