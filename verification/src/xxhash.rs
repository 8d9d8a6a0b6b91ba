//! The boundary to the `twox_hash` crate.
//!
//! Nothing in this file is proved. It declares the crate's streaming XXH64
//! hasher as an opaque type, names what such a hasher has been fed and what it
//! answers, and wraps the five operations the rest of the library calls. All
//! other modules are verified against the contracts stated here.

use std::hash::Hasher;
use twox_hash::XxHash64;
use vstd::prelude::*;

verus! {

/// `twox_hash::XxHash64`, the streaming XXH64 state. Its fields stay hidden.
#[verifier::external_type_specification]
#[verifier::external_body]
pub struct ExXxHash64(XxHash64);

/// The bytes a hasher has been fed since it was made, in the order they came.
pub uninterp spec fn absorbed(state: XxHash64) -> Seq<u8>;

/// The seed a hasher was made with.
pub uninterp spec fn seed_of(state: XxHash64) -> u64;

/// The XXH64 digest of `input` under `seed`.
pub uninterp spec fn xxh64(seed: u64, input: Seq<u8>) -> u64;

/// `XxHash64::default()`: a hasher with seed 0 that has been fed nothing.
#[verifier::external_body]
pub(crate) fn fresh() -> (state: XxHash64)
    ensures
        absorbed(state) == Seq::<u8>::empty(),
        seed_of(state) == 0,
{
    XxHash64::default()
}

/// `Hasher::write` on an `XxHash64`: appends `bytes` to what the hasher has
/// been fed and keeps its seed. How the bytes are cut into calls leaves no
/// trace. The hasher counts its input in a `u64` and adds to that count
/// unchecked, so the total must stay within `u64`; within it the call does not
/// panic.
#[verifier::external_body]
pub(crate) fn feed(state: &mut XxHash64, bytes: &[u8])
    requires
        absorbed(*old(state)).len() + bytes@.len() <= u64::MAX,
    ensures
        absorbed(*final(state)) == absorbed(*old(state)) + bytes@,
        seed_of(*final(state)) == seed_of(*old(state)),
    no_unwind
{
    state.write(bytes)
}

/// `Hasher::finish` on an `XxHash64`: the XXH64 digest, under the hasher's
/// seed, of everything it has been fed. The hasher is left as it was.
#[verifier::external_body]
pub(crate) fn digest(state: &XxHash64) -> (value: u64)
    ensures
        value == xxh64(seed_of(*state), absorbed(*state)),
{
    state.finish()
}

/// `XxHash64::total_len`: the number of bytes the hasher has been fed, as
/// long as that number has stayed within the `u64` in which it is counted.
#[verifier::external_body]
pub(crate) fn fed_len(state: &XxHash64) -> (count: u64)
    requires
        absorbed(*state).len() <= u64::MAX,
    ensures
        count == absorbed(*state).len(),
{
    state.total_len()
}

/// `Clone::clone` on an `XxHash64`: a second hasher with the same seed that
/// has been fed the same bytes.
#[verifier::external_body]
pub(crate) fn duplicate(state: &XxHash64) -> (copy: XxHash64)
    ensures
        absorbed(copy) == absorbed(*state),
        seed_of(copy) == seed_of(*state),
{
    state.clone()
}

} // verus!
