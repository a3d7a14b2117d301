//! Hashing of bytes with the Fx hash.
//!
//! The hash is computed by `rustc_hash::FxHasher`, which is fed one byte at a
//! time. What it computes is not written out and not proved here: the state
//! of a hasher and the step that one byte makes it take are names without a
//! definition, and the digest of a byte string is stated over them. What is
//! taken on trust of the hasher stands at the three functions that call it.
use vstd::prelude::*;

verus! {

/// `rustc_hash::FxHasher`, a hasher whose whole state is one machine word.
#[verifier::external_type_specification]
#[verifier::external_body]
pub struct ExFxHasher(rustc_hash::FxHasher);

/// The state of a hasher, as the number that `finish` gives out.
pub uninterp spec fn fx_state(hasher: rustc_hash::FxHasher) -> u64;

/// The state that follows `state` when the hasher takes in the single byte
/// `byte`, on a machine whose words have `word_bits` bits.
pub uninterp spec fn fx_mix(state: u64, byte: u8, word_bits: nat) -> u64;

/// The state that follows `state` when the hasher takes in `bytes` one by one.
pub open spec fn fx_absorb(state: u64, bytes: Seq<u8>) -> u64
    decreases bytes.len(),
{
    if bytes.len() == 0 {
        state
    } else {
        fx_mix(fx_absorb(state, bytes.drop_last()), bytes.last(), usize::BITS as nat)
    }
}

/// The digest of `bytes`: the state of a new hasher that has taken in `bytes`
/// one by one.
pub open spec fn fx_digest(bytes: Seq<u8>) -> u64 {
    fx_absorb(0, bytes)
}

/// Calls `FxHasher::default()`. Taken on trust: the new hasher is in the
/// state zero.
#[verifier::external_body]
fn fx_new() -> (hasher: rustc_hash::FxHasher)
    ensures
        fx_state(hasher) == 0,
{
    rustc_hash::FxHasher::default()
}

/// Calls `write_u8` of `FxHasher`. Taken on trust: the state after the call
/// is fixed by the state before it, the byte and the width of the machine's
/// words.
#[verifier::external_body]
fn fx_write_u8(hasher: &mut rustc_hash::FxHasher, byte: u8)
    ensures
        fx_state(*final(hasher)) == fx_mix(fx_state(*old(hasher)), byte, usize::BITS as nat),
{
    std::hash::Hasher::write_u8(hasher, byte)
}

/// Calls `finish` of `FxHasher`. Taken on trust: the call gives out the
/// state.
#[verifier::external_body]
fn fx_finish(hasher: &rustc_hash::FxHasher) -> (digest: u64)
    ensures
        digest == fx_state(*hasher),
{
    std::hash::Hasher::finish(hasher)
}

/// The Fx digest of `bytes`.
pub fn hash_bytes(bytes: &[u8]) -> (digest: u64)
    ensures
        digest == fx_digest(bytes@),
{
    let mut hasher = fx_new();
    let mut i: usize = 0;
    while i < bytes.len()
        invariant
            i <= bytes@.len(),
            fx_state(hasher) == fx_absorb(0, bytes@.take(i as int)),
        decreases bytes@.len() - i,
    {
        fx_write_u8(&mut hasher, bytes[i]);
        proof {
            assert(bytes@.take(i + 1).drop_last() =~= bytes@.take(i as int));
        }
        i += 1;
    }
    proof {
        assert(bytes@.take(i as int) =~= bytes@);
    }
    fx_finish(&hasher)
}

} // verus!
