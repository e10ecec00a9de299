//! The SHA-3 functions the conditioners use, from the `sha3` crate.

use vstd::prelude::*;
use sha3::digest::{Digest, ExtendableOutput, Update, XofReader};

verus! {

/// A SHAKE256 hashing state (`sha3::Shake256`), held opaquely.
#[verifier::external_body]
pub struct Shake256State {
    state: sha3::Shake256,
}

/// The bytes absorbed so far by a SHAKE256 state.
pub uninterp spec fn shake256_absorbed(s: Shake256State) -> Seq<u8>;

/// The first `len` bytes of the SHAKE256 output on `data`.
pub uninterp spec fn shake256_output(data: Seq<u8>, len: nat) -> Seq<u8>;

/// The SHA3-512 digest of `data`.
pub uninterp spec fn sha3_512_output(data: Seq<u8>) -> Seq<u8>;

/// `sha3::Shake256::default`: a state that has absorbed nothing.
#[verifier::external_body]
pub fn shake256_new() -> (r: Shake256State)
    ensures
        shake256_absorbed(r) == Seq::<u8>::empty(),
{
    Shake256State { state: sha3::Shake256::default() }
}

/// `Update::update` on `sha3::Shake256`: appends `bytes` to what the state
/// has absorbed.
#[verifier::external_body]
pub fn shake256_update(s: &mut Shake256State, bytes: &[u8])
    ensures
        shake256_absorbed(*final(s)) == shake256_absorbed(*old(s)) + bytes@,
{
    s.state.update(bytes)
}

/// `ExtendableOutput::finalize_xof` on `sha3::Shake256`, then
/// `XofReader::read` into `out`: fills `out` with the first `out.len()`
/// bytes of the SHAKE256 output on what the state absorbed.
#[verifier::external_body]
pub fn shake256_finalize_into(s: Shake256State, out: &mut [u8])
    ensures
        final(out)@ == shake256_output(shake256_absorbed(s), old(out)@.len()),
        final(out)@.len() == old(out)@.len(),
{
    s.state.finalize_xof().read(out)
}

/// `sha3::Sha3_512::digest`: the 64-byte SHA3-512 digest of `data`.
#[verifier::external_body]
pub fn sha3_512_digest(data: &[u8]) -> (r: [u8; 64])
    ensures
        r@ == sha3_512_output(data@),
{
    sha3::Sha3_512::digest(data).into()
}

} // verus!
