//! Values that the optimizer must neither elide nor leave behind.

use vstd::prelude::*;
use zeroize::Zeroize;

verus! {

/// `core::hint::black_box`: the identity, opaque to the optimizer.
#[verifier::external_body]
pub fn black_box<T>(v: T) -> (r: T)
    ensures
        r == v,
{
    core::hint::black_box(v)
}

/// `Zeroize::zeroize` on `[u8; 64]`: every byte is set to zero.
#[verifier::external_body]
pub fn zeroize_block(b: &mut [u8; 64])
    ensures
        final(b)@ == Seq::new(64, |i: int| 0u8),
{
    b.zeroize()
}

/// `Zeroize::zeroize` on `Vec<u8>`: the bytes and the spare capacity are
/// overwritten with zeros, then the vector is cleared.
#[verifier::external_body]
pub fn zeroize_vec(v: &mut Vec<u8>)
    ensures
        final(v)@ == Seq::<u8>::empty(),
    opens_invariants none
    no_unwind
{
    v.zeroize()
}

} // verus!
