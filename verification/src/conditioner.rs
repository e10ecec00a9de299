//! The conditioner that compresses raw samples into output blocks.

use vstd::prelude::*;
use crate::sponge::{shake256_absorbed, shake256_finalize_into, shake256_new, shake256_output, shake256_update, Shake256State};

verus! {

pub const OUTPUT_BLOCK_BYTES: usize = 64;

/// A conditioner absorbs bytes and yields one fixed-size output block.
pub trait Conditioner {
    fn absorb(&mut self, bytes: &[u8]);

    fn finalize_block(self) -> [u8; 64];
}

/// The SHAKE256 conditioner, configured to produce 64-byte blocks.
pub struct Shake256Conditioner {
    state: Shake256State,
}

impl Shake256Conditioner {
    /// The bytes absorbed so far.
    pub closed spec fn absorbed(self) -> Seq<u8> {
        shake256_absorbed(self.state)
    }
}

impl Default for Shake256Conditioner {
    fn default() -> (r: Self)
        ensures
            r.absorbed() == Seq::<u8>::empty(),
    {
        Shake256Conditioner { state: shake256_new() }
    }
}

impl Conditioner for Shake256Conditioner {
    fn absorb(&mut self, bytes: &[u8])
        ensures
            final(self).absorbed() == old(self).absorbed() + bytes@,
    {
        shake256_update(&mut self.state, bytes);
    }

    fn finalize_block(self) -> (r: [u8; 64])
        ensures
            r@ == shake256_output(self.absorbed(), 64),
    {
        let mut out = [0u8; 64];
        shake256_finalize_into(self.state, &mut out);
        out
    }
}

} // verus!
