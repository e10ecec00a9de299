//! Conditioners that compress a raw block into conditioned output.

use vstd::prelude::*;
use crate::jent_core::error::JentError;
use crate::sponge::{sha3_512_digest, sha3_512_output, shake256_finalize_into, shake256_new, shake256_output, shake256_update};

verus! {

#[derive(Debug, Clone, Copy, PartialEq, Eq, Structural)]
pub enum ConditionerKind {
    Sha3_512,
    Shake256,
}

/// A conditioner turns raw input into a fixed number of output bytes.
///
/// Implementations promise that a successful call writes `produces()`
/// bytes, `conditioned(input)`, at the front of the output buffer, no more
/// than it holds; that a call succeeds on every buffer length that
/// `accepts`; and that a call changes none of these.
pub trait Conditioner {
    /// How many bytes a successful call produces.
    spec fn produces(&self) -> nat;

    /// The bytes a successful call produces from `input`.
    spec fn conditioned(&self, input: Seq<u8>) -> Seq<u8>;

    /// The output buffer lengths on which a call succeeds.
    spec fn accepts(&self, output_len: nat) -> bool;

    fn kind(&self) -> ConditionerKind;

    fn condition(&mut self, input: &[u8], output: &mut [u8]) -> (r: Result<usize, JentError>)
        ensures
            final(self).produces() == old(self).produces(),
            forall|x: Seq<u8>| #[trigger] final(self).conditioned(x) == old(self).conditioned(x),
            forall|l: nat| #[trigger] final(self).accepts(l) == old(self).accepts(l),
            final(output)@.len() == old(output)@.len(),
            old(self).accepts(old(output)@.len()) ==> r is Ok,
            r matches Ok(n) ==> n == old(self).produces() && n <= old(output)@.len()
                && final(output)@.take(n as int) == old(self).conditioned(input@),
    ;
}

/// SHA3-512: 64 bytes of output.
pub struct Sha3_512Conditioner;

impl Sha3_512Conditioner {
    pub const OUTPUT_LEN: usize = 64;

    pub fn new() -> (r: Self) {
        Sha3_512Conditioner
    }
}

impl Conditioner for Sha3_512Conditioner {
    open spec fn produces(&self) -> nat {
        64
    }

    open spec fn conditioned(&self, input: Seq<u8>) -> Seq<u8> {
        sha3_512_output(input)
    }

    open spec fn accepts(&self, output_len: nat) -> bool {
        output_len >= 64
    }

    fn kind(&self) -> (r: ConditionerKind)
        ensures
            r == ConditionerKind::Sha3_512,
    {
        ConditionerKind::Sha3_512
    }

    /// The SHA3-512 digest of `input` in the first 64 bytes of `output`;
    /// an error if `output` is shorter.
    fn condition(&mut self, input: &[u8], output: &mut [u8]) -> (r: Result<usize, JentError>)
        ensures
            old(output)@.len() < 64 ==> r == Err::<usize, JentError>(JentError::OutputBufferTooSmall)
                && final(output)@ == old(output)@,
            old(output)@.len() >= 64 ==> r == Ok::<usize, JentError>(64) && final(output)@
                == sha3_512_output(input@) + old(output)@.skip(64),
    {
        if output.len() < Self::OUTPUT_LEN {
            return Err(JentError::OutputBufferTooSmall);
        }
        let digest = sha3_512_digest(input);
        copy_prefix(output, &digest);
        assert(output@.take(64) =~= digest@);
        Ok(Self::OUTPUT_LEN)
    }
}

/// Copies `src` over the first `src.len()` bytes of `dst`.
fn copy_prefix(dst: &mut [u8], src: &[u8])
    requires
        src@.len() <= old(dst)@.len(),
    ensures
        final(dst)@ == src@ + old(dst)@.skip(src@.len() as int),
{
    let ghost d0 = dst@;
    let mut i: usize = 0;
    while i < src.len()
        invariant
            i <= src@.len(),
            src@.len() <= d0.len(),
            dst@.len() == d0.len(),
            forall|j: int| 0 <= j < i ==> #[trigger] dst@[j] == src@[j],
            forall|j: int| i <= j < d0.len() ==> #[trigger] dst@[j] == d0[j],
        decreases src@.len() - i,
    {
        dst[i] = src[i];
        i = i + 1;
    }
    assert(dst@ =~= src@ + d0.skip(src@.len() as int));
}

/// SHAKE256 with a configurable output length.
pub struct Shake256Conditioner {
    output_len: usize,
}

impl Shake256Conditioner {
    pub closed spec fn output_len_setting(self) -> usize {
        self.output_len
    }

    pub fn new(output_len: usize) -> (r: Self)
        ensures
            r.output_len_setting() == output_len,
    {
        Shake256Conditioner { output_len }
    }
}

impl Conditioner for Shake256Conditioner {
    open spec fn produces(&self) -> nat {
        self.output_len_setting() as nat
    }

    open spec fn conditioned(&self, input: Seq<u8>) -> Seq<u8> {
        shake256_output(input, self.output_len_setting() as nat)
    }

    open spec fn accepts(&self, output_len: nat) -> bool {
        output_len >= self.output_len_setting()
    }

    fn kind(&self) -> (r: ConditionerKind)
        ensures
            r == ConditionerKind::Shake256,
    {
        ConditionerKind::Shake256
    }

    /// The first `output_len` bytes of SHAKE256 on `input` in the first
    /// `output_len` bytes of `output`; an error if `output` is shorter.
    fn condition(&mut self, input: &[u8], output: &mut [u8]) -> (r: Result<usize, JentError>)
        ensures
            old(output)@.len() < old(self).output_len_setting() ==> r == Err::<usize, JentError>(
                JentError::OutputBufferTooSmall,
            ) && final(output)@ == old(output)@,
            old(output)@.len() >= old(self).output_len_setting() ==> r == Ok::<usize, JentError>(
                old(self).output_len_setting(),
            ) && final(output)@ == shake256_output(input@, old(self).output_len_setting() as nat)
                + old(output)@.skip(old(self).output_len_setting() as int),
    {
        if output.len() < self.output_len {
            return Err(JentError::OutputBufferTooSmall);
        }
        let mut hasher = shake256_new();
        shake256_update(&mut hasher, input);
        let mut tmp: Vec<u8> = vec![0u8; self.output_len];
        shake256_finalize_into(hasher, tmp.as_mut_slice());
        assert(Seq::<u8>::empty() + input@ =~= input@);
        copy_prefix(output, tmp.as_slice());
        assert(output@.take(self.output_len as int) =~= tmp@);
        Ok(self.output_len)
    }
}

} // verus!
