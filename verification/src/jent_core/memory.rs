//! A fixed-size memory loop stirred in full on every call.

use vstd::prelude::*;
use crate::barrier::black_box;
use crate::bits::{rotl8, spec_rotl8};

verus! {

/// The cell visited in step `i` of a stir from `cursor`.
pub open spec fn loop_index(cursor: usize, i: usize, n: usize) -> usize {
    ((cursor + i.wrapping_mul(37)) % (n as int)) as usize
}

/// The value a cell takes in step `i`.
pub open spec fn loop_value(v: u8, i: usize) -> u8 {
    spec_rotl8(v, 1).wrapping_add(i as u8).wrapping_add(0xA5)
}

/// The first `k` steps of a stir from `cursor` over `n` cells.
pub open spec fn stir_steps(buf: Seq<u8>, cursor: usize, n: usize, k: nat) -> Seq<u8>
    decreases k,
{
    if k == 0 {
        buf
    } else {
        let b = stir_steps(buf, cursor, n, (k - 1) as nat);
        let idx = loop_index(cursor, (k - 1) as usize, n);
        b.update(idx as int, loop_value(b[idx as int], (k - 1) as usize))
    }
}

/// The stir's index arithmetic stays within `usize` (it would overflow
/// otherwise).
pub open spec fn stir_in_range(cursor: usize, n: usize) -> bool {
    forall|i: usize| i < n ==> cursor + #[trigger] i.wrapping_mul(37) <= usize::MAX
}

pub struct LoopModel {
    pub buf: Seq<u8>,
    pub cursor: usize,
}

pub struct MemoryLoop<const N: usize> {
    buf: [u8; N],
    cursor: usize,
}

impl<const N: usize> View for MemoryLoop<N> {
    type V = LoopModel;

    closed spec fn view(&self) -> LoopModel {
        LoopModel { buf: self.buf@, cursor: self.cursor }
    }
}

impl<const N: usize> MemoryLoop<N> {
    pub fn new() -> (r: Self)
        ensures
            r@.buf == Seq::new(N as nat, |i: int| 0u8),
            r@.cursor == 0,
    {
        let r = MemoryLoop { buf: [0u8; N], cursor: 0 };
        assert(r@.buf =~= Seq::new(N as nat, |i: int| 0u8));
        r
    }

    /// Takes `N` steps along the stride-37 walk from the cursor, rewriting
    /// the cell of each step (every cell once where `N` and 37 are coprime;
    /// otherwise some cells are rewritten several times and others not at
    /// all), then advances the cursor.
    pub fn stir(&mut self)
        requires
            N > 0,
            stir_in_range(old(self)@.cursor, N),
        ensures
            final(self)@.buf == stir_steps(old(self)@.buf, old(self)@.cursor, N, N as nat),
            final(self)@.cursor == (old(self)@.cursor.wrapping_add(1) % N) as usize,
    {
        let cursor = self.cursor;
        let mut i: usize = 0;
        while i < N
            invariant
                i <= N,
                N > 0,
                self.cursor == cursor,
                stir_in_range(cursor, N),
                self@.buf == stir_steps(old(self)@.buf, cursor, N, i as nat),
                self@.buf.len() == N,
            decreases N - i,
        {
            let idx = (self.cursor + i.wrapping_mul(37)) % N;
            let v = self.buf[idx];
            self.buf[idx] = rotl8(v, 1).wrapping_add(i as u8).wrapping_add(0xA5);
            i = i + 1;
        }
        self.cursor = self.cursor.wrapping_add(1) % N;
        let _ = black_box(&self.buf);
    }
}

impl<const N: usize> Default for MemoryLoop<N> {
    fn default() -> (r: Self)
        ensures
            r@.buf == Seq::new(N as nat, |i: int| 0u8),
            r@.cursor == 0,
    {
        Self::new()
    }
}

} // verus!
