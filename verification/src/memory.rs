//! The memory-access noise source: a power-of-two buffer stirred along a
//! pseudo-random walk.

use vstd::prelude::*;
use crate::barrier::{black_box, zeroize_vec};
use crate::bits::{le_bytes_u64, rotl8, spec_rotl8, u64_to_le_bytes};

verus! {

/// `n` is a power of two that a `usize` holds.
pub open spec fn is_pow2(n: usize) -> bool {
    exists|k: u32| k < usize::BITS && n == #[trigger] (1usize << k)
}

/// The value a visited cell takes.
pub open spec fn stirred(old: u8, idx: usize) -> u8 {
    old.wrapping_add(spec_rotl8(idx as u8, 1)).wrapping_add(1)
}

/// The next cell of the walk.
pub open spec fn next_index(idx: usize, mask: usize) -> usize {
    idx.wrapping_mul(1_103_515_245).wrapping_add(12_345) & mask
}

/// The 8 bytes handed out for one visit: old value, new value and the low 6
/// bytes of the cell index.
pub open spec fn visit_trace(old: u8, new: u8, idx: usize) -> Seq<u8> {
    seq![old, new] + le_bytes_u64(idx as u64).take(6)
}

/// `n` visits of the walk from cell `idx`: the buffer, the next cell and the
/// bytes handed out.
pub open spec fn walk(buf: Seq<u8>, idx: usize, mask: usize, n: nat) -> (Seq<u8>, usize, Seq<u8>)
    decreases n,
{
    if n == 0 {
        (buf, idx, Seq::empty())
    } else {
        let (b, i, t) = walk(buf, idx, mask, (n - 1) as nat);
        let old = b[i as int];
        let new = stirred(old, i);
        (b.update(i as int, new), next_index(i, mask), t + visit_trace(old, new, i))
    }
}

/// The abstract state of a memory noise source.
pub struct MemoryModel {
    pub buf: Seq<u8>,
    pub idx: usize,
}

impl MemoryModel {
    pub open spec fn wf(self) -> bool {
        &&& self.buf.len() <= usize::MAX
        &&& is_pow2(self.buf.len() as usize)
        &&& self.idx < self.buf.len()
    }

    /// The state after a disturbance seeded by `seed` of `rounds` visits,
    /// and the bytes handed out.
    pub open spec fn disturb(self, seed: u64, rounds: nat) -> (MemoryModel, Seq<u8>) {
        let mask = (self.buf.len() - 1) as usize;
        let start = (self.idx ^ (seed as usize)) & mask;
        let (b, i, t) = walk(self.buf, start, mask, rounds);
        (MemoryModel { buf: b, idx: i }, t)
    }
}

/// `x & (n - 1)` indexes a buffer of power-of-two length `n`.
pub proof fn lemma_mask_in_range(x: usize, n: usize)
    requires
        is_pow2(n),
    ensures
        x & ((n - 1) as usize) < n,
        0 < n,
{
    let k = choose|k: u32| k < usize::BITS && n == #[trigger] (1usize << k);
    assert(x & (((1usize << k) - 1) as usize) < (1usize << k) && 0 < (1usize << k)) by (bit_vector)
        requires
            k < usize::BITS,
    ;
}

proof fn lemma_walk_shape(buf: Seq<u8>, idx: usize, mask: usize, n: nat)
    requires
        idx < buf.len(),
        forall|x: usize| #[trigger] (x & mask) < buf.len(),
    ensures
        walk(buf, idx, mask, n).0.len() == buf.len(),
        walk(buf, idx, mask, n).1 < buf.len(),
        walk(buf, idx, mask, n).2.len() == 8 * n,
    decreases n,
{
    if n > 0 {
        lemma_walk_shape(buf, idx, mask, (n - 1) as nat);
        let i = walk(buf, idx, mask, (n - 1) as nat).1;
        assert(next_index(i, mask) < buf.len());
    }
}

proof fn lemma_walk_records(buf: Seq<u8>, idx: usize, mask: usize, n: nat, k: nat)
    requires
        idx < buf.len(),
        forall|x: usize| #[trigger] (x & mask) < buf.len(),
        k < n,
    ensures
        ({
            let (b, i, _t) = walk(buf, idx, mask, k);
            walk(buf, idx, mask, n).2.subrange(8 * k as int, 8 * k + 8 as int) == visit_trace(
                b[i as int],
                stirred(b[i as int], i),
                i,
            )
        }),
    decreases n,
{
    lemma_walk_shape(buf, idx, mask, (n - 1) as nat);
    let (b, i, t) = walk(buf, idx, mask, (n - 1) as nat);
    let v = visit_trace(b[i as int], stirred(b[i as int], i), i);
    lemma_walk_shape(buf, idx, mask, n);
    assert(walk(buf, idx, mask, n).2 == t + v);
    if k + 1 < n {
        lemma_walk_records(buf, idx, mask, (n - 1) as nat, k);
        lemma_walk_shape(buf, idx, mask, k + 1);
        assert((t + v).subrange(8 * k as int, 8 * k + 8 as int) =~= t.subrange(8 * k as int, 8 * k + 8 as int));
    } else {
        assert((t + v).subrange(8 * k as int, 8 * k + 8 as int) =~= v);
    }
}

/// A disturbance of `rounds` visits hands out one record of 8 bytes per
/// visit, in the order of the walk: the cell's old value, its new value and
/// the low 6 bytes of the cell's index, which lies within the buffer. The buffer keeps its length and the
/// source stays well formed.
pub proof fn lemma_disturb_records(m: MemoryModel, seed: u64, rounds: nat)
    requires
        m.wf(),
    ensures
        m.disturb(seed, rounds).0.wf(),
        m.disturb(seed, rounds).0.buf.len() == m.buf.len(),
        m.disturb(seed, rounds).1.len() == 8 * rounds,
        forall|k: nat|
            k < rounds ==> {
                let mask = (m.buf.len() - 1) as usize;
                let start = (m.idx ^ (seed as usize)) & mask;
                let (b, i, _t) = walk(m.buf, start, mask, k);
                &&& #[trigger] m.disturb(seed, rounds).1.subrange(8 * k as int, 8 * k + 8 as int) == visit_trace(
                    b[i as int],
                    stirred(b[i as int], i),
                    i,
                )
                &&& i < m.buf.len()
            },
{
    let len = m.buf.len() as usize;
    let mask = (m.buf.len() - 1) as usize;
    assert forall|x: usize| #[trigger] (x & mask) < len by {
        lemma_mask_in_range(x, len);
    }
    let start = (m.idx ^ (seed as usize)) & mask;
    lemma_walk_shape(m.buf, start, mask, rounds);
    assert forall|k: nat| k < rounds implies {
        let (b, i, _t) = walk(m.buf, start, mask, k);
        &&& #[trigger] m.disturb(seed, rounds).1.subrange(8 * k as int, 8 * k + 8 as int) == visit_trace(
            b[i as int],
            stirred(b[i as int], i),
            i,
        )
        &&& i < m.buf.len()
    } by {
        lemma_walk_records(m.buf, start, mask, rounds, k);
        lemma_walk_shape(m.buf, start, mask, k);
    }
}

/// After a disturbance of `r >= 1` visits the source keeps, as the place to
/// continue from, the cell that follows the last visited one.
pub proof fn lemma_disturb_saves_position(m: MemoryModel, seed: u64, r: nat)
    requires
        r >= 1,
    ensures
        ({
            let mask = (m.buf.len() - 1) as usize;
            let start = (m.idx ^ (seed as usize)) & mask;
            m.disturb(seed, r).0.idx == next_index(walk(m.buf, start, mask, (r - 1) as nat).1, mask)
        }),
{
}

/// A disturbance continues the walk where the previous one stopped: after
/// `r >= 1` visits the source keeps the cell that follows the last visited
/// one, and the next disturbance, seeded by `seed2`, first visits that cell
/// xor-ed with `seed2` (masked to the buffer).
pub proof fn lemma_disturb_continues_walk(m: MemoryModel, seed: u64, r: nat, seed2: u64, r2: nat)
    requires
        m.wf(),
        r >= 1,
        r2 >= 1,
    ensures
        ({
            let mask = (m.buf.len() - 1) as usize;
            let start = (m.idx ^ (seed as usize)) & mask;
            let last = walk(m.buf, start, mask, (r - 1) as nat).1;
            let m2 = m.disturb(seed, r).0;
            let i2 = (next_index(last, mask) ^ (seed2 as usize)) & mask;
            &&& m2.idx == next_index(last, mask)
            &&& m.disturb(seed, r).1.subrange(8 * (r - 1) as int, 8 * r as int) == visit_trace(
                walk(m.buf, start, mask, (r - 1) as nat).0[last as int],
                stirred(walk(m.buf, start, mask, (r - 1) as nat).0[last as int], last),
                last,
            )
            &&& m2.disturb(seed2, r2).1.subrange(0, 8) == visit_trace(
                m2.buf[i2 as int],
                stirred(m2.buf[i2 as int], i2),
                i2,
            )
        }),
{
    let len = m.buf.len() as usize;
    let mask = (m.buf.len() - 1) as usize;
    assert forall|x: usize| #[trigger] (x & mask) < len by {
        lemma_mask_in_range(x, len);
    }
    let start = (m.idx ^ (seed as usize)) & mask;
    let k = (r - 1) as nat;
    lemma_walk_shape(m.buf, start, mask, r);
    lemma_walk_records(m.buf, start, mask, r, k);
    let (b2, i_end, t) = walk(m.buf, start, mask, r);
    assert(i_end == next_index(walk(m.buf, start, mask, k).1, mask));
    lemma_disturb_saves_position(m, seed, r);
    let m2 = m.disturb(seed, r).0;
    assert(m2.buf == b2 && m2.buf.len() == m.buf.len());
    let i2 = (i_end ^ (seed2 as usize)) & mask;
    assert(i2 < len);
    lemma_walk_records(m2.buf, i2, mask, r2, 0);
    assert(walk(m2.buf, i2, mask, 0) == (m2.buf, i2, Seq::<u8>::empty()));
}

/// Memory-access noise: a buffer whose cells are rewritten along a walk.
#[derive(Debug)]
pub struct MemoryNoise {
    buf: Vec<u8>,
    idx: usize,
}

impl View for MemoryNoise {
    type V = MemoryModel;

    closed spec fn view(&self) -> MemoryModel {
        MemoryModel { buf: self.buf@, idx: self.idx }
    }
}

fn is_power_of_two(n: usize) -> (r: bool)
    ensures
        r == is_pow2(n),
{
    let mut k: u32 = 0;
    while k < usize::BITS
        invariant
            k <= usize::BITS,
            forall|j: u32| j < k ==> n != #[trigger] (1usize << j),
        decreases usize::BITS - k,
    {
        if (1usize << k) == n {
            return true;
        }
        k = k + 1;
    }
    false
}

impl MemoryNoise {
    /// A zeroed buffer of `size` bytes; `None` unless `size` is a power of two.
    pub fn new(size: usize) -> (r: Option<Self>)
        ensures
            r is Some <==> is_pow2(size),
            r matches Some(m) ==> m@.wf() && m@.buf == Seq::new(size as nat, |i: int| 0u8)
                && m@.idx == 0,
    {
        if size == 0 || !is_power_of_two(size) {
            proof {
                if size == 0 && is_pow2(size) {
                    lemma_mask_in_range(0, size);
                }
            }
            return None;
        }
        let buf = vec![0u8; size];
        let m = MemoryNoise { buf, idx: 0 };
        assert(m@.buf =~= Seq::new(size as nat, |i: int| 0u8));
        Some(m)
    }

    pub fn len(&self) -> (r: usize)
        ensures
            r == self@.buf.len(),
    {
        self.buf.len()
    }

    /// Rewrites `rounds` cells along the walk seeded by `seed` and returns
    /// the 8 bytes handed out for each visit, in order.
    pub fn disturb(&mut self, seed: u64, rounds: usize) -> (r: Vec<u8>)
        requires
            old(self)@.wf(),
        ensures
            final(self)@.wf(),
            (final(self)@, r@) == old(self)@.disturb(seed, rounds as nat),
            r@.len() == 8 * rounds,
    {
        let len = self.buf.len();
        let mask = len - 1;
        proof {
            lemma_mask_in_range(0, len);
            assert forall|x: usize| #[trigger] (x & mask) < len by {
                lemma_mask_in_range(x, len);
            }
        }
        let start = (self.idx ^ (seed as usize)) & mask;
        let mut idx = start;
        let mut trace: Vec<u8> = Vec::new();
        let mut k: usize = 0;
        let ghost buf0 = self.buf@;
        while k < rounds
            invariant
                len == self.buf@.len(),
                len == buf0.len(),
                is_pow2(len),
                mask == len - 1,
                forall|x: usize| #[trigger] (x & mask) < len,
                start < len,
                k <= rounds,
                (self.buf@, idx, trace@) == walk(buf0, start, mask, k as nat),
                self.idx == old(self).idx,
            decreases rounds - k,
        {
            proof {
                lemma_walk_shape(buf0, start, mask, k as nat);
            }
            let old_v = self.buf[idx];
            let new_v = old_v.wrapping_add(rotl8(idx as u8, 1)).wrapping_add(1);
            self.buf.set(idx, new_v);
            let ib = u64_to_le_bytes(idx as u64);
            let ghost t0 = trace@;
            trace.push(old_v);
            trace.push(new_v);
            let mut j: usize = 0;
            while j < 6
                invariant
                    j <= 6,
                    trace@ == t0 + seq![old_v, new_v] + ib@.take(j as int),
                    ib@ == le_bytes_u64(idx as u64),
                decreases 6 - j,
            {
                proof {
                    assert(ib@.take(j + 1) =~= ib@.take(j as int).push(ib@[j as int]));
                }
                trace.push(ib[j]);
                j = j + 1;
            }
            assert(trace@ =~= t0 + visit_trace(old_v, new_v, idx));
            idx = idx.wrapping_mul(1_103_515_245).wrapping_add(12_345) & mask;
            let _ = black_box(self.buf[idx]);
            k = k + 1;
        }
        proof {
            lemma_walk_shape(buf0, start, mask, rounds as nat);
        }
        self.idx = idx;
        trace
    }
}

impl Drop for MemoryNoise {
    fn drop(&mut self)
        opens_invariants none
        no_unwind
    {
        zeroize_vec(&mut self.buf);
    }
}

} // verus!
