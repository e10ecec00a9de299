//! Fixed-width bit helpers: rotations and little-endian byte images.

use vstd::prelude::*;

verus! {

/// `x` rotated left by `n` bits, for `0 < n < 64`.
pub open spec fn spec_rotl64(x: u64, n: u32) -> u64 {
    (x << n) | (x >> ((64 - n) as u32))
}

/// `x` rotated right by `n` bits, for `0 < n < 64`.
pub open spec fn spec_rotr64(x: u64, n: u32) -> u64 {
    (x >> n) | (x << ((64 - n) as u32))
}

/// `x` rotated left by `n` bits, for `0 < n < 8`.
pub open spec fn spec_rotl8(x: u8, n: u32) -> u8 {
    (x << n) | (x >> ((8 - n) as u32))
}

pub fn rotl64(x: u64, n: u32) -> (r: u64)
    requires
        0 < n < 64,
    ensures
        r == spec_rotl64(x, n),
{
    (x << n) | (x >> (64 - n))
}

pub fn rotr64(x: u64, n: u32) -> (r: u64)
    requires
        0 < n < 64,
    ensures
        r == spec_rotr64(x, n),
{
    (x >> n) | (x << (64 - n))
}

pub fn rotl8(x: u8, n: u32) -> (r: u8)
    requires
        0 < n < 8,
    ensures
        r == spec_rotl8(x, n),
{
    (x << n) | (x >> (8 - n))
}

/// Byte `i` (least significant first) of `x`.
pub open spec fn byte_of_u64(x: u64, i: int) -> u8 {
    ((x >> ((8 * i) as u64)) & 0xff) as u8
}

/// The little-endian byte image of `x`.
pub open spec fn le_bytes_u64(x: u64) -> Seq<u8> {
    Seq::new(8, |i: int| byte_of_u64(x, i))
}

/// The little-endian byte image of `x`.
pub open spec fn le_bytes_u32(x: u32) -> Seq<u8> {
    Seq::new(4, |i: int| ((x >> ((8 * i) as u32)) & 0xff) as u8)
}

pub fn u64_to_le_bytes(x: u64) -> (r: [u8; 8])
    ensures
        r@ == le_bytes_u64(x),
{
    let r: [u8; 8] = [
        (x & 0xff) as u8,
        ((x >> 8) & 0xff) as u8,
        ((x >> 16) & 0xff) as u8,
        ((x >> 24) & 0xff) as u8,
        ((x >> 32) & 0xff) as u8,
        ((x >> 40) & 0xff) as u8,
        ((x >> 48) & 0xff) as u8,
        ((x >> 56) & 0xff) as u8,
    ];
    assert(r@ =~= le_bytes_u64(x)) by {
        assert(x >> 0u64 == x) by (bit_vector);
    }
    r
}

pub fn u32_to_le_bytes(x: u32) -> (r: [u8; 4])
    ensures
        r@ == le_bytes_u32(x),
{
    let r: [u8; 4] = [
        (x & 0xff) as u8,
        ((x >> 8) & 0xff) as u8,
        ((x >> 16) & 0xff) as u8,
        ((x >> 24) & 0xff) as u8,
    ];
    assert(r@ =~= le_bytes_u32(x)) by {
        assert(x >> 0u32 == x) by (bit_vector);
    }
    r
}

/// Copies the first `n` bytes of `src` into `dst` at `pos`.
pub fn copy_at(dst: &mut [u8], pos: usize, src: &[u8], n: usize)
    requires
        pos + n <= old(dst)@.len(),
        n <= src@.len(),
    ensures
        final(dst)@ == old(dst)@.take(pos as int) + src@.take(n as int) + old(dst)@.skip(
            (pos + n) as int,
        ),
{
    let ghost d0 = dst@;
    let dlen = dst.len();
    let mut k: usize = 0;
    while k < n
        invariant
            dlen == d0.len(),
            k <= n,
            n <= src@.len(),
            pos + n <= d0.len(),
            dst@.len() == d0.len(),
            forall|q: int| 0 <= q < pos ==> #[trigger] dst@[q] == d0[q],
            forall|q: int| pos <= q < pos + k ==> #[trigger] dst@[q] == src@[q - pos],
            forall|q: int| pos + k <= q < d0.len() ==> #[trigger] dst@[q] == d0[q],
        decreases n - k,
    {
        dst[pos + k] = src[k];
        k = k + 1;
    }
    assert(dst@ =~= d0.take(pos as int) + src@.take(n as int) + d0.skip((pos + n) as int));
}

} // verus!
