//! The C-style flags word that configures a collector.

use vstd::prelude::*;

verus! {

/// The flags word accepted by the collector constructors.
#[derive(Clone, Copy, Debug, Default, PartialEq, Eq, Structural)]
pub struct Flags(pub u32);

impl Flags {
    pub const DISABLE_STIR: u32 = 0x1;

    pub const DISABLE_UNBIAS: u32 = 0x2;

    pub const DISABLE_MEMORY_ACCESS: u32 = 0x4;

    pub const FORCE_INTERNAL_TIMER: u32 = 0x8;

    pub const DISABLE_INTERNAL_TIMER: u32 = 0x10;

    pub const FORCE_FIPS: u32 = 0x20;

    pub const NTG1: u32 = 0x40;

    pub const CACHE_ALL: u32 = 0x80;

    pub const MEMSIZE_SHIFT: u32 = 27;

    pub const HASHLOOP_SHIFT: u32 = 24;

    pub const HASHLOOP_MASK: u32 = 0x0700_0000;

    pub const MEMSIZE_MASK: u32 = 0xf800_0000;

    /// Every bit of `other` is set in `self`.
    pub open spec fn spec_contains(self, other: Flags) -> bool {
        self.0 & other.0 == other.0
    }

    /// The hash-loop exponent held in bits 24..27.
    pub open spec fn spec_hash_loop_exponent(self) -> u32 {
        (self.0 >> 24) & 7
    }

    /// How many times each sample is fed to the conditioner.
    pub open spec fn spec_hash_loop_count(self) -> usize {
        1usize << self.spec_hash_loop_exponent()
    }

    /// The raw memory-size field held in bits 27..32.
    pub open spec fn spec_memsize_raw(self) -> u32 {
        self.0 >> 27
    }

    pub fn empty() -> (r: Flags)
        ensures
            r.0 == 0,
    {
        Flags(0)
    }

    pub fn bits(self) -> (r: u32)
        ensures
            r == self.0,
    {
        self.0
    }

    pub fn contains(self, other: Flags) -> (r: bool)
        ensures
            r == self.spec_contains(other),
    {
        (self.0 & other.0) == other.0
    }

    pub fn hash_loop(self) -> (r: HashLoop)
        ensures
            r.spec_exponent() == self.spec_hash_loop_exponent(),
    {
        let x = self.0;
        let e = (x >> Self::HASHLOOP_SHIFT) & 0x7;
        assert(e <= 7) by (bit_vector)
            requires
                e == (x >> 24u32) & 7u32,
        ;
        if e == 0 {
            HashLoop::X1
        } else if e == 1 {
            HashLoop::X2
        } else if e == 2 {
            HashLoop::X4
        } else if e == 3 {
            HashLoop::X8
        } else if e == 4 {
            HashLoop::X16
        } else if e == 5 {
            HashLoop::X32
        } else if e == 6 {
            HashLoop::X64
        } else {
            HashLoop::X128
        }
    }

    pub fn memory_limit(self) -> (r: MemoryLimit)
        ensures
            r == MemoryLimit::spec_from_raw(self.spec_memsize_raw()),
    {
        let x = self.0;
        let raw = x >> Self::MEMSIZE_SHIFT;
        assert(raw <= 31) by (bit_vector)
            requires
                raw == x >> 27u32,
        ;
        MemoryLimit::from_raw(raw)
    }
}

impl core::ops::BitOr for Flags {
    type Output = Self;

    fn bitor(self, rhs: Self) -> (r: Self)
        ensures
            r.0 == self.0 | rhs.0,
    {
        Flags(self.0 | rhs.0)
    }
}

impl vstd::std_specs::ops::BitOrSpecImpl for Flags {
    open spec fn obeys_bitor_spec() -> bool {
        true
    }

    open spec fn bitor_req(self, rhs: Flags) -> bool {
        true
    }

    open spec fn bitor_spec(self, rhs: Flags) -> Flags {
        Flags(self.0 | rhs.0)
    }
}

impl core::ops::BitOrAssign for Flags {
    fn bitor_assign(&mut self, rhs: Self)
        ensures
            final(self).0 == old(self).0 | rhs.0,
    {
        self.0 = self.0 | rhs.0;
    }
}

/// How many times each sample is fed to the conditioner.
#[derive(Clone, Copy, Debug, PartialEq, Eq, Structural)]
pub enum HashLoop {
    X1,
    X2,
    X4,
    X8,
    X16,
    X32,
    X64,
    X128,
}

impl HashLoop {
    /// The base-2 logarithm of the repetition count.
    pub open spec fn spec_exponent(self) -> u32 {
        match self {
            HashLoop::X1 => 0,
            HashLoop::X2 => 1,
            HashLoop::X4 => 2,
            HashLoop::X8 => 3,
            HashLoop::X16 => 4,
            HashLoop::X32 => 5,
            HashLoop::X64 => 6,
            HashLoop::X128 => 7,
        }
    }

    /// The repetition count, a power of two.
    pub open spec fn spec_count(self) -> usize {
        (1usize << self.spec_exponent())
    }

    pub fn count(self) -> (r: usize)
        ensures
            r == self.spec_count(),
            1 <= r <= 128,
    {
        let r: usize = match self {
            HashLoop::X1 => 1,
            HashLoop::X2 => 2,
            HashLoop::X4 => 4,
            HashLoop::X8 => 8,
            HashLoop::X16 => 16,
            HashLoop::X32 => 32,
            HashLoop::X64 => 64,
            HashLoop::X128 => 128,
        };
        proof {
            let e = self.spec_exponent();
            assert(r == (1usize << e)) by (bit_vector)
                requires
                    (e == 0u32 && r == 1usize) || (e == 1u32 && r == 2usize) || (e == 2u32 && r
                        == 4usize) || (e == 3u32 && r == 8usize) || (e == 4u32 && r == 16usize)
                        || (e == 5u32 && r == 32usize) || (e == 6u32 && r == 64usize) || (e
                        == 7u32 && r == 128usize),
            ;
        }
        r
    }
}

/// The memory-size limit encoded in the flags word.
#[derive(Clone, Copy, Debug, PartialEq, Eq, Structural)]
pub enum MemoryLimit {
    Auto,
    KiB(u32),
}

impl MemoryLimit {
    /// Raw value 0 selects the default; raw value `k` selects `2^(k + 9)` KiB,
    /// clamped at `2^30` KiB.
    pub open spec fn spec_from_raw(raw: u32) -> MemoryLimit {
        if raw == 0 {
            MemoryLimit::Auto
        } else if raw >= 22 {
            MemoryLimit::KiB(1u32 << 30u32)
        } else {
            MemoryLimit::KiB(1u32 << ((raw + 9) as u32))
        }
    }

    /// Every raw value is accepted: those of 22 and above, which would
    /// shift past `2^30`, are clamped there.
    pub fn from_raw(raw: u32) -> (r: MemoryLimit)
        ensures
            r == MemoryLimit::spec_from_raw(raw),
    {
        if raw == 0 {
            MemoryLimit::Auto
        } else if raw >= 22 {
            MemoryLimit::KiB(1 << 30)
        } else {
            let shift = raw + 9;
            MemoryLimit::KiB(1 << shift)
        }
    }
}

/// A flags word contains every flag that was or-ed into it.
pub proof fn lemma_union_contains_both(a: Flags, b: Flags)
    ensures
        Flags(a.0 | b.0).spec_contains(a),
        Flags(a.0 | b.0).spec_contains(b),
{
    let (x, y) = (a.0, b.0);
    assert((x | y) & x == x && (x | y) & y == y) by (bit_vector);
}

/// Containment of flags is reflexive and transitive.
pub proof fn lemma_contains_order(a: Flags, b: Flags, c: Flags)
    ensures
        a.spec_contains(a),
        a.spec_contains(b) && b.spec_contains(c) ==> a.spec_contains(c),
{
    let (x, y, z) = (a.0, b.0, c.0);
    assert(x & x == x) by (bit_vector);
    assert((x & y == y && y & z == z) ==> x & z == z) by (bit_vector);
}

/// The hash-loop count is always one of the powers of two from 1 to 128.
pub proof fn lemma_hash_loop_count_range(f: Flags)
    ensures
        f.spec_hash_loop_exponent() <= 7,
{
    let x = f.0;
    assert((x >> 24u32) & 7u32 <= 7u32) by (bit_vector);
}

/// Every memory limit decoded from a flags word is a power of two KiB, at
/// least 1 MiB and at most 2^30 KiB.
pub proof fn lemma_memory_limit_range(f: Flags)
    ensures
        f.spec_memsize_raw() <= 31,
        MemoryLimit::spec_from_raw(f.spec_memsize_raw()) matches MemoryLimit::KiB(k) ==> 1024
            <= k <= 0x4000_0000,
{
    let x = f.0;
    assert(x >> 27u32 <= 31u32) by (bit_vector);
    let raw = x >> 27u32;
    if raw != 0 && raw < 22 {
        let s = (raw + 9) as u32;
        assert(10 <= s < 31);
        assert(1024u32 <= (1u32 << s) <= 0x4000_0000u32) by (bit_vector)
            requires
                10u32 <= s < 31u32,
        ;
    }
    if raw != 0 && raw >= 22 {
        assert(1u32 << 30u32 == 0x4000_0000u32) by (bit_vector);
    }
}

} // verus!
