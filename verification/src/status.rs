//! A snapshot of a collector's configuration and health.

use vstd::prelude::*;
use crate::flags::Flags;
use crate::JENT_VERSION;
use vstd::string::StringExecFns;

verus! {

#[derive(Clone, Debug, PartialEq, Eq)]
pub struct Status {
    pub version: u32,
    pub osr: u32,
    pub flags: u32,
    pub fips_enabled: bool,
    pub ntg1_enabled: bool,
    pub memory_access_enabled: bool,
    pub memory_size: usize,
    pub hash_loop_count: usize,
    pub last_health_failure: u32,
}

impl Status {
    pub(crate) fn new(osr: u32, flags: Flags, memory_size: usize, last_health_failure: u32) -> (r: Self)
        ensures
            r.version == JENT_VERSION,
            r.osr == osr,
            r.flags == flags.0,
            r.fips_enabled == flags.spec_contains(Flags(Flags::FORCE_FIPS)),
            r.ntg1_enabled == flags.spec_contains(Flags(Flags::NTG1)),
            r.memory_access_enabled == (memory_size > 0),
            r.memory_size == memory_size,
            r.hash_loop_count == flags.spec_hash_loop_count(),
            r.last_health_failure == last_health_failure,
    {
        Status {
            version: JENT_VERSION,
            osr,
            flags: flags.bits(),
            fips_enabled: flags.contains(Flags(Flags::FORCE_FIPS)),
            ntg1_enabled: flags.contains(Flags(Flags::NTG1)),
            memory_access_enabled: memory_size > 0,
            memory_size,
            hash_loop_count: flags.hash_loop().count(),
            last_health_failure,
        }
    }

    /// The status as one line of JSON.
    pub fn to_json(&self) -> (r: String)
        ensures
            r@ == self.json(),
    {
        let mut s = String::new();
        s.append("{\"version\":");
        push_decimal(&mut s, self.version as u64);
        s.append(",\"osr\":");
        push_decimal(&mut s, self.osr as u64);
        s.append(",\"flags\":");
        push_decimal(&mut s, self.flags as u64);
        s.append(",\"fips_enabled\":");
        push_bool(&mut s, self.fips_enabled);
        s.append(",\"ntg1_enabled\":");
        push_bool(&mut s, self.ntg1_enabled);
        s.append(",\"memory_access_enabled\":");
        push_bool(&mut s, self.memory_access_enabled);
        s.append(",\"memory_size\":");
        push_decimal(&mut s, self.memory_size as u64);
        s.append(",\"hash_loop_count\":");
        push_decimal(&mut s, self.hash_loop_count as u64);
        s.append(",\"last_health_failure\":");
        push_decimal(&mut s, self.last_health_failure as u64);
        s.append("}");
        s
    }

    /// The JSON text of the status: an object with its fields in
    /// declaration order, numbers in decimal, booleans as `true`/`false`.
    pub open spec fn json(self) -> Seq<char> {
        "{\"version\":"@ + decimal(self.version as nat) + ",\"osr\":"@ + decimal(self.osr as nat)
            + ",\"flags\":"@ + decimal(self.flags as nat) + ",\"fips_enabled\":"@ + bool_text(
            self.fips_enabled,
        ) + ",\"ntg1_enabled\":"@ + bool_text(self.ntg1_enabled) + ",\"memory_access_enabled\":"@
            + bool_text(self.memory_access_enabled) + ",\"memory_size\":"@ + decimal(
            self.memory_size as nat,
        ) + ",\"hash_loop_count\":"@ + decimal(self.hash_loop_count as nat)
            + ",\"last_health_failure\":"@ + decimal(self.last_health_failure as nat) + "}"@
    }
}

/// The decimal digit for `d < 10`.
pub open spec fn digit_char(d: nat) -> char {
    if d == 0 {
        '0'
    } else if d == 1 {
        '1'
    } else if d == 2 {
        '2'
    } else if d == 3 {
        '3'
    } else if d == 4 {
        '4'
    } else if d == 5 {
        '5'
    } else if d == 6 {
        '6'
    } else if d == 7 {
        '7'
    } else if d == 8 {
        '8'
    } else {
        '9'
    }
}

/// The decimal representation of `n`, without leading zeros.
pub open spec fn decimal(n: nat) -> Seq<char>
    decreases n,
{
    if n < 10 {
        seq![digit_char(n)]
    } else {
        decimal(n / 10) + seq![digit_char(n % 10)]
    }
}

pub open spec fn bool_text(b: bool) -> Seq<char> {
    if b {
        "true"@
    } else {
        "false"@
    }
}

fn digit_str(d: u64) -> (r: &'static str)
    requires
        d < 10,
    ensures
        r@ == seq![digit_char(d as nat)],
{
    proof {
        reveal_strlit("0");
        reveal_strlit("1");
        reveal_strlit("2");
        reveal_strlit("3");
        reveal_strlit("4");
        reveal_strlit("5");
        reveal_strlit("6");
        reveal_strlit("7");
        reveal_strlit("8");
        reveal_strlit("9");
    }
    if d == 0 {
        "0"
    } else if d == 1 {
        "1"
    } else if d == 2 {
        "2"
    } else if d == 3 {
        "3"
    } else if d == 4 {
        "4"
    } else if d == 5 {
        "5"
    } else if d == 6 {
        "6"
    } else if d == 7 {
        "7"
    } else if d == 8 {
        "8"
    } else {
        "9"
    }
}

fn push_decimal(s: &mut String, n: u64)
    ensures
        final(s)@ == old(s)@ + decimal(n as nat),
    decreases n,
{
    if n >= 10 {
        push_decimal(s, n / 10);
    }
    s.append(digit_str(n % 10));
    assert(s@ =~= old(s)@ + decimal(n as nat));
}

fn push_bool(s: &mut String, b: bool)
    ensures
        final(s)@ == old(s)@ + bool_text(b),
{
    if b {
        s.append("true");
    } else {
        s.append("false");
    }
}

} // verus!
