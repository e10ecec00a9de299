//! Types and byte handling of the C interface.

use vstd::prelude::*;
use crate::collector::EntropyCollector;

verus! {

/// A collector handed out through the C interface.
#[allow(non_camel_case_types)]
pub struct rand_data {
    pub inner: EntropyCollector,
}

/// The NUL-terminated C string of `text` that a buffer of `buflen` bytes
/// holds: `text` cut to at most `buflen - 1` bytes, then a 0 byte.
pub fn c_string_for_buffer(text: &[u8], buflen: usize) -> (r: Vec<u8>)
    requires
        buflen > 0,
    ensures
        r@ == text@.take(
            if text@.len() < buflen - 1 {
                text@.len() as int
            } else {
                buflen - 1
            },
        ).push(0u8),
        r@.len() <= buflen,
{
    let n = if text.len() < buflen - 1 {
        text.len()
    } else {
        buflen - 1
    };
    let mut r: Vec<u8> = Vec::new();
    let mut i: usize = 0;
    while i < n
        invariant
            i <= n,
            n <= text@.len(),
            r@ == text@.take(i as int),
        decreases n - i,
    {
        r.push(text[i]);
        i = i + 1;
        assert(r@ =~= text@.take(i as int));
    }
    r.push(0u8);
    r
}

/// What the safe read does after its first read returned `rc`: a
/// non-negative code is returned as it is; on an error the collector is
/// replaced by a fresh one and the read is tried once more.
pub fn safe_read_retries(rc: isize) -> (r: bool)
    ensures
        r == (rc < 0),
{
    rc < 0
}

/// The code the safe read returns, given the first read's code and, where
/// it was retried, the retry's code (`None` where no fresh collector could
/// be made, which leaves the first code).
pub fn safe_read_result(first: isize, retried: Option<isize>) -> (r: isize)
    ensures
        first >= 0 ==> r == first,
        first < 0 ==> r == match retried {
            Some(code) => code,
            None => first,
        },
{
    if first >= 0 {
        return first;
    }
    match retried {
        Some(code) => code,
        None => first,
    }
}

} // verus!
