//! Counting that stops at the largest machine number.
use vstd::prelude::*;

verus! {

/// `n`, or the largest machine number where `n` is larger.
pub open spec fn clamped(n: nat) -> usize {
    if n <= usize::MAX {
        n as usize
    } else {
        usize::MAX
    }
}

/// `n`, or the largest 64-bit number where `n` is larger.
pub open spec fn clamped_u64(n: nat) -> u64 {
    if n <= u64::MAX {
        n as u64
    } else {
        u64::MAX
    }
}

/// `a + b`, or the largest machine number where that is larger.
pub fn capped_sum(a: usize, b: usize) -> (r: usize)
    ensures
        r == clamped((a + b) as nat),
{
    if a > usize::MAX - b {
        usize::MAX
    } else {
        a + b
    }
}

/// `a + b`, or the largest 64-bit number where that is larger.
pub fn capped_sum_u64(a: u64, b: u64) -> (r: u64)
    ensures
        r == clamped_u64((a + b) as nat),
{
    if a > u64::MAX - b {
        u64::MAX
    } else {
        a + b
    }
}

/// A number that fits stays; any other becomes the largest that fits.
pub proof fn lemma_clamped(n: nat)
    ensures
        n <= usize::MAX ==> clamped(n) == n,
        n > usize::MAX ==> clamped(n) == usize::MAX,
        n <= u64::MAX ==> clamped_u64(n) == n,
        n > u64::MAX ==> clamped_u64(n) == u64::MAX,
{
}

} // verus!
