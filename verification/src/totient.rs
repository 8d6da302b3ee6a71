//! Euler's totient, by brute-force counting.

use vstd::prelude::*;

verus! {

use crate::divisibility::{gcd, gcd_spec};

/// How many of the integers in `[0, k)` are coprime to `m`.
pub open spec fn coprime_count(m: nat, k: nat) -> nat
    decreases k,
{
    if k == 0 {
        0
    } else {
        coprime_count(m, (k - 1) as nat) + if gcd_spec((k - 1) as nat, m) == 1 {
            1nat
        } else {
            0nat
        }
    }
}

/// Euler's totient: the count of integers in `[0, m)` coprime to `m`.
///
/// Each candidate is held against `m` with the greatest common divisor;
/// the totient of one is one, since zero is coprime to one, and the
/// totient of zero is zero over the empty range.
pub fn euler_phi(m: usize) -> (r: usize)
    ensures
        r as nat == coprime_count(m as nat, m as nat),
{
    let mut count: usize = 0;
    let mut i: usize = 0;
    while i < m
        invariant
            i <= m,
            count <= i,
            count as nat == coprime_count(m as nat, i as nat),
        decreases m - i,
    {
        if gcd(i, m) == 1 {
            count += 1;
        }
        i += 1;
    }
    count
}

} // verus!
