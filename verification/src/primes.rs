//! Prime enumeration by the sieve of Eratosthenes.

use vstd::prelude::*;

verus! {

use crate::divisibility::{
    divides,
    lemma_divides_add,
    lemma_divides_le,
    lemma_divides_mul,
    lemma_divides_sub,
    lemma_divides_transitive,
    lemma_divides_witness,
};

/// `n` is prime: at least two, with no divisor strictly between one and
/// itself.
pub open spec fn is_prime(n: nat) -> bool {
    n >= 2 && forall|d: nat| 2 <= d < n ==> !divides(d, n)
}

/// Some proper divisor of `j` lies in the interval `[2, p)`.
pub open spec fn has_proper_divisor_below(j: nat, p: nat) -> bool {
    exists|d: nat| 2 <= d < p && d != j && divides(d, j)
}

/// For `j` below the sieve's bound, primality is exactly the absence of a
/// proper divisor below that bound.
proof fn lemma_prime_iff_no_proper_divisor(j: nat, n: nat)
    requires
        2 <= j < n,
    ensures
        is_prime(j) <==> !has_proper_divisor_below(j, n),
{
    if is_prime(j) {
        if has_proper_divisor_below(j, n) {
            let d = choose|d: nat| 2 <= d < n && d != j && divides(d, j);
            lemma_divides_le(d, j);
            assert(false);
        }
    } else {
        assert(exists|d: nat| 2 <= d < j && divides(d, j));
        let d = choose|d: nat| 2 <= d < j && divides(d, j);
        assert(has_proper_divisor_below(j, n));
    }
}

/// Two multiples of `p` within a window narrower than `p` coincide.
proof fn lemma_multiple_in_window(p: nat, i: nat, t: nat)
    requires
        p > 0,
        divides(p, i),
        divides(p, t),
        i <= t < i + p,
    ensures
        t == i,
{
    lemma_divides_sub(p, i, t);
    if t != i {
        lemma_divides_le(p, (t - i) as nat);
    }
}

/// A multiple of `p` other than `p` itself and at least two is at least
/// twice `p`.
proof fn lemma_multiple_at_least_double(p: nat, t: nat)
    requires
        p >= 2,
        divides(p, t),
        t != p,
        t >= 2,
    ensures
        t >= 2 * p,
{
    lemma_divides_witness(p, t);
    let q = t / p;
    assert(t >= 2 * p) by (nonlinear_arith)
        requires
            t == p * q,
            p >= 2,
            t != p,
            t >= 2,
    ;
}

/// Growing the bound by one adds exactly the multiples of the old bound.
proof fn lemma_proper_divisor_step(t: nat, p: nat)
    requires
        2 <= p,
    ensures
        has_proper_divisor_below(t, p + 1) <==> (has_proper_divisor_below(t, p) || (divides(
            p,
            t,
        ) && p != t)),
{
    if has_proper_divisor_below(t, p + 1) {
        let d = choose|d: nat| 2 <= d < p + 1 && d != t && divides(d, t);
        if d < p {
            assert(has_proper_divisor_below(t, p));
        }
    }
    if divides(p, t) && p != t {
        assert(2 <= p < p + 1 && p != t && divides(p, t));
        assert(has_proper_divisor_below(t, p + 1));
    }
}

/// A multiple of a struck-out `p` is itself struck out below `p`.
proof fn lemma_composite_multiple_struck(p: nat, t: nat)
    requires
        2 <= p,
        has_proper_divisor_below(p, p),
        divides(p, t),
        t != p,
        t >= 2,
    ensures
        has_proper_divisor_below(t, p),
{
    let d = choose|d: nat| 2 <= d < p && d != p && divides(d, p);
    lemma_divides_transitive(d, p, t);
    lemma_multiple_at_least_double(p, t);
    assert(d != t);
    assert(has_proper_divisor_below(t, p));
}

/// All primes strictly below `n`, in ascending order.
///
/// The result lists every prime below `n` exactly once, ascending; `n`
/// itself stays out even when it is prime.
pub fn sieve_of_eratosthenes(n: usize) -> (r: Vec<usize>)
    ensures
        forall|u: int, v: int| 0 <= u < v < r@.len() ==> r@[u] < r@[v],
        forall|u: int| 0 <= u < r@.len() ==> is_prime(r@[u] as nat) && r@[u] < n,
        forall|q: usize| is_prime(q as nat) && q < n ==> r@.contains(q),
{
    let mut flags: Vec<bool> = Vec::new();
    let mut j: usize = 0;
    while j < n
        invariant
            j <= n,
            flags@.len() == j as int,
            forall|t: int| 0 <= t < j ==> flags@[t] == (t >= 2),
        decreases n - j,
    {
        flags.push(2 <= j);
        j += 1;
    }
    let mut p: usize = 2;
    while p < n
        invariant
            2 <= p,
            flags@.len() == n as int,
            forall|t: int|
                0 <= t < n ==> flags@[t] == (t >= 2 && !has_proper_divisor_below(
                    t as nat,
                    p as nat,
                )),
        decreases n - p,
    {
        if flags[p] {
            let pw: u128 = p as u128;
            let nw: u128 = n as u128;
            let mut i: u128 = 2 * pw;
            proof {
                lemma_divides_mul(p as nat, 2);
                assert(p as nat * 2 == 2 * p as nat);
                assert forall|t: int|
                    0 <= t < n implies flags@[t] == (t >= 2 && !has_proper_divisor_below(
                    t as nat,
                    p as nat,
                ) && !(divides(p as nat, t as nat) && t != p as int && t < i as int)) by {
                    if t >= 2 && divides(p as nat, t as nat) && t != p as int {
                        lemma_multiple_at_least_double(p as nat, t as nat);
                    }
                }
            }
            while i < nw
                invariant
                    2 <= p < n,
                    nw == n as u128,
                    pw == p as u128,
                    flags@.len() == n as int,
                    2 * p as nat <= i as nat,
                    divides(p as nat, i as nat),
                    forall|t: int|
                        0 <= t < n ==> flags@[t] == (t >= 2 && !has_proper_divisor_below(
                            t as nat,
                            p as nat,
                        ) && !(divides(p as nat, t as nat) && t != p as int && t < i as int)),
                decreases nw + pw - i,
            {
                let idx: usize = i as usize;
                flags.set(idx, false);
                proof {
                    lemma_divides_mul(p as nat, 1);
                    lemma_divides_add(p as nat, i as nat, p as nat);
                    assert forall|t: int|
                        0 <= t < n implies (t >= 2 && !has_proper_divisor_below(t as nat, p as nat)
                        && !(divides(p as nat, t as nat) && t != p as int && t < i as int
                            + p as int)) == flags@[t] by {
                        if divides(p as nat, t as nat) && i as int <= t < i as int + p as int {
                            lemma_multiple_in_window(p as nat, i as nat, t as nat);
                        }
                    }
                }
                i = i + pw;
            }
            proof {
                assert forall|t: int|
                    0 <= t < n implies (t >= 2 && !has_proper_divisor_below(
                    t as nat,
                    (p + 1) as nat,
                )) == flags@[t] by {
                    lemma_proper_divisor_step(t as nat, p as nat);
                    if t >= 2 && divides(p as nat, t as nat) && t != p as int {
                        lemma_multiple_at_least_double(p as nat, t as nat);
                    }
                }
            }
        } else {
            proof {
                assert forall|t: int|
                    0 <= t < n implies (t >= 2 && !has_proper_divisor_below(
                    t as nat,
                    (p + 1) as nat,
                )) == flags@[t] by {
                    lemma_proper_divisor_step(t as nat, p as nat);
                    if t >= 2 && divides(p as nat, t as nat) && t != p as int {
                        lemma_composite_multiple_struck(p as nat, t as nat);
                    }
                }
            }
        }
        p += 1;
    }
    proof {
        assert forall|t: int|
            0 <= t < n implies flags@[t] == (t >= 2 && !has_proper_divisor_below(
            t as nat,
            n as nat,
        )) by {
            if t >= 2 {
                if has_proper_divisor_below(t as nat, n as nat) {
                    let d = choose|d: nat|
                        2 <= d < n as nat && d != t as nat && #[trigger] divides(d, t as nat);
                    assert(has_proper_divisor_below(t as nat, p as nat));
                }
                if has_proper_divisor_below(t as nat, p as nat) {
                    let d = choose|d: nat|
                        2 <= d < p as nat && d != t as nat && #[trigger] divides(d, t as nat);
                    lemma_divides_le(d, t as nat);
                    assert(has_proper_divisor_below(t as nat, n as nat));
                }
            }
        }
    }
    let mut result: Vec<usize> = Vec::new();
    let mut k: usize = 0;
    while k < n
        invariant
            k <= n,
            flags@.len() == n as int,
            forall|t: int|
                0 <= t < n ==> flags@[t] == (t >= 2 && !has_proper_divisor_below(
                    t as nat,
                    n as nat,
                )),
            forall|u: int, v: int| 0 <= u < v < result@.len() ==> result@[u] < result@[v],
            forall|u: int| 0 <= u < result@.len() ==> result@[u] < k && flags@[result@[u] as int],
            forall|q: usize| q < k && flags@[q as int] ==> result@.contains(q),
        decreases n - k,
    {
        if flags[k] {
            let ghost prev = result@;
            result.push(k);
            proof {
                assert forall|q: usize| q < k + 1 && flags@[q as int] implies result@.contains(
                    q,
                ) by {
                    if q < k {
                        let u = choose|u: int| 0 <= u < prev.len() && prev[u] == q;
                        assert(result@[u] == q);
                    } else {
                        assert(result@[prev.len() as int] == q);
                    }
                }
            }
        }
        k += 1;
    }
    proof {
        assert forall|u: int| 0 <= u < result@.len() implies is_prime(result@[u] as nat)
            && result@[u] < n by {
            lemma_prime_iff_no_proper_divisor(result@[u] as nat, n as nat);
        }
        assert forall|q: usize| is_prime(q as nat) && q < n implies result@.contains(q) by {
            lemma_prime_iff_no_proper_divisor(q as nat, n as nat);
        }
    }
    result
}

} // verus!
